use lease_pool::errors::ERROR_CODE_ID_EXPIRED;
use lease_pool::errors::ERROR_CODE_ID_NONEXISTENT;
use lease_pool::errors::ERROR_CODE_NO_ID_AVAILBLE;
use lease_pool::pool::clear_expired;
use lease_pool::pool::get_heartbeat_impl;
use lease_pool::pool::get_next_impl;
use lease_pool::pool::Pool;
use lease_pool::time_provider::FixedTimeProvider;
use lease_pool::time_provider::TimeProvider;
use lease_pool::time_provider::ZeroTimeProvider;

const TEST_TIMEOUT: i64 = 2000;

#[test]
fn get_next_impl_err() {
    let time_provider = FixedTimeProvider { fixed_unix_ts_ms: 123 };
    let now = time_provider.unix_ts_ms();
    let expires = vec![(1, now + TEST_TIMEOUT), (2, now + TEST_TIMEOUT)];
    let mut state = Pool { timeout: TEST_TIMEOUT, expires, availables: vec![] };
    let result = get_next_impl(&mut state, time_provider.unix_ts_ms());
    assert_eq!(result, Err(ERROR_CODE_NO_ID_AVAILBLE));
}

#[test]
fn get_next_impl_ok() {
    let time_provider = FixedTimeProvider { fixed_unix_ts_ms: 123 };
    let now = time_provider.unix_ts_ms();
    let expires = vec![(1, now + TEST_TIMEOUT), (2, now + TEST_TIMEOUT)];
    let mut state = Pool { timeout: TEST_TIMEOUT, expires, availables: vec![3] };
    let result = get_next_impl(&mut state, time_provider.unix_ts_ms());
    assert_eq!(result, Ok((3, now + TEST_TIMEOUT)));
}

#[test]
fn get_next_impl_expireds() {
    let mut time_provider = FixedTimeProvider { fixed_unix_ts_ms: 123 };
    let now = time_provider.unix_ts_ms();
    let mut state = Pool {
        timeout: TEST_TIMEOUT,
        expires: vec![(1, now - TEST_TIMEOUT), (2, now + TEST_TIMEOUT)],
        availables: vec![3],
    };

    {
        let result = clear_expired(&mut state, time_provider.unix_ts_ms());
        assert_eq!(result, 1);

        // expires has removed the old entry
        assert_eq!(state.expires, vec![(2, now + TEST_TIMEOUT)]);
        // and now the old id is at the end of the queue
        assert_eq!(state.availables, vec![3, 1]);
    }

    {
        time_provider.add(TEST_TIMEOUT / 2);
        let result = get_next_impl(&mut state, time_provider.unix_ts_ms());
        assert_eq!(result, Ok((3, now + TEST_TIMEOUT / 2 + TEST_TIMEOUT)));
        let result2 = get_next_impl(&mut state, time_provider.unix_ts_ms());
        assert_eq!(result2, Ok((1, now + TEST_TIMEOUT / 2 + TEST_TIMEOUT)));
        let result3 = get_next_impl(&mut state, time_provider.unix_ts_ms());
        assert_eq!(result3, Err(ERROR_CODE_NO_ID_AVAILBLE));
    }

    {
        time_provider.add(TEST_TIMEOUT / 2);
        let result = get_next_impl(&mut state, time_provider.unix_ts_ms());
        assert_eq!(result, Ok((2, now + TEST_TIMEOUT + TEST_TIMEOUT)));
    }
}

#[test]
fn get_heartbeat_impl_missing() {
    let time_provider = ZeroTimeProvider {};
    let mut state = Pool { timeout: TEST_TIMEOUT, expires: vec![], availables: vec![1, 2] };
    let result = get_heartbeat_impl(1, &mut state, time_provider.unix_ts_ms());
    assert_eq!(result, Err(ERROR_CODE_ID_NONEXISTENT));
}

#[test]
fn get_heartbeat_impl_ok() {
    let mut time_provider = FixedTimeProvider { fixed_unix_ts_ms: 123 };
    let now = time_provider.unix_ts_ms();
    let expires = vec![(1, now + TEST_TIMEOUT), (2, now + TEST_TIMEOUT)];
    time_provider.add(TEST_TIMEOUT / 2);
    let mut state = Pool { timeout: TEST_TIMEOUT, expires, availables: vec![] };
    let result = get_heartbeat_impl(1, &mut state, time_provider.unix_ts_ms());
    assert_eq!(result, Ok(now + TEST_TIMEOUT + TEST_TIMEOUT / 2));
}

#[test]
fn get_heartbeat_impl_expired() {
    let mut time_provider = FixedTimeProvider { fixed_unix_ts_ms: 123 };
    let now = time_provider.unix_ts_ms();
    let expires = vec![(1, now + TEST_TIMEOUT)];
    time_provider.add(TEST_TIMEOUT * 2);
    let mut state = Pool { timeout: TEST_TIMEOUT, expires, availables: vec![2] };
    let result = get_heartbeat_impl(1, &mut state, time_provider.unix_ts_ms());
    assert_eq!(result, Err(ERROR_CODE_ID_EXPIRED));
}
