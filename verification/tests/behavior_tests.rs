use lease_pool::errors::error_code_msg;
use lease_pool::errors::ERROR_CODE_ID_EXPIRED;
use lease_pool::errors::ERROR_CODE_ID_NONEXISTENT;
use lease_pool::errors::ERROR_CODE_NO_ID_AVAILBLE;
use lease_pool::pool::clear_expired;
use lease_pool::pool::get_heartbeat_impl;
use lease_pool::pool::get_next_impl;
use lease_pool::pool::Pool;
use lease_pool::time_provider::FixedTimeProvider;
use lease_pool::time_provider::SystemTimeProvider;
use lease_pool::time_provider::TimeProvider;
use lease_pool::time_provider::ZeroTimeProvider;

// A full cycle over a small pool: min=1, max=3, timeout=2000 ms.
#[test]
fn scenario_min1_max3() {
    let mut pool = Pool::new(1, 3, 2000);
    assert_eq!(pool.availables, vec![1, 2, 3]);
    assert!(pool.expires.is_empty());

    // t=0: three acquisitions succeed, the fourth fails.
    assert_eq!(get_next_impl(&mut pool, 0), Ok((1, 2000)));
    assert_eq!(get_next_impl(&mut pool, 0), Ok((2, 2000)));
    assert_eq!(get_next_impl(&mut pool, 0), Ok((3, 2000)));
    assert_eq!(get_next_impl(&mut pool, 0), Err(ERROR_CODE_NO_ID_AVAILBLE));

    // t=1000: the lease on 1 is still live and is extended.
    assert_eq!(get_heartbeat_impl(1, &mut pool, 1000), Ok(3000));

    // t=2500: the lease on 2 lapsed at 2000 and is reclaimed.
    assert_eq!(get_heartbeat_impl(2, &mut pool, 2500), Err(ERROR_CODE_ID_EXPIRED));
    assert_eq!(pool.availables, vec![2]);

    // t=2500: an acquisition first sweeps 3 (lapsed at 2000) behind 2,
    // then leases the front of the queue again.
    assert_eq!(get_next_impl(&mut pool, 2500), Ok((2, 4500)));
    assert_eq!(pool.availables, vec![3]);
    assert_eq!(pool.expires, vec![(1, 3000), (2, 4500)]);
}

// Exhaustion: a pool of n identifiers serves exactly n acquisitions when no
// lease lapses in between, all with distinct identifiers.
#[test]
fn exhaustion_distinct_ids() {
    let mut pool = Pool::new(10, 12, 500);
    let a = get_next_impl(&mut pool, 100).unwrap();
    let b = get_next_impl(&mut pool, 100).unwrap();
    let c = get_next_impl(&mut pool, 100).unwrap();
    assert_eq!((a, b, c), ((10, 600), (11, 600), (12, 600)));
    assert!(a.0 != b.0 && b.0 != c.0 && a.0 != c.0);
    assert_eq!(get_next_impl(&mut pool, 100), Err(ERROR_CODE_NO_ID_AVAILBLE));
}

// Reuse is first-in first-out: the identifier freed earliest is reissued
// first.
#[test]
fn reuse_is_fifo() {
    let mut pool = Pool::new(1, 2, 100);
    assert_eq!(get_next_impl(&mut pool, 0), Ok((1, 100)));
    assert_eq!(get_next_impl(&mut pool, 0), Ok((2, 100)));
    // Both lapse; a renewal of 2 reclaims it first, the sweep then
    // appends 1: the queue is [2, 1].
    assert_eq!(get_heartbeat_impl(2, &mut pool, 150), Err(ERROR_CODE_ID_EXPIRED));
    assert_eq!(get_next_impl(&mut pool, 150), Ok((2, 250)));
    assert_eq!(get_next_impl(&mut pool, 150), Ok((1, 250)));
}

// A renewal of a live lease keeps the identifier in the table, with the
// refreshed expiry.
#[test]
fn renewal_extends_in_table() {
    let mut pool = Pool { timeout: 300, expires: vec![(4, 1000), (7, 900)], availables: vec![5] };
    assert_eq!(get_heartbeat_impl(4, &mut pool, 800), Ok(1100));
    assert_eq!(pool.expires, vec![(4, 1100), (7, 900)]);
    assert_eq!(pool.availables, vec![5]);
}

// A renewal of a lapsed lease removes the entry and appends the identifier
// at the back of the queue.
#[test]
fn expiry_reclaims_to_back() {
    let mut pool = Pool { timeout: 300, expires: vec![(4, 1000), (7, 900)], availables: vec![5] };
    assert_eq!(get_heartbeat_impl(7, &mut pool, 950), Err(ERROR_CODE_ID_EXPIRED));
    assert_eq!(pool.expires, vec![(4, 1000)]);
    assert_eq!(pool.availables, vec![5, 7]);
}

// A renewal of an identifier never issued, or already reclaimed, changes
// nothing.
#[test]
fn unknown_id_leaves_pool_unchanged() {
    let mut pool = Pool { timeout: 300, expires: vec![(4, 1000)], availables: vec![5, 6] };
    assert_eq!(get_heartbeat_impl(9, &mut pool, 100), Err(ERROR_CODE_ID_NONEXISTENT));
    assert_eq!(pool.timeout, 300);
    assert_eq!(pool.expires, vec![(4, 1000)]);
    assert_eq!(pool.availables, vec![5, 6]);

    // Already reclaimed: issue, let it lapse, reclaim, then renew again.
    let mut pool = Pool::new(1, 1, 10);
    assert_eq!(get_next_impl(&mut pool, 0), Ok((1, 10)));
    assert_eq!(get_heartbeat_impl(1, &mut pool, 10), Err(ERROR_CODE_ID_EXPIRED));
    assert_eq!(get_heartbeat_impl(1, &mut pool, 10), Err(ERROR_CODE_ID_NONEXISTENT));
    assert_eq!(pool.availables, vec![1]);
}

// A sweep reclaims every lapsed lease at once, appending the identifiers in
// ascending order, and reports how many.
#[test]
fn sweep_reclaims_ascending() {
    let mut pool = Pool {
        timeout: 50,
        expires: vec![(1, 5), (3, 100), (5, 3)],
        availables: vec![9],
    };
    let count = clear_expired(&mut pool, 5);
    assert_eq!(count, 2);
    assert_eq!(pool.expires, vec![(3, 100)]);
    assert_eq!(pool.availables, vec![9, 1, 5]);

    // A second sweep at the same instant finds nothing left to reclaim.
    assert_eq!(clear_expired(&mut pool, 5), 0);
}

// An empty range gives a pool that can lease nothing.
#[test]
fn empty_range_is_exhausted() {
    let mut pool = Pool::new(5, 2, 100);
    assert!(pool.availables.is_empty());
    assert_eq!(get_next_impl(&mut pool, 0), Err(ERROR_CODE_NO_ID_AVAILBLE));
}

#[test]
fn error_messages() {
    assert_eq!(error_code_msg(ERROR_CODE_NO_ID_AVAILBLE), Some("No id available!"));
    assert_eq!(error_code_msg(ERROR_CODE_ID_EXPIRED), Some("Id expired!"));
    assert_eq!(error_code_msg(ERROR_CODE_ID_NONEXISTENT), Some("Id nonexistent!"));
    assert_eq!(error_code_msg(0), None);
    assert_eq!(error_code_msg(4), None);
}

#[test]
fn fixed_time_provider_controls() {
    let mut tp = FixedTimeProvider::new(500);
    assert_eq!(tp.unix_ts_ms(), 500);
    tp.add(250);
    assert_eq!(tp.unix_ts_ms(), 750);
    tp.add(-50);
    assert_eq!(tp.unix_ts_ms(), 700);
    tp.set(123);
    assert_eq!(tp.unix_ts_ms(), 123);
}

#[test]
fn zero_time_provider_is_zero() {
    let tp = ZeroTimeProvider {};
    assert_eq!(tp.unix_ts_ms(), 0);
}

#[test]
fn system_time_provider_runs() {
    let tp = SystemTimeProvider {};
    // The machine's clock is past the Unix epoch.
    assert!(tp.unix_ts_ms() > 0);
}
