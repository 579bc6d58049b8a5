//! The lease pool: a fixed range of identifiers, partitioned at all times
//! into an available FIFO queue and a table of active leases with their
//! expiry timestamps.
//!
//! The lease table is kept as a vector of `(identifier, expiry)` pairs in
//! strictly ascending identifier order, so that a sweep reclaims expired
//! leases in ascending identifier order, deterministically.
//!
//! Known limitation, accepted by design: a lease is identified by its number
//! alone. When a client's lease lapses and the identifier is reclaimed and
//! re-issued to another client before the first client renews, that renewal
//! lands on the newer lease — it extends it, or reports it expired — and the
//! change of ownership goes unnoticed. A per-identifier generation counter
//! would detect this; the design accepts the gap instead.

use vstd::prelude::*;

use crate::errors::ERROR_CODE_ID_EXPIRED;
use crate::errors::ERROR_CODE_ID_NONEXISTENT;
use crate::errors::ERROR_CODE_NO_ID_AVAILBLE;

verus! {

/// The pool: the fixed lease timeout, the lease table, and the available
/// queue (front at index 0, reclaimed identifiers appended at the back).
pub struct Pool {
    pub timeout: i64,
    pub expires: Vec<(usize, i64)>,
    pub availables: Vec<usize>,
}

/// The mathematical model of a pool: the timeout, the lease table as a
/// sequence of `(identifier, expiry)` pairs in ascending identifier order,
/// and the available queue as a sequence.
#[verifier::ext_equal]
pub struct PoolView {
    pub timeout: i64,
    pub expires: Seq<(usize, i64)>,
    pub availables: Seq<usize>,
}

impl View for Pool {
    type V = PoolView;

    open spec fn view(&self) -> PoolView {
        PoolView { timeout: self.timeout, expires: self.expires@, availables: self.availables@ }
    }
}

/// The expiry of the lease on `id`, or `None` when `id` is not leased:
/// the value paired with the first occurrence of `id` in `s`.
pub open spec fn lookup(s: Seq<(usize, i64)>, id: usize) -> Option<i64>
    decreases s.len(),
{
    if s.len() == 0 {
        None
    } else if s[0].0 == id {
        Some(s[0].1)
    } else {
        lookup(s.drop_first(), id)
    }
}

/// The entries of `s` whose lease has not yet lapsed at time `now`
/// (expiry strictly greater than `now`), in their original order.
pub open spec fn live_entries(s: Seq<(usize, i64)>, now: i64) -> Seq<(usize, i64)>
    decreases s.len(),
{
    if s.len() == 0 {
        s
    } else if s.last().1 > now {
        live_entries(s.drop_last(), now).push(s.last())
    } else {
        live_entries(s.drop_last(), now)
    }
}

/// The identifiers of the entries of `s` whose lease has lapsed at time
/// `now` (expiry at most `now`), in their original order.
pub open spec fn expired_ids(s: Seq<(usize, i64)>, now: i64) -> Seq<usize>
    decreases s.len(),
{
    if s.len() == 0 {
        Seq::empty()
    } else if s.last().1 <= now {
        expired_ids(s.drop_last(), now).push(s.last().0)
    } else {
        expired_ids(s.drop_last(), now)
    }
}

/// The lease table with the lease on `id` set to expiry `exp`: the new entry
/// replaces an existing entry for `id`, or stands at its place in ascending
/// identifier order.
pub open spec fn insert_lease(s: Seq<(usize, i64)>, id: usize, exp: i64) -> Seq<(usize, i64)>
    decreases s.len(),
{
    if s.len() == 0 {
        seq![(id, exp)]
    } else if id < s[0].0 {
        seq![(id, exp)] + s
    } else if id == s[0].0 {
        seq![(id, exp)] + s.drop_first()
    } else {
        seq![s[0]] + insert_lease(s.drop_first(), id, exp)
    }
}

/// The lease table with the first entry for `id` removed.
pub open spec fn remove_lease(s: Seq<(usize, i64)>, id: usize) -> Seq<(usize, i64)>
    decreases s.len(),
{
    if s.len() == 0 {
        s
    } else if s[0].0 == id {
        s.drop_first()
    } else {
        seq![s[0]] + remove_lease(s.drop_first(), id)
    }
}

/// One sweep at time `now`: every lapsed lease leaves the table and its
/// identifier is appended to the back of the available queue, in ascending
/// identifier order.
pub open spec fn spec_sweep(v: PoolView, now: i64) -> PoolView {
    PoolView {
        timeout: v.timeout,
        expires: live_entries(v.expires, now),
        availables: v.availables + expired_ids(v.expires, now),
    }
}

/// One acquisition at time `now`: a sweep, then the front of the available
/// queue is leased until `now + timeout`, or the call fails with
/// `ERROR_CODE_NO_ID_AVAILBLE` when the queue is empty after the sweep.
pub open spec fn spec_acquire(v: PoolView, now: i64) -> (PoolView, Result<(usize, i64), usize>) {
    let sw = spec_sweep(v, now);
    if sw.availables.len() == 0 {
        (sw, Err(ERROR_CODE_NO_ID_AVAILBLE))
    } else {
        let id = sw.availables[0];
        let exp = (now + v.timeout) as i64;
        (
            PoolView {
                timeout: v.timeout,
                expires: insert_lease(sw.expires, id, exp),
                availables: sw.availables.drop_first(),
            },
            Ok((id, exp)),
        )
    }
}

/// One renewal of `id` at time `now`. An unknown identifier fails with
/// `ERROR_CODE_ID_NONEXISTENT` and changes nothing. A live lease is extended
/// to `now + timeout`. A lapsed lease is reclaimed: the entry leaves the
/// table, the identifier joins the back of the available queue, and the call
/// fails with `ERROR_CODE_ID_EXPIRED`.
pub open spec fn spec_renew(v: PoolView, id: usize, now: i64) -> (PoolView, Result<i64, usize>) {
    match lookup(v.expires, id) {
        None => (v, Err(ERROR_CODE_ID_NONEXISTENT)),
        Some(exp) => if exp > now {
            let newexp = (now + v.timeout) as i64;
            (
                PoolView {
                    timeout: v.timeout,
                    expires: insert_lease(v.expires, id, newexp),
                    availables: v.availables,
                },
                Ok(newexp),
            )
        } else {
            (
                PoolView {
                    timeout: v.timeout,
                    expires: remove_lease(v.expires, id),
                    availables: v.availables.push(id),
                },
                Err(ERROR_CODE_ID_EXPIRED),
            )
        },
    }
}

/// Identifiers strictly ascending: each appears at most once and a scan
/// visits them in ascending order.
pub open spec fn sorted_ids(s: Seq<(usize, i64)>) -> bool {
    forall|i: int, j: int| 0 <= i < j < s.len() ==> (#[trigger] s[i]).0 < (#[trigger] s[j]).0
}

/// No identifier appears twice in the available queue.
pub open spec fn distinct_ids(a: Seq<usize>) -> bool {
    forall|i: int, j: int| 0 <= i < j < a.len() ==> #[trigger] a[i] != #[trigger] a[j]
}

/// A strictly ascending sequence of identifiers.
pub open spec fn strictly_increasing(a: Seq<usize>) -> bool {
    forall|i: int, j: int| 0 <= i < j < a.len() ==> #[trigger] a[i] < #[trigger] a[j]
}

impl PoolView {
    /// The pool invariant: a nonnegative timeout, a lease table in strictly
    /// ascending identifier order, an available queue without duplicates, and
    /// no identifier both available and leased.
    pub open spec fn wf(self) -> bool {
        &&& self.timeout >= 0
        &&& sorted_ids(self.expires)
        &&& distinct_ids(self.availables)
        &&& forall|i: int|
            0 <= i < self.availables.len() ==> lookup(
                self.expires,
                #[trigger] self.availables[i],
            ) is None
    }

    /// An identifier belongs to this pool: it is available or leased.
    /// The invariant keeps the two cases exclusive.
    pub open spec fn holds_id(self, id: usize) -> bool {
        self.availables.contains(id) || lookup(self.expires, id) is Some
    }
}

// ---------------------------------------------------------------------------
// Facts about `lookup`.
// ---------------------------------------------------------------------------

/// Appending an entry changes a lookup only where nothing matched before.
proof fn lemma_lookup_push(s: Seq<(usize, i64)>, e: (usize, i64), id: usize)
    ensures
        lookup(s.push(e), id) == (if lookup(s, id) is Some {
            lookup(s, id)
        } else if e.0 == id {
            Some(e.1)
        } else {
            None
        }),
    decreases s.len(),
{
    if s.len() == 0 {
        assert(s.push(e)[0] == e);
        assert(s.push(e).drop_first() =~= Seq::<(usize, i64)>::empty());
        if e.0 != id {
            assert(lookup(s.push(e), id) == lookup(Seq::<(usize, i64)>::empty(), id));
        }
    } else {
        assert(s.push(e)[0] == s[0]);
        assert(s.push(e).drop_first() =~= s.drop_first().push(e));
        lemma_lookup_push(s.drop_first(), e, id);
        if s[0].0 == id {
            assert(lookup(s, id) == Some(s[0].1));
            assert(lookup(s.push(e), id) == Some(s[0].1));
        } else {
            assert(lookup(s, id) == lookup(s.drop_first(), id));
            assert(lookup(s.push(e), id) == lookup(s.drop_first().push(e), id));
        }
    }
}

/// A lookup succeeds exactly when some entry carries the identifier.
proof fn lemma_lookup_index(s: Seq<(usize, i64)>, id: usize)
    ensures
        lookup(s, id) is Some <==> exists|j: int| 0 <= j < s.len() && (#[trigger] s[j]).0 == id,
    decreases s.len(),
{
    if s.len() == 0 {
    } else if s[0].0 == id {
        assert(0 <= 0 < s.len() && s[0].0 == id);
    } else {
        lemma_lookup_index(s.drop_first(), id);
        if lookup(s, id) is Some {
            let j = choose|j: int|
                0 <= j < s.drop_first().len() && (#[trigger] s.drop_first()[j]).0 == id;
            assert(s[j + 1].0 == id);
        }
        if exists|j: int| 0 <= j < s.len() && (#[trigger] s[j]).0 == id {
            let j = choose|j: int| 0 <= j < s.len() && (#[trigger] s[j]).0 == id;
            assert(s.drop_first()[j - 1].0 == id);
        }
    }
}

/// When identifiers ascend, the entry at any index is what a lookup of its
/// identifier finds.
proof fn lemma_lookup_at_index(s: Seq<(usize, i64)>, k: int)
    requires
        sorted_ids(s),
        0 <= k < s.len(),
    ensures
        lookup(s, s[k].0) == Some(s[k].1),
    decreases s.len(),
{
    if k > 0 {
        assert(s[0].0 < s[k].0);
        assert(sorted_ids(s.drop_first()));
        lemma_lookup_at_index(s.drop_first(), k - 1);
    }
}

/// An identifier absent from every entry is never found.
proof fn lemma_lookup_absent(s: Seq<(usize, i64)>, id: usize)
    requires
        forall|j: int| 0 <= j < s.len() ==> (#[trigger] s[j]).0 != id,
    ensures
        lookup(s, id) is None,
    decreases s.len(),
{
    if s.len() > 0 {
        lemma_lookup_absent(s.drop_first(), id);
    }
}

// ---------------------------------------------------------------------------
// Facts about setting and removing a lease.
// ---------------------------------------------------------------------------

/// Setting a lease changes lookups at its identifier alone.
proof fn lemma_insert_lease_lookup(s: Seq<(usize, i64)>, id: usize, exp: i64, k: usize)
    ensures
        lookup(insert_lease(s, id, exp), k) == (if k == id {
            Some(exp)
        } else {
            lookup(s, k)
        }),
    decreases s.len(),
{
    if s.len() == 0 {
        let t = seq![(id, exp)];
        assert(t[0] == (id, exp));
        assert(t.drop_first() =~= Seq::<(usize, i64)>::empty());
        if k != id {
            assert(lookup(Seq::<(usize, i64)>::empty(), k) is None);
            assert(lookup(t, k) is None);
        }
    } else if id < s[0].0 {
        let t = seq![(id, exp)] + s;
        assert(t[0] == (id, exp));
        assert(t.drop_first() =~= s);
        if k != id {
            assert(lookup(t, k) == lookup(s, k));
        }
    } else if id == s[0].0 {
        let t = seq![(id, exp)] + s.drop_first();
        assert(t[0] == (id, exp));
        assert(t.drop_first() =~= s.drop_first());
        if k != id {
            assert(lookup(t, k) == lookup(s.drop_first(), k));
            assert(lookup(s, k) == lookup(s.drop_first(), k));
        }
    } else {
        lemma_insert_lease_lookup(s.drop_first(), id, exp, k);
        let t = seq![s[0]] + insert_lease(s.drop_first(), id, exp);
        assert(t[0] == s[0]);
        assert(t.drop_first() =~= insert_lease(s.drop_first(), id, exp));
        if s[0].0 == k {
            assert(lookup(t, k) == Some(s[0].1));
            assert(lookup(s, k) == Some(s[0].1));
        } else {
            assert(lookup(t, k) == lookup(insert_lease(s.drop_first(), id, exp), k));
            assert(lookup(s, k) == lookup(s.drop_first(), k));
        }
    }
}

/// A strict lower bound on every identifier, and on the one being set, is a
/// strict lower bound on the result's identifiers.
proof fn lemma_insert_lease_ids_above(s: Seq<(usize, i64)>, id: usize, exp: i64, b: usize)
    requires
        forall|k: int| 0 <= k < s.len() ==> (#[trigger] s[k]).0 > b,
        id > b,
    ensures
        forall|j: int|
            0 <= j < insert_lease(s, id, exp).len() ==> (#[trigger] insert_lease(s, id, exp)[j]).0
                > b,
    decreases s.len(),
{
    if s.len() == 0 {
    } else if id < s[0].0 {
    } else if id == s[0].0 {
    } else {
        lemma_insert_lease_ids_above(s.drop_first(), id, exp, b);
        let t = seq![s[0]] + insert_lease(s.drop_first(), id, exp);
        assert forall|j: int| 0 <= j < t.len() implies (#[trigger] t[j]).0 > b by {
            if j > 0 {
                assert(t[j] == insert_lease(s.drop_first(), id, exp)[j - 1]);
            }
        }
    }
}

/// Setting a lease keeps the table in ascending identifier order.
proof fn lemma_insert_lease_sorted(s: Seq<(usize, i64)>, id: usize, exp: i64)
    requires
        sorted_ids(s),
    ensures
        sorted_ids(insert_lease(s, id, exp)),
    decreases s.len(),
{
    if s.len() == 0 {
    } else if id < s[0].0 {
        let t = seq![(id, exp)] + s;
        assert forall|i: int, j: int| 0 <= i < j < t.len() implies (#[trigger] t[i]).0 < (
        #[trigger] t[j]).0 by {
            if i == 0 {
                assert(t[j] == s[j - 1]);
                if j > 1 {
                    assert(s[0].0 < s[j - 1].0);
                }
            } else {
                assert(t[i] == s[i - 1] && t[j] == s[j - 1]);
            }
        }
    } else if id == s[0].0 {
        let t = seq![(id, exp)] + s.drop_first();
        assert forall|i: int, j: int| 0 <= i < j < t.len() implies (#[trigger] t[i]).0 < (
        #[trigger] t[j]).0 by {
            if i == 0 {
                assert(t[j] == s[j]);
            } else {
                assert(t[i] == s[i] && t[j] == s[j]);
            }
        }
    } else {
        assert(sorted_ids(s.drop_first()));
        lemma_insert_lease_sorted(s.drop_first(), id, exp);
        assert(forall|k: int|
            0 <= k < s.drop_first().len() ==> (#[trigger] s.drop_first()[k]).0 > s[0].0);
        lemma_insert_lease_ids_above(s.drop_first(), id, exp, s[0].0);
        let r = insert_lease(s.drop_first(), id, exp);
        let t = seq![s[0]] + r;
        assert forall|i: int, j: int| 0 <= i < j < t.len() implies (#[trigger] t[i]).0 < (
        #[trigger] t[j]).0 by {
            if i == 0 {
                assert(t[j] == r[j - 1]);
            } else {
                assert(t[i] == r[i - 1] && t[j] == r[j - 1]);
            }
        }
    }
}

/// Where a scan for ascending identifiers stops without a match, the
/// functional set is an insertion at that index.
proof fn lemma_insert_lease_at(s: Seq<(usize, i64)>, id: usize, exp: i64, j: int)
    requires
        sorted_ids(s),
        0 <= j <= s.len(),
        forall|k: int| 0 <= k < j ==> (#[trigger] s[k]).0 < id,
        j == s.len() || (s[j]).0 > id,
    ensures
        insert_lease(s, id, exp) == s.insert(j, (id, exp)),
    decreases s.len(),
{
    if s.len() == 0 {
        assert(insert_lease(s, id, exp) =~= s.insert(0, (id, exp)));
    } else if j == 0 {
        assert(s[0].0 > id);
        assert(seq![(id, exp)] + s =~= s.insert(0, (id, exp)));
    } else {
        assert(s[0].0 < id);
        assert(sorted_ids(s.drop_first()));
        lemma_insert_lease_at(s.drop_first(), id, exp, j - 1);
        assert(seq![s[0]] + s.drop_first().insert(j - 1, (id, exp)) =~= s.insert(j, (id, exp)));
    }
}

/// Where the identifier stands at index `j`, the functional set is an update
/// in place at that index.
proof fn lemma_insert_lease_update_at(s: Seq<(usize, i64)>, id: usize, exp: i64, j: int)
    requires
        sorted_ids(s),
        0 <= j < s.len(),
        (s[j]).0 == id,
    ensures
        insert_lease(s, id, exp) == s.update(j, (id, exp)),
    decreases s.len(),
{
    if j == 0 {
        assert(seq![(id, exp)] + s.drop_first() =~= s.update(0, (id, exp)));
    } else {
        assert(s[0].0 < s[j].0);
        assert(sorted_ids(s.drop_first()));
        lemma_insert_lease_update_at(s.drop_first(), id, exp, j - 1);
        assert(seq![s[0]] + s.drop_first().update(j - 1, (id, exp)) =~= s.update(j, (id, exp)));
    }
}

/// Removing a lease changes lookups at its identifier alone.
proof fn lemma_remove_lease_lookup(s: Seq<(usize, i64)>, id: usize, k: usize)
    requires
        sorted_ids(s),
    ensures
        lookup(remove_lease(s, id), k) == (if k == id {
            None
        } else {
            lookup(s, k)
        }),
    decreases s.len(),
{
    if s.len() == 0 {
    } else if s[0].0 == id {
        if k == id {
            assert(forall|j: int|
                0 <= j < s.drop_first().len() ==> (#[trigger] s.drop_first()[j]).0 != id);
            lemma_lookup_absent(s.drop_first(), id);
        }
    } else {
        assert(sorted_ids(s.drop_first()));
        lemma_remove_lease_lookup(s.drop_first(), id, k);
        let t = seq![s[0]] + remove_lease(s.drop_first(), id);
        assert(t[0] == s[0]);
        assert(t.drop_first() =~= remove_lease(s.drop_first(), id));
    }
}

/// A strict lower bound on every identifier survives a removal.
proof fn lemma_remove_lease_ids_above(s: Seq<(usize, i64)>, id: usize, b: usize)
    requires
        forall|k: int| 0 <= k < s.len() ==> (#[trigger] s[k]).0 > b,
    ensures
        forall|j: int|
            0 <= j < remove_lease(s, id).len() ==> (#[trigger] remove_lease(s, id)[j]).0 > b,
    decreases s.len(),
{
    if s.len() == 0 {
    } else if s[0].0 == id {
    } else {
        lemma_remove_lease_ids_above(s.drop_first(), id, b);
        let t = seq![s[0]] + remove_lease(s.drop_first(), id);
        assert forall|j: int| 0 <= j < t.len() implies (#[trigger] t[j]).0 > b by {
            if j > 0 {
                assert(t[j] == remove_lease(s.drop_first(), id)[j - 1]);
            }
        }
    }
}

/// Removing a lease keeps the table in ascending identifier order.
proof fn lemma_remove_lease_sorted(s: Seq<(usize, i64)>, id: usize)
    requires
        sorted_ids(s),
    ensures
        sorted_ids(remove_lease(s, id)),
    decreases s.len(),
{
    if s.len() == 0 {
    } else if s[0].0 == id {
        assert(sorted_ids(s.drop_first()));
    } else {
        assert(sorted_ids(s.drop_first()));
        lemma_remove_lease_sorted(s.drop_first(), id);
        assert(forall|k: int|
            0 <= k < s.drop_first().len() ==> (#[trigger] s.drop_first()[k]).0 > s[0].0);
        lemma_remove_lease_ids_above(s.drop_first(), id, s[0].0);
        let r = remove_lease(s.drop_first(), id);
        let t = seq![s[0]] + r;
        assert forall|i: int, j: int| 0 <= i < j < t.len() implies (#[trigger] t[i]).0 < (
        #[trigger] t[j]).0 by {
            if i == 0 {
                assert(t[j] == r[j - 1]);
            } else {
                assert(t[i] == r[i - 1] && t[j] == r[j - 1]);
            }
        }
    }
}

/// Where a scan finds the identifier first at index `j`, the functional
/// removal is a removal at that index.
proof fn lemma_remove_lease_at(s: Seq<(usize, i64)>, id: usize, j: int)
    requires
        0 <= j < s.len(),
        forall|k: int| 0 <= k < j ==> (#[trigger] s[k]).0 != id,
        (s[j]).0 == id,
    ensures
        remove_lease(s, id) == s.remove(j),
    decreases s.len(),
{
    if j == 0 {
        assert(s.drop_first() =~= s.remove(0));
    } else {
        lemma_remove_lease_at(s.drop_first(), id, j - 1);
        assert(seq![s[0]] + s.drop_first().remove(j - 1) =~= s.remove(j));
    }
}

// ---------------------------------------------------------------------------
// Facts about the sweep.
// ---------------------------------------------------------------------------

/// An upper bound on every identifier of `s` bounds the live entries too.
proof fn lemma_live_ids_bound(s: Seq<(usize, i64)>, now: i64, b: usize)
    requires
        forall|k: int| 0 <= k < s.len() ==> (#[trigger] s[k]).0 < b,
    ensures
        forall|j: int|
            0 <= j < live_entries(s, now).len() ==> (#[trigger] live_entries(s, now)[j]).0 < b,
    decreases s.len(),
{
    if s.len() > 0 {
        let dl = s.drop_last();
        lemma_live_ids_bound(dl, now, b);
        assert forall|j: int| 0 <= j < live_entries(s, now).len() implies (#[trigger] live_entries(
            s,
            now,
        )[j]).0 < b by {
            if s.last().1 > now {
                assert(live_entries(s, now) == live_entries(dl, now).push(s.last()));
                if j == live_entries(dl, now).len() {
                    assert(s[s.len() - 1].0 < b);
                } else {
                    assert(live_entries(s, now)[j] == live_entries(dl, now)[j]);
                }
            } else {
                assert(live_entries(s, now) == live_entries(dl, now));
            }
        }
    }
}

/// An upper bound on every identifier of `s` bounds the expired ones too.
proof fn lemma_expired_ids_bound(s: Seq<(usize, i64)>, now: i64, b: usize)
    requires
        forall|k: int| 0 <= k < s.len() ==> (#[trigger] s[k]).0 < b,
    ensures
        forall|j: int| 0 <= j < expired_ids(s, now).len() ==> #[trigger] expired_ids(s, now)[j] < b,
    decreases s.len(),
{
    if s.len() > 0 {
        let dl = s.drop_last();
        lemma_expired_ids_bound(dl, now, b);
        assert forall|j: int| 0 <= j < expired_ids(s, now).len() implies #[trigger] expired_ids(
            s,
            now,
        )[j] < b by {
            if s.last().1 <= now {
                assert(expired_ids(s, now) == expired_ids(dl, now).push(s.last().0));
                if j == expired_ids(dl, now).len() {
                    assert(s[s.len() - 1].0 < b);
                } else {
                    assert(expired_ids(s, now)[j] == expired_ids(dl, now)[j]);
                }
            } else {
                assert(expired_ids(s, now) == expired_ids(dl, now));
            }
        }
    }
}

/// The live entries of a table in ascending identifier order are themselves
/// in ascending identifier order.
proof fn lemma_live_entries_sorted(s: Seq<(usize, i64)>, now: i64)
    requires
        sorted_ids(s),
    ensures
        sorted_ids(live_entries(s, now)),
    decreases s.len(),
{
    if s.len() > 0 {
        let dl = s.drop_last();
        assert(sorted_ids(dl));
        lemma_live_entries_sorted(dl, now);
        if s.last().1 > now {
            assert(forall|k: int| 0 <= k < dl.len() ==> (#[trigger] dl[k]).0 < s.last().0);
            lemma_live_ids_bound(dl, now, s.last().0);
        }
    }
}

/// The identifiers reclaimed by a sweep ascend strictly, so none repeats.
proof fn lemma_expired_ids_increasing(s: Seq<(usize, i64)>, now: i64)
    requires
        sorted_ids(s),
    ensures
        strictly_increasing(expired_ids(s, now)),
    decreases s.len(),
{
    if s.len() > 0 {
        let dl = s.drop_last();
        assert(sorted_ids(dl));
        lemma_expired_ids_increasing(dl, now);
        if s.last().1 <= now {
            assert(forall|k: int| 0 <= k < dl.len() ==> (#[trigger] dl[k]).0 < s.last().0);
            lemma_expired_ids_bound(dl, now, s.last().0);
        }
    }
}

/// Every identifier a sweep reclaims was leased, with a lapsed expiry.
proof fn lemma_expired_ids_lookup(s: Seq<(usize, i64)>, now: i64)
    requires
        sorted_ids(s),
    ensures
        forall|j: int|
            0 <= j < expired_ids(s, now).len() ==> (lookup(
                s,
                #[trigger] expired_ids(s, now)[j],
            ) matches Some(e)
                && e <= now),
    decreases s.len(),
{
    if s.len() > 0 {
        let dl = s.drop_last();
        assert(sorted_ids(dl));
        lemma_expired_ids_lookup(dl, now);
        assert(dl.push(s.last()) =~= s);
        assert forall|j: int| 0 <= j < expired_ids(s, now).len() implies (lookup(
            s,
            #[trigger] expired_ids(s, now)[j],
        ) matches Some(e)
            && e <= now) by {
            let id = expired_ids(s, now)[j];
            if s.last().1 <= now && j == expired_ids(s, now).len() - 1 {
                lemma_lookup_at_index(s, s.len() - 1);
            } else {
                assert(expired_ids(dl, now)[j] == id);
                lemma_lookup_push(dl, s.last(), id);
            }
        }
    }
}

/// What a lookup finds after a sweep: the same lease when it was still live,
/// nothing when it had lapsed or was never there.
proof fn lemma_live_lookup(s: Seq<(usize, i64)>, now: i64, id: usize)
    requires
        sorted_ids(s),
    ensures
        lookup(live_entries(s, now), id) == (match lookup(s, id) {
            Some(e) => if e > now {
                Some(e)
            } else {
                None
            },
            None => None,
        }),
    decreases s.len(),
{
    if s.len() > 0 {
        let dl = s.drop_last();
        assert(sorted_ids(dl));
        lemma_live_lookup(dl, now, id);
        assert(dl.push(s.last()) =~= s);
        lemma_lookup_push(dl, s.last(), id);
        if s.last().1 > now {
            lemma_lookup_push(live_entries(dl, now), s.last(), id);
        }
        if lookup(dl, id) is Some && s.last().0 == id {
            lemma_lookup_index(dl, id);
            let j = choose|j: int| 0 <= j < dl.len() && (#[trigger] dl[j]).0 == id;
            assert(s[j].0 < s.last().0);
            assert(false);
        }
    }
}

/// A sweep preserves the pool invariant.
proof fn lemma_sweep_wf(v: PoolView, now: i64)
    requires
        v.wf(),
    ensures
        spec_sweep(v, now).wf(),
{
    let sw = spec_sweep(v, now);
    let exp = expired_ids(v.expires, now);
    let n = v.availables.len() as int;
    lemma_live_entries_sorted(v.expires, now);
    lemma_expired_ids_increasing(v.expires, now);
    lemma_expired_ids_lookup(v.expires, now);
    assert forall|i: int, j: int| 0 <= i < j < sw.availables.len() implies #[trigger] sw.availables[i]
        != #[trigger] sw.availables[j] by {
        if i < n && j >= n {
            assert(sw.availables[i] == v.availables[i]);
            assert(sw.availables[j] == exp[j - n]);
            assert(lookup(v.expires, v.availables[i]) is None);
        }
    }
    assert forall|i: int| 0 <= i < sw.availables.len() implies lookup(
        sw.expires,
        #[trigger] sw.availables[i],
    ) is None by {
        lemma_live_lookup(v.expires, now, sw.availables[i]);
        if i < n {
            assert(sw.availables[i] == v.availables[i]);
        } else {
            assert(sw.availables[i] == exp[i - n]);
        }
    }
}

/// An acquisition preserves the pool invariant.
proof fn lemma_acquire_wf(v: PoolView, now: i64)
    requires
        v.wf(),
    ensures
        spec_acquire(v, now).0.wf(),
{
    lemma_sweep_wf(v, now);
    let sw = spec_sweep(v, now);
    if sw.availables.len() > 0 {
        let id = sw.availables[0];
        let exp = (now + v.timeout) as i64;
        let next = spec_acquire(v, now).0;
        lemma_insert_lease_sorted(sw.expires, id, exp);
        assert forall|i: int| 0 <= i < next.availables.len() implies lookup(
            next.expires,
            #[trigger] next.availables[i],
        ) is None by {
            assert(next.availables[i] == sw.availables[i + 1]);
            lemma_insert_lease_lookup(sw.expires, id, exp, sw.availables[i + 1]);
        }
    }
}

/// A renewal, of either outcome, preserves the pool invariant.
proof fn lemma_renew_wf(v: PoolView, id: usize, now: i64)
    requires
        v.wf(),
    ensures
        spec_renew(v, id, now).0.wf(),
{
    let next = spec_renew(v, id, now).0;
    match lookup(v.expires, id) {
        None => {},
        Some(exp) => {
            if exp > now {
                let newexp = (now + v.timeout) as i64;
                lemma_insert_lease_sorted(v.expires, id, newexp);
                assert forall|i: int| 0 <= i < next.availables.len() implies lookup(
                    next.expires,
                    #[trigger] next.availables[i],
                ) is None by {
                    lemma_insert_lease_lookup(v.expires, id, newexp, v.availables[i]);
                }
            } else {
                lemma_remove_lease_sorted(v.expires, id);
                assert forall|i: int| 0 <= i < next.availables.len() implies lookup(
                    next.expires,
                    #[trigger] next.availables[i],
                ) is None by {
                    lemma_remove_lease_lookup(v.expires, id, next.availables[i]);
                }
                assert forall|i: int, j: int|
                    0 <= i < j < next.availables.len() implies #[trigger] next.availables[i]
                    != #[trigger] next.availables[j] by {
                    if j == next.availables.len() - 1 {
                        assert(next.availables[i] == v.availables[i]);
                        assert(lookup(v.expires, v.availables[i]) is None);
                    }
                }
            }
        },
    }
}

/// Sweep the lease table at time `now`: every lapsed lease (expiry at most
/// `now`) is removed and its identifier appended to the back of the available
/// queue, in ascending identifier order. Returns how many were reclaimed.
#[verifier::loop_isolation(false)]
pub fn clear_expired(state: &mut Pool, now: i64) -> (count: usize)
    requires
        old(state)@.wf(),
    ensures
        final(state)@.wf(),
        final(state)@ == spec_sweep(old(state)@, now),
        count == expired_ids(old(state)@.expires, now).len(),
{
    let ghost orig = state.expires@;
    let mut kept: Vec<(usize, i64)> = Vec::new();
    let mut count: usize = 0;
    let mut i: usize = 0;
    while i < state.expires.len()
        invariant
            i <= state.expires.len(),
            count <= i,
            state.expires@ == orig,
            state.timeout == old(state).timeout,
            kept@ == live_entries(orig.take(i as int), now),
            state.availables@ == old(state).availables@ + expired_ids(orig.take(i as int), now),
            count == expired_ids(orig.take(i as int), now).len(),
        decreases state.expires.len() - i,
    {
        let e = state.expires[i];
        proof {
            assert(orig.take(i + 1).drop_last() =~= orig.take(i as int));
            assert(orig.take(i + 1).last() == e);
        }
        if e.1 <= now {
            state.availables.push(e.0);
            count = count + 1;
        } else {
            kept.push(e);
        }
        i = i + 1;
    }
    proof {
        assert(orig.take(orig.len() as int) =~= orig);
        lemma_sweep_wf(old(state)@, now);
    }
    state.expires = kept;
    proof {
        assert(state@ =~= spec_sweep(old(state)@, now));
    }
    count
}

/// Acquire the next identifier at time `now`: sweep lapsed leases back into
/// the available queue, then lease the front of the queue until
/// `now + timeout`. Fails with `ERROR_CODE_NO_ID_AVAILBLE`, and mutates
/// nothing beyond the sweep, exactly when the queue is empty after the sweep.
#[verifier::loop_isolation(false)]
pub fn get_next_impl(state: &mut Pool, now: i64) -> (r: Result<(usize, i64), usize>)
    requires
        old(state)@.wf(),
        now + old(state)@.timeout <= i64::MAX,
    ensures
        final(state)@.wf(),
        final(state)@ == spec_acquire(old(state)@, now).0,
        r == spec_acquire(old(state)@, now).1,
{
    clear_expired(state, now);
    let ghost sw = spec_sweep(old(state)@, now);
    if state.availables.len() == 0 {
        Err(ERROR_CODE_NO_ID_AVAILBLE)
    } else {
        let id = state.availables.remove(0);
        proof {
            assert(id == sw.availables[0]);
            assert(state.availables@ =~= sw.availables.drop_first());
            assert(lookup(sw.expires, id) is None);
            lemma_lookup_index(sw.expires, id);
        }
        let exp = now + state.timeout;
        let mut j: usize = 0;
        while j < state.expires.len() && state.expires[j].0 < id
            invariant
                j <= state.expires.len(),
                forall|k: int| 0 <= k < j ==> (#[trigger] state.expires@[k]).0 < id,
            decreases state.expires.len() - j,
        {
            j = j + 1;
        }
        proof {
            if j < state.expires.len() {
                assert(state.expires@[j as int].0 != id);
            }
            lemma_insert_lease_at(sw.expires, id, exp, j as int);
            lemma_acquire_wf(old(state)@, now);
        }
        state.expires.insert(j, (id, exp));
        proof {
            assert(final(state)@ =~= spec_acquire(old(state)@, now).0);
        }
        Ok((id, exp))
    }
}

/// Renew ("heartbeat") the lease on `id` at time `now`. A live lease is
/// extended to `now + timeout` and the new expiry returned. A lapsed lease is
/// reclaimed — the identifier moves to the back of the available queue — and
/// the call fails with `ERROR_CODE_ID_EXPIRED`. An identifier not currently
/// leased fails with `ERROR_CODE_ID_NONEXISTENT` and nothing changes.
#[verifier::loop_isolation(false)]
pub fn get_heartbeat_impl(id: usize, state: &mut Pool, now: i64) -> (r: Result<i64, usize>)
    requires
        old(state)@.wf(),
        now + old(state)@.timeout <= i64::MAX,
    ensures
        final(state)@.wf(),
        final(state)@ == spec_renew(old(state)@, id, now).0,
        r == spec_renew(old(state)@, id, now).1,
{
    let mut j: usize = 0;
    while j < state.expires.len() && state.expires[j].0 != id
        invariant
            j <= state.expires.len(),
            forall|k: int| 0 <= k < j ==> (#[trigger] state.expires@[k]).0 != id,
        decreases state.expires.len() - j,
    {
        j = j + 1;
    }
    if j < state.expires.len() {
        let e = state.expires[j];
        proof {
            lemma_lookup_at_index(state.expires@, j as int);
            assert(lookup(state.expires@, id) == Some(e.1));
        }
        if e.1 > now {
            let newexp = now + state.timeout;
            state.expires.set(j, (id, newexp));
            proof {
                lemma_insert_lease_update_at(old(state).expires@, id, newexp, j as int);
                lemma_renew_wf(old(state)@, id, now);
                assert(final(state)@ =~= spec_renew(old(state)@, id, now).0);
            }
            Ok(newexp)
        } else {
            state.expires.remove(j);
            state.availables.push(id);
            proof {
                lemma_remove_lease_at(old(state).expires@, id, j as int);
                lemma_renew_wf(old(state)@, id, now);
                assert(final(state)@ =~= spec_renew(old(state)@, id, now).0);
            }
            Err(ERROR_CODE_ID_EXPIRED)
        }
    } else {
        proof {
            lemma_lookup_absent(state.expires@, id);
        }
        Err(ERROR_CODE_ID_NONEXISTENT)
    }
}

// ---------------------------------------------------------------------------
// Laws of the allocator.
// ---------------------------------------------------------------------------

/// Uniqueness: no identifier is issued twice while the first lease is still
/// in the table. When two consecutive acquisitions both succeed, and the
/// first identifier is still leased at the moment the second is issued (it
/// survives the second call's sweep), the two identifiers differ.
pub proof fn lemma_acquire_no_double_issue(v: PoolView, now1: i64, now2: i64)
    requires
        v.wf(),
    ensures
        ({
            let (v1, r1) = spec_acquire(v, now1);
            let (v2, r2) = spec_acquire(v1, now2);
            r1 matches Ok(p1) ==> r2 matches Ok(p2) ==> lookup(
                spec_sweep(v1, now2).expires,
                p1.0,
            ) is Some ==> p1.0 != p2.0
        }),
{
    lemma_acquire_wf(v, now1);
    let v1 = spec_acquire(v, now1).0;
    lemma_sweep_wf(v1, now2);
    let sw2 = spec_sweep(v1, now2);
    if sw2.availables.len() > 0 {
        assert(lookup(sw2.expires, sw2.availables[0]) is None);
    }
}

/// The pool after `k` consecutive acquisitions, each sampling time `now`.
pub open spec fn spec_acquire_k(v: PoolView, now: i64, k: nat) -> PoolView
    decreases k,
{
    if k == 0 {
        v
    } else {
        spec_acquire(spec_acquire_k(v, now, (k - 1) as nat), now).0
    }
}

/// Every lease in the table outlives `now`: none is ready to be reclaimed.
pub open spec fn all_live(s: Seq<(usize, i64)>, now: i64) -> bool {
    forall|j: int| 0 <= j < s.len() ==> (#[trigger] s[j]).1 > now
}

/// A sweep of a table with no lapsed lease reclaims nothing.
proof fn lemma_all_live_sweep(s: Seq<(usize, i64)>, now: i64)
    requires
        all_live(s, now),
    ensures
        live_entries(s, now) == s,
        expired_ids(s, now) == Seq::<usize>::empty(),
    decreases s.len(),
{
    if s.len() > 0 {
        let dl = s.drop_last();
        lemma_all_live_sweep(dl, now);
        assert(s[s.len() - 1].1 > now);
        assert(dl.push(s.last()) =~= s);
    }
}

/// Setting a lease that outlives `now` keeps the whole table outliving `now`.
proof fn lemma_insert_lease_all_live(s: Seq<(usize, i64)>, id: usize, exp: i64, now: i64)
    requires
        all_live(s, now),
        exp > now,
    ensures
        all_live(insert_lease(s, id, exp), now),
    decreases s.len(),
{
    if s.len() == 0 {
    } else if id < s[0].0 {
        let t = seq![(id, exp)] + s;
        assert forall|j: int| 0 <= j < t.len() implies (#[trigger] t[j]).1 > now by {
            if j > 0 {
                assert(t[j] == s[j - 1]);
            }
        }
    } else if id == s[0].0 {
        let t = seq![(id, exp)] + s.drop_first();
        assert forall|j: int| 0 <= j < t.len() implies (#[trigger] t[j]).1 > now by {
            if j > 0 {
                assert(t[j] == s[j]);
            }
        }
    } else {
        lemma_insert_lease_all_live(s.drop_first(), id, exp, now);
        let t = seq![s[0]] + insert_lease(s.drop_first(), id, exp);
        assert forall|j: int| 0 <= j < t.len() implies (#[trigger] t[j]).1 > now by {
            if j > 0 {
                assert(t[j] == insert_lease(s.drop_first(), id, exp)[j - 1]);
            }
        }
    }
}

/// After `k` acquisitions of a pool with no lapsed lease: the invariant
/// holds, the timeout is unchanged, the first `k` identifiers of the queue
/// are gone, and still no lease has lapsed.
proof fn lemma_acquire_k_shape(v: PoolView, now: i64, k: nat)
    requires
        v.wf(),
        v.timeout > 0,
        now + v.timeout <= i64::MAX,
        all_live(v.expires, now),
        k <= v.availables.len(),
    ensures
        spec_acquire_k(v, now, k).wf(),
        spec_acquire_k(v, now, k).timeout == v.timeout,
        spec_acquire_k(v, now, k).availables == v.availables.skip(k as int),
        all_live(spec_acquire_k(v, now, k).expires, now),
    decreases k,
{
    if k == 0 {
        assert(v.availables.skip(0) =~= v.availables);
    } else {
        lemma_acquire_k_shape(v, now, (k - 1) as nat);
        let prev = spec_acquire_k(v, now, (k - 1) as nat);
        lemma_all_live_sweep(prev.expires, now);
        assert(prev.availables + Seq::<usize>::empty() =~= prev.availables);
        let sw = spec_sweep(prev, now);
        assert(sw.availables == prev.availables);
        assert(sw.availables.len() > 0);
        lemma_acquire_wf(prev, now);
        let exp = (now + v.timeout) as i64;
        lemma_insert_lease_all_live(prev.expires, sw.availables[0], exp, now);
        assert(spec_acquire_k(v, now, k).availables =~= v.availables.skip(k as int));
    }
}

/// Exhaustion: with `n` identifiers available and no lease ready to lapse,
/// `n` consecutive acquisitions at time `now` all succeed and hand out the
/// queue's identifiers in order — all distinct — and one more acquisition
/// fails with `ERROR_CODE_NO_ID_AVAILBLE`.
pub proof fn lemma_exhaustion(v: PoolView, now: i64)
    requires
        v.wf(),
        v.timeout > 0,
        now + v.timeout <= i64::MAX,
        all_live(v.expires, now),
    ensures
        forall|k: nat|
            k < v.availables.len() ==> spec_acquire(#[trigger] spec_acquire_k(v, now, k), now).1
                == Ok::<(usize, i64), usize>((v.availables[k as int], (now + v.timeout) as i64)),
        forall|i: int, j: int|
            0 <= i < j < v.availables.len() ==> v.availables[i] != v.availables[j],
        spec_acquire(spec_acquire_k(v, now, v.availables.len()), now).1 == Err::<
            (usize, i64),
            usize,
        >(ERROR_CODE_NO_ID_AVAILBLE),
{
    assert forall|k: nat| k < v.availables.len() implies spec_acquire(
        #[trigger] spec_acquire_k(v, now, k),
        now,
    ).1 == Ok::<(usize, i64), usize>((v.availables[k as int], (now + v.timeout) as i64)) by {
        lemma_acquire_k_shape(v, now, k);
        let vk = spec_acquire_k(v, now, k);
        lemma_all_live_sweep(vk.expires, now);
        assert(vk.availables + Seq::<usize>::empty() =~= vk.availables);
        assert(spec_sweep(vk, now).availables[0] == v.availables[k as int]);
    }
    lemma_acquire_k_shape(v, now, v.availables.len());
    let vn = spec_acquire_k(v, now, v.availables.len());
    lemma_all_live_sweep(vn.expires, now);
    assert(vn.availables + Seq::<usize>::empty() =~= vn.availables);
    assert(vn.availables.len() == 0);
}

/// The three outcomes of a renewal, spelled out. A live lease (expiry still
/// ahead of `now`) is extended: the call returns `now + timeout` and the
/// identifier stays leased with exactly that expiry. A lapsed lease fails
/// with `ERROR_CODE_ID_EXPIRED`: the identifier leaves the table and is
/// appended to the back of the available queue. An identifier not leased —
/// never issued, or already reclaimed — fails with
/// `ERROR_CODE_ID_NONEXISTENT` and the pool is unchanged.
pub proof fn lemma_renew_outcomes(v: PoolView, id: usize, now: i64)
    requires
        v.wf(),
    ensures
        ({
            let (next, r) = spec_renew(v, id, now);
            &&& (lookup(v.expires, id) matches Some(e) && e > now) ==> {
                &&& r == Ok::<i64, usize>((now + v.timeout) as i64)
                &&& lookup(next.expires, id) == Some((now + v.timeout) as i64)
                &&& next.availables == v.availables
            }
            &&& (lookup(v.expires, id) matches Some(e) && e <= now) ==> {
                &&& r == Err::<i64, usize>(ERROR_CODE_ID_EXPIRED)
                &&& lookup(next.expires, id) is None
                &&& next.availables == v.availables.push(id)
            }
            &&& lookup(v.expires, id) is None ==> {
                &&& r == Err::<i64, usize>(ERROR_CODE_ID_NONEXISTENT)
                &&& next == v
            }
        }),
{
    match lookup(v.expires, id) {
        None => {},
        Some(e) => {
            if e > now {
                lemma_insert_lease_lookup(v.expires, id, (now + v.timeout) as i64, id);
            } else {
                lemma_remove_lease_lookup(v.expires, id, id);
            }
        },
    }
}

/// Every leased identifier whose lease has lapsed is among the swept ones.
proof fn lemma_expired_ids_complete(s: Seq<(usize, i64)>, now: i64)
    ensures
        forall|j: int|
            0 <= j < s.len() && (#[trigger] s[j]).1 <= now ==> expired_ids(s, now).contains(
                s[j].0,
            ),
    decreases s.len(),
{
    if s.len() > 0 {
        let dl = s.drop_last();
        lemma_expired_ids_complete(dl, now);
        let e = expired_ids(s, now);
        assert forall|j: int| 0 <= j < s.len() && (#[trigger] s[j]).1 <= now implies e.contains(
            s[j].0,
        ) by {
            if j == s.len() - 1 {
                assert(e[e.len() - 1] == s[j].0);
            } else {
                assert(dl[j] == s[j]);
                assert(expired_ids(dl, now).contains(s[j].0));
                let i = choose|i: int|
                    0 <= i < expired_ids(dl, now).len() && expired_ids(dl, now)[i] == s[j].0;
                assert(e[i] == s[j].0);
            }
        }
    }
}

/// Closed partition, sweep: a sweep moves identifiers from the table to the
/// queue, but every identifier the pool held it still holds, and no other.
pub proof fn lemma_sweep_preserves_ids(v: PoolView, now: i64, id: usize)
    requires
        v.wf(),
    ensures
        spec_sweep(v, now).holds_id(id) <==> v.holds_id(id),
{
    let sw = spec_sweep(v, now);
    let exp = expired_ids(v.expires, now);
    lemma_live_lookup(v.expires, now, id);
    lemma_expired_ids_lookup(v.expires, now);
    lemma_expired_ids_complete(v.expires, now);
    if v.availables.contains(id) {
        let i = choose|i: int| 0 <= i < v.availables.len() && v.availables[i] == id;
        assert(sw.availables[i] == id);
        assert(sw.availables.contains(id));
    } else {
        match lookup(v.expires, id) {
            None => {},
            Some(e) => {
                if e <= now {
                    lemma_lookup_index(v.expires, id);
                    let j = choose|j: int|
                        0 <= j < v.expires.len() && (#[trigger] v.expires[j]).0 == id;
                    lemma_lookup_at_index(v.expires, j);
                    assert(exp.contains(id));
                    let i = choose|i: int| 0 <= i < exp.len() && exp[i] == id;
                    assert(sw.availables[v.availables.len() + i] == id);
                    assert(sw.availables.contains(id));
                }
            },
        }
    }
    if sw.availables.contains(id) {
        let i = choose|i: int| 0 <= i < sw.availables.len() && sw.availables[i] == id;
        if i < v.availables.len() {
            assert(v.availables[i] == id);
            assert(v.availables.contains(id));
        } else {
            assert(exp[i - v.availables.len()] == id);
        }
    }
}

/// Closed partition, acquisition: issuing a lease moves one identifier from
/// the queue to the table; the set of identifiers the pool holds is
/// unchanged, whether or not the acquisition succeeds.
pub proof fn lemma_acquire_preserves_ids(v: PoolView, now: i64, id: usize)
    requires
        v.wf(),
    ensures
        spec_acquire(v, now).0.holds_id(id) <==> v.holds_id(id),
{
    lemma_sweep_preserves_ids(v, now, id);
    lemma_sweep_wf(v, now);
    let sw = spec_sweep(v, now);
    if sw.availables.len() > 0 {
        let hd = sw.availables[0];
        let exp2 = (now + v.timeout) as i64;
        let next = spec_acquire(v, now).0;
        lemma_insert_lease_lookup(sw.expires, hd, exp2, id);
        if id == hd {
            assert(sw.availables.contains(hd));
        } else {
            if sw.availables.contains(id) {
                let i = choose|i: int| 0 <= i < sw.availables.len() && sw.availables[i] == id;
                assert(next.availables[i - 1] == id);
                assert(next.availables.contains(id));
            }
            if next.availables.contains(id) {
                let i = choose|i: int| 0 <= i < next.availables.len() && next.availables[i] == id;
                assert(sw.availables[i + 1] == id);
                assert(sw.availables.contains(id));
            }
        }
    }
}

/// Closed partition, renewal: a renewal extends a lease in place, and an
/// expiry reclaim moves one identifier from the table to the queue; either
/// way, and also on failure, the set of identifiers the pool holds is
/// unchanged.
pub proof fn lemma_renew_preserves_ids(v: PoolView, id: usize, now: i64, k: usize)
    requires
        v.wf(),
    ensures
        spec_renew(v, id, now).0.holds_id(k) <==> v.holds_id(k),
{
    let next = spec_renew(v, id, now).0;
    match lookup(v.expires, id) {
        None => {},
        Some(e) => {
            if e > now {
                lemma_insert_lease_lookup(v.expires, id, (now + v.timeout) as i64, k);
            } else {
                lemma_remove_lease_lookup(v.expires, id, k);
                if k == id {
                    assert(next.availables[next.availables.len() - 1] == id);
                    assert(next.availables.contains(id));
                } else {
                    if v.availables.contains(k) {
                        let i = choose|i: int|
                            0 <= i < v.availables.len() && v.availables[i] == k;
                        assert(next.availables[i] == k);
                        assert(next.availables.contains(k));
                    }
                    if next.availables.contains(k) {
                        let i = choose|i: int|
                            0 <= i < next.availables.len() && next.availables[i] == k;
                        assert(i < v.availables.len());
                        assert(v.availables[i] == k);
                        assert(v.availables.contains(k));
                    }
                }
            }
        },
    }
}

impl Pool {
    /// A fresh pool: every identifier of `[min, max]` available, in ascending
    /// order, and no lease active.
    pub fn new(min: usize, max: usize, timeout: i64) -> (p: Pool)
        requires
            timeout >= 0,
            max < usize::MAX,
        ensures
            p@.wf(),
            p@.timeout == timeout,
            p@.expires == Seq::<(usize, i64)>::empty(),
            p@.availables.len() == if min <= max {
                max - min + 1
            } else {
                0
            },
            forall|k: int| 0 <= k < p@.availables.len() ==> p@.availables[k] == min + k,
    {
        let mut availables: Vec<usize> = Vec::new();
        if min <= max {
            let mut i: usize = min;
            while i <= max
                invariant
                    min <= i <= max + 1,
                    max < usize::MAX,
                    availables@.len() == i - min,
                    forall|k: int| 0 <= k < availables@.len() ==> availables@[k] == min + k,
                decreases max + 1 - i,
            {
                availables.push(i);
                i = i + 1;
            }
        }
        let p = Pool { timeout, expires: Vec::new(), availables };
        proof {
            assert(p@.expires =~= Seq::<(usize, i64)>::empty());
        }
        p
    }
}

} // verus!
