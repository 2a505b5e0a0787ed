//! The polling cycle: one long-poll fetch per cycle, the offset cursor,
//! and the order in which a fetched batch is handed to subscribers.
//!
//! The host performs the fetch itself and hands the decoded outcome to
//! [`Poller::apply_fetch`], which sorts the batch into ascending id order
//! and claims it by advancing the cursor before dispatch begins.  A
//! transient fetch failure is treated exactly like an empty batch: the
//! cycle is a no-op and the loop carries on.

use crate::api::ApiResult;
use crate::api::Update;
use vstd::multiset::Multiset;
use vstd::prelude::*;

verus! {

broadcast use vstd::seq_lib::group_to_multiset_ensures;

/// Ids never decrease along the sequence.
pub open spec fn sorted_by_id(s: Seq<Update>) -> bool {
    forall|i: int, j: int| 0 <= i < j < s.len() ==> s[i].update_id <= s[j].update_id
}

/// No two events share an id.
pub open spec fn distinct_ids(s: Seq<Update>) -> bool {
    forall|i: int, j: int| 0 <= i < j < s.len() ==> s[i].update_id != s[j].update_id
}

/// Ids strictly increase along the sequence.
pub open spec fn strictly_ascending(s: Seq<Update>) -> bool {
    forall|i: int, j: int| 0 <= i < j < s.len() ==> s[i].update_id < s[j].update_id
}

/// `m` is the id of some event, and no event's id exceeds it.
pub open spec fn is_max_id(m: i64, s: Seq<Update>) -> bool {
    &&& exists|i: int| 0 <= i < s.len() && s[i].update_id == m
    &&& forall|i: int| 0 <= i < s.len() ==> s[i].update_id <= m
}

/// The cursor after claiming a batch whose largest id is `m`.
pub open spec fn advanced_offset(m: i64) -> i64 {
    if m < i64::MAX {
        (m + 1) as i64
    } else {
        i64::MAX
    }
}

/// What one fetch produced: a decoded payload, or a transient failure.
pub enum FetchOutcome {
    Success(ApiResult),
    Failure,
}

/// Rearranging a sequence preserves id distinctness.
pub proof fn lemma_distinct_ids_preserved(a: Seq<Update>, b: Seq<Update>)
    requires
        a.to_multiset() == b.to_multiset(),
        distinct_ids(a),
    ensures
        distinct_ids(b),
{
    assert forall|i: int, j: int|
        0 <= i < j < b.len() implies b[i].update_id != b[j].update_id by {
        if b[i] == b[j] {
            assert(b.remove(j).to_multiset() == b.to_multiset().remove(b[j]));
            assert(b.remove(j)[i] == b[i]);
            assert(b.remove(j).contains(b[i]));
            assert(b.remove(j).to_multiset().count(b[i]) > 0);
            assert(b.to_multiset().count(b[i]) >= 2);
            assert(a.to_multiset().count(b[i]) >= 2);
            assert(a.contains(b[i]));
            let p1 = choose|p: int| 0 <= p < a.len() && a[p] == b[i];
            assert(a.remove(p1).to_multiset() == a.to_multiset().remove(a[p1]));
            assert(a.remove(p1).to_multiset().count(b[i]) >= 1);
            assert(a.remove(p1).contains(b[i]));
            let q = choose|q: int| 0 <= q < a.remove(p1).len() && a.remove(p1)[q] == b[i];
            let p2 = if q < p1 {
                q
            } else {
                q + 1
            };
            assert(a[p2] == a.remove(p1)[q]);
            assert(p1 != p2);
            assert(a[p1].update_id == a[p2].update_id);
        } else {
            assert(b.contains(b[i]));
            assert(b.to_multiset().count(b[i]) > 0);
            assert(a.to_multiset().count(b[i]) > 0);
            assert(a.contains(b[i]));
            assert(b.contains(b[j]));
            assert(b.to_multiset().count(b[j]) > 0);
            assert(a.to_multiset().count(b[j]) > 0);
            assert(a.contains(b[j]));
            let p1 = choose|p: int| 0 <= p < a.len() && a[p] == b[i];
            let p2 = choose|p: int| 0 <= p < a.len() && a[p] == b[j];
            assert(p1 != p2);
            assert(a[p1].update_id == b[i].update_id);
        }
    }
}

/// The last event of a sorted rearrangement carries the batch's maximum id.
pub proof fn lemma_sorted_last_is_max(v: Seq<Update>, r: Seq<Update>)
    requires
        r.to_multiset() == v.to_multiset(),
        r.len() == v.len(),
        sorted_by_id(r),
        v.len() > 0,
    ensures
        is_max_id(r.last().update_id, v),
{
    assert(r.contains(r.last()));
    assert(r.to_multiset().count(r.last()) > 0);
    assert(v.contains(r.last()));
    let w = choose|i: int| 0 <= i < v.len() && v[i] == r.last();
    assert(v[w].update_id == r.last().update_id);
    assert forall|i: int| 0 <= i < v.len() implies v[i].update_id <= r.last().update_id by {
        assert(v.contains(v[i]));
        assert(v.to_multiset().count(v[i]) > 0);
        assert(r.contains(v[i]));
        let p = choose|p: int| 0 <= p < r.len() && r[p] == v[i];
        assert(r[p].update_id <= r.last().update_id);
    }
}

/// Sorts a batch into ascending id order; the result is a rearrangement
/// of the input.
pub fn sort_updates(batch: Vec<Update>) -> (r: Vec<Update>)
    ensures
        r@.len() == batch@.len(),
        r@.to_multiset() == batch@.to_multiset(),
        sorted_by_id(r@),
{
    let mut rest = batch;
    let ghost input = rest@;
    let mut out: Vec<Update> = Vec::new();
    while rest.len() > 0
        invariant
            out@.to_multiset().add(rest@.to_multiset()) == input.to_multiset(),
            out@.len() + rest@.len() == input.len(),
            sorted_by_id(out@),
            forall|i: int, j: int|
                0 <= i < out@.len() && 0 <= j < rest@.len() ==> out@[i].update_id
                    <= rest@[j].update_id,
        decreases rest.len(),
    {
        let mut min: usize = 0;
        let mut i: usize = 1;
        while i < rest.len()
            invariant
                min < rest@.len(),
                i <= rest@.len(),
                rest@.len() > 0,
                forall|j: int| 0 <= j < i ==> rest@[min as int].update_id <= rest@[j].update_id,
            decreases rest.len() - i,
        {
            if rest[i].update_id < rest[min].update_id {
                min = i;
            }
            i = i + 1;
        }
        let ghost pre_out = out@;
        let ghost pre_rest = rest@;
        let x = rest.remove(min);
        out.push(x);
        proof {
            assert(rest@ == pre_rest.remove(min as int));
            assert(pre_rest.remove(min as int).to_multiset() == pre_rest.to_multiset().remove(
                pre_rest[min as int],
            ));
            assert(out@ == pre_out.push(x));
            assert(pre_out.push(x).to_multiset() == pre_out.to_multiset().insert(x));
            assert(out@.to_multiset().add(rest@.to_multiset()) =~= input.to_multiset());
            assert forall|i2: int, j2: int|
                0 <= i2 < j2 < out@.len() implies out@[i2].update_id <= out@[j2].update_id by {
                if j2 < out@.len() - 1 {
                    assert(out@[i2] == pre_out[i2]);
                    assert(out@[j2] == pre_out[j2]);
                } else {
                    assert(out@[j2] == x);
                }
            }
            assert forall|i2: int, j2: int|
                0 <= i2 < out@.len() && 0 <= j2 < rest@.len() implies out@[i2].update_id
                <= rest@[j2].update_id by {
                assert(rest@[j2] == (if j2 < min { pre_rest[j2] } else { pre_rest[j2 + 1] }));
                if i2 < out@.len() - 1 {
                    assert(out@[i2] == pre_out[i2]);
                } else {
                    assert(out@[i2] == x);
                }
            }
        }
    }
    proof {
        assert(out@.to_multiset().add(rest@.to_multiset()) =~= out@.to_multiset());
        assert(out@.to_multiset() =~= input.to_multiset());
    }
    out
}

/// The delay before the next fetch after a run of consecutive failed
/// cycles: nothing after a success, then doubling from half a second,
/// capped at a minute, so a persistent outage never becomes a hot loop.
pub open spec fn backoff_of(failures: u32) -> u64 {
    if failures == 0 {
        0
    } else if failures == 1 {
        500
    } else if failures == 2 {
        1000
    } else if failures == 3 {
        2000
    } else if failures == 4 {
        4000
    } else if failures == 5 {
        8000
    } else if failures == 6 {
        16000
    } else if failures == 7 {
        32000
    } else {
        60000
    }
}

/// The milliseconds to wait before the next fetch, per [`backoff_of`].
pub fn backoff_delay_ms(failures: u32) -> (r: u64)
    ensures
        r == backoff_of(failures),
{
    if failures == 0 {
        0
    } else if failures == 1 {
        500
    } else if failures == 2 {
        1000
    } else if failures == 3 {
        2000
    } else if failures == 4 {
        4000
    } else if failures == 5 {
        8000
    } else if failures == 6 {
        16000
    } else if failures == 7 {
        32000
    } else {
        60000
    }
}

/// The offset cursor and the cycle-by-cycle fetch bookkeeping.
pub struct Poller {
    last_update: i64,
    failures: u32,
}

impl Poller {
    /// The offset the next fetch must use.
    pub closed spec fn offset(self) -> i64 {
        self.last_update
    }

    /// How many cycles in a row have failed.
    pub closed spec fn failure_count(self) -> u32 {
        self.failures
    }

    /// A fresh cursor, before anything has been claimed.
    pub fn new() -> (r: Poller)
        ensures
            r.offset() == 0,
            r.failure_count() == 0,
    {
        Poller { last_update: 0, failures: 0 }
    }

    /// The offset the next fetch must use.
    pub fn current_offset(&self) -> (r: i64)
        ensures
            r == self.offset(),
    {
        self.last_update
    }

    /// How many cycles in a row have failed, for the backoff delay.
    pub fn consecutive_failures(&self) -> (r: u32)
        ensures
            r == self.failure_count(),
    {
        self.failures
    }

    /// Digests one fetch outcome: sorts a batch of events into ascending
    /// id order and claims it by moving the cursor past the largest id
    /// before dispatch begins.  An empty batch, a transient failure and a
    /// mismatched payload all leave the cursor where it was and produce
    /// nothing to dispatch.
    pub fn apply_fetch(&mut self, outcome: FetchOutcome) -> (batch: Vec<Update>)
        ensures
            match outcome {
                FetchOutcome::Success(ApiResult::Updates(v)) => {
                    &&& batch@.len() == v@.len()
                    &&& batch@.to_multiset() == v@.to_multiset()
                    &&& sorted_by_id(batch@)
                    &&& v@.len() == 0 ==> final(self).offset() == old(self).offset()
                    &&& v@.len() > 0 ==> {
                        &&& is_max_id(batch@.last().update_id, v@)
                        &&& final(self).offset() == advanced_offset(batch@.last().update_id)
                    }
                },
                _ => batch@.len() == 0 && final(self).offset() == old(self).offset(),
            },
            distinct_ids(old_batch_of(outcome)) ==> strictly_ascending(batch@),
            final(self).failure_count() == (match outcome {
                FetchOutcome::Failure => if old(self).failure_count() == u32::MAX {
                    u32::MAX
                } else {
                    (old(self).failure_count() + 1) as u32
                },
                FetchOutcome::Success(_) => 0u32,
            }),
    {
        match outcome {
            FetchOutcome::Success(r) => {
                self.failures = 0;
                match r {
                ApiResult::Updates(v) => {
                    let ghost input = v@;
                    if v.len() == 0 {
                        let empty: Vec<Update> = Vec::new();
                        proof {
                            assert(v@ =~= empty@);
                        }
                        return empty;
                    }
                    let sorted = sort_updates(v);
                    let m = sorted[sorted.len() - 1].update_id;
                    self.last_update = if m < i64::MAX {
                        m + 1
                    } else {
                        i64::MAX
                    };
                    proof {
                        lemma_sorted_last_is_max(input, sorted@);
                        if distinct_ids(input) {
                            lemma_distinct_ids_preserved(input, sorted@);
                        }
                    }
                    sorted
                },
                _ => {
                    let empty: Vec<Update> = Vec::new();
                    empty
                },
            }
            },
            FetchOutcome::Failure => {
                self.failures = if self.failures == u32::MAX {
                    u32::MAX
                } else {
                    self.failures + 1
                };
                let empty: Vec<Update> = Vec::new();
                empty
            },
        }
    }
}

/// The batch inside a fetch outcome, empty for everything else.
pub open spec fn old_batch_of(outcome: FetchOutcome) -> Seq<Update> {
    match outcome {
        FetchOutcome::Success(ApiResult::Updates(v)) => v@,
        _ => Seq::empty(),
    }
}

/// Plan entry `e * n_subs + s` names event `e` and snapshot entry `s`.
pub open spec fn plan_entry_at(r: Seq<(usize, usize)>, n_subs: int, e: int, s: int) -> bool {
    &&& r[e * n_subs + s].0 == e
    &&& r[e * n_subs + s].1 == s
}

/// The order in which one cycle fires its work: for each event of the
/// sorted batch, in batch order, one unit of work per snapshot entry.
/// Entry `e * n_subs + s` of the plan is `(e, s)`.
pub fn dispatch_plan(n_events: usize, n_subs: usize) -> (r: Vec<(usize, usize)>)
    requires
        n_events * n_subs <= usize::MAX,
    ensures
        r@.len() == n_events * n_subs,
        forall|e: int, s: int|
            0 <= e < n_events && 0 <= s < n_subs ==> #[trigger] plan_entry_at(
                r@,
                n_subs as int,
                e,
                s,
            ),
{
    let mut r: Vec<(usize, usize)> = Vec::new();
    let mut e: usize = 0;
    while e < n_events
        invariant
            n_events * n_subs <= usize::MAX,
            e <= n_events,
            r@.len() == e * n_subs,
            forall|e2: int, s2: int|
                0 <= e2 < e && 0 <= s2 < n_subs ==> #[trigger] plan_entry_at(
                    r@,
                    n_subs as int,
                    e2,
                    s2,
                ),
        decreases n_events - e,
    {
        proof {
            assert((e + 1) * n_subs == e * n_subs + n_subs) by (nonlinear_arith);
            assert((e + 1) * n_subs <= n_events * n_subs) by (nonlinear_arith)
                requires
                    e < n_events,
            ;
        }
        let mut s: usize = 0;
        while s < n_subs
            invariant
                n_events * n_subs <= usize::MAX,
                e < n_events,
                s <= n_subs,
                e * n_subs + n_subs <= usize::MAX,
                r@.len() == e * n_subs + s,
                forall|e2: int, s2: int|
                    0 <= e2 < e && 0 <= s2 < n_subs ==> #[trigger] plan_entry_at(
                        r@,
                        n_subs as int,
                        e2,
                        s2,
                    ),
                forall|s2: int|
                    0 <= s2 < s ==> #[trigger] plan_entry_at(r@, n_subs as int, e as int, s2),
            decreases n_subs - s,
        {
            let ghost old_r = r@;
            r.push((e, s));
            proof {
                assert forall|e2: int, s2: int|
                    0 <= e2 < e && 0 <= s2 < n_subs implies #[trigger] plan_entry_at(
                    r@,
                    n_subs as int,
                    e2,
                    s2,
                ) by {
                    assert(0 <= e2 * n_subs + s2 < e * n_subs) by (nonlinear_arith)
                        requires
                            0 <= e2 < e,
                            0 <= s2 < n_subs,
                    ;
                    assert(plan_entry_at(old_r, n_subs as int, e2, s2));
                    assert(r@[e2 * n_subs + s2] == old_r[e2 * n_subs + s2]);
                }
                assert forall|s2: int|
                    0 <= s2 < s + 1 implies #[trigger] plan_entry_at(
                    r@,
                    n_subs as int,
                    e as int,
                    s2,
                ) by {
                    if s2 < s {
                        assert(plan_entry_at(old_r, n_subs as int, e as int, s2));
                        assert(r@[e * n_subs + s2] == old_r[e * n_subs + s2]);
                    } else {
                        assert(r@[e * n_subs + s2] == (e, s));
                    }
                }
            }
            s = s + 1;
        }
        e = e + 1;
    }
    r
}

/// Ordering: a batch of events with distinct ids, fetched in any order,
/// is observed by every subscriber in strictly ascending id order.  Any
/// two plan entries for the same subscriber deliver events whose ids
/// strictly increase with plan position.
pub proof fn law_dispatch_ordering(
    v: Seq<Update>,
    batch: Seq<Update>,
    plan: Seq<(usize, usize)>,
    n_subs: int,
)
    requires
        batch.to_multiset() == v.to_multiset(),
        batch.len() == v.len(),
        sorted_by_id(batch),
        distinct_ids(v),
        0 <= n_subs <= usize::MAX,
        batch.len() <= usize::MAX,
        plan.len() == batch.len() * n_subs,
        forall|e: int, s: int|
            0 <= e < batch.len() && 0 <= s < n_subs ==> #[trigger] plan_entry_at(plan, n_subs, e, s),
    ensures
        forall|k1: int, k2: int|
            0 <= k1 < k2 < plan.len() && plan[k1].1 == plan[k2].1
                ==> batch[plan[k1].0 as int].update_id < batch[plan[k2].0 as int].update_id,
{
    lemma_distinct_ids_preserved(v, batch);
    assert forall|k1: int, k2: int|
        0 <= k1 < k2 < plan.len() && plan[k1].1 == plan[k2].1 implies batch[plan[k1].0 as int].update_id
        < batch[plan[k2].0 as int].update_id by {
        assert(n_subs > 0) by (nonlinear_arith)
            requires
                0 <= k1 < plan.len(),
                plan.len() == batch.len() * n_subs,
                n_subs >= 0,
        ;
        let e1 = k1 / n_subs;
        let s1 = k1 % n_subs;
        let e2 = k2 / n_subs;
        let s2 = k2 % n_subs;
        assert(k1 == e1 * n_subs + s1 && 0 <= s1 < n_subs && 0 <= e1) by (nonlinear_arith)
            requires
                n_subs > 0,
                e1 == k1 / n_subs,
                s1 == k1 % n_subs,
                k1 >= 0,
        ;
        assert(k2 == e2 * n_subs + s2 && 0 <= s2 < n_subs && 0 <= e2) by (nonlinear_arith)
            requires
                n_subs > 0,
                e2 == k2 / n_subs,
                s2 == k2 % n_subs,
                k2 >= 0,
        ;
        assert(e1 < batch.len()) by (nonlinear_arith)
            requires
                k1 == e1 * n_subs + s1,
                0 <= s1 < n_subs,
                k1 < batch.len() * n_subs,
                n_subs > 0,
        ;
        assert(e2 < batch.len()) by (nonlinear_arith)
            requires
                k2 == e2 * n_subs + s2,
                0 <= s2 < n_subs,
                k2 < batch.len() * n_subs,
                n_subs > 0,
        ;
        assert(plan_entry_at(plan, n_subs, e1, s1));
        assert(plan_entry_at(plan, n_subs, e2, s2));
        assert(plan[k1].0 == e1 && plan[k1].1 == s1);
        assert(plan[k2].0 == e2 && plan[k2].1 == s2);
        assert(s1 == s2);
        assert(e1 < e2) by (nonlinear_arith)
            requires
                k1 < k2,
                k1 == e1 * n_subs + s1,
                k2 == e2 * n_subs + s2,
                s1 == s2,
                0 <= s1 < n_subs,
                n_subs > 0,
        ;
        assert(batch[e1].update_id < batch[e2].update_id);
    }
}

} // verus!
