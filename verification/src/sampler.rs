//! Weighted random selection over the sticker counters kept in the store.
//!
//! Every key under the `sticker_` namespace except the running total is a
//! counter.  Selection sorts the counters ascending by count, draws a
//! target below the recorded total, and walks the cumulative sum until it
//! first exceeds the target; the probability of a key is proportional to
//! its counter whenever the recorded total matches the true sum.  Only
//! the target draw is random: given the records and a target, selection
//! is a pure function.

use crate::state::counter_of;
use crate::state::State;
use crate::strutil::is_prefix;
use crate::strutil::parse_i64_spec;
use crate::strutil::str_eq;
use crate::strutil::has_prefix;
use vstd::prelude::*;

verus! {

/// The namespace every counter key lives under.
pub open spec fn sticker_prefix() -> Seq<char> {
    "sticker_"@
}

/// The key of the separately tracked total.
pub open spec fn total_key() -> Seq<char> {
    "sticker_total"@
}

/// A counter entry: inside the namespace, and not the total itself.
pub open spec fn is_sticker_entry(e: (Seq<char>, Seq<char>)) -> bool {
    is_prefix(sticker_prefix(), e.0) && e.0 != total_key()
}

/// The count a recorded value stands for: its integer reading, floored
/// at zero so an unparseable or negative value never weighs anything.
pub open spec fn clamp_count(v: Seq<char>) -> i64 {
    match parse_i64_spec(v) {
        Some(n) => if n > 0 {
            n
        } else {
            0
        },
        None => 0,
    }
}

/// The record an entry contributes: its key with the namespace stripped,
/// and its count.
pub open spec fn record_of(e: (Seq<char>, Seq<char>)) -> (Seq<char>, i64) {
    (e.0.skip(sticker_prefix().len() as int), clamp_count(e.1))
}

/// The counter records among the entries, in entry order.
pub open spec fn sticker_records(es: Seq<(Seq<char>, Seq<char>)>) -> Seq<(Seq<char>, i64)>
    decreases es.len(),
{
    if es.len() == 0 {
        Seq::empty()
    } else if is_sticker_entry(es[0]) {
        seq![record_of(es[0])] + sticker_records(es.drop_first())
    } else {
        sticker_records(es.drop_first())
    }
}

/// Record extraction distributes over concatenation.
pub proof fn lemma_sticker_records_concat(
    a: Seq<(Seq<char>, Seq<char>)>,
    b: Seq<(Seq<char>, Seq<char>)>,
)
    ensures
        sticker_records(a + b) == sticker_records(a) + sticker_records(b),
    decreases a.len(),
{
    if a.len() == 0 {
        assert(a + b =~= b);
        assert(sticker_records(a) + sticker_records(b) =~= sticker_records(b));
    } else {
        lemma_sticker_records_concat(a.drop_first(), b);
        assert((a + b).drop_first() =~= a.drop_first() + b);
        assert((a + b)[0] == a[0]);
        assert(sticker_records(a + b) =~= sticker_records(a) + sticker_records(b));
    }
}

/// What one entry contributes.
pub proof fn lemma_sticker_records_single(e: (Seq<char>, Seq<char>))
    ensures
        sticker_records(seq![e]) == (if is_sticker_entry(e) {
            seq![record_of(e)]
        } else {
            Seq::<(Seq<char>, i64)>::empty()
        }),
{
    assert(seq![e].drop_first() =~= Seq::<(Seq<char>, Seq<char>)>::empty());
    assert(sticker_records(Seq::<(Seq<char>, Seq<char>)>::empty()) =~= Seq::<(
        Seq<char>,
        i64,
    )>::empty());
    if is_sticker_entry(e) {
        assert(sticker_records(seq![e]) =~= seq![record_of(e)]);
    }
}

/// A record placed before the first strictly larger count; equal counts
/// keep the earlier record first.
pub open spec fn insert_by_count(e: (Seq<char>, i64), s: Seq<(Seq<char>, i64)>) -> Seq<
    (Seq<char>, i64),
>
    decreases s.len(),
{
    if s.len() == 0 {
        seq![e]
    } else if e.1 < s[0].1 {
        seq![e] + s
    } else {
        seq![s[0]] + insert_by_count(e, s.drop_first())
    }
}

/// The records sorted ascending by count, stably: ties keep entry order.
pub open spec fn sort_by_count(s: Seq<(Seq<char>, i64)>) -> Seq<(Seq<char>, i64)>
    decreases s.len(),
{
    if s.len() == 0 {
        s
    } else {
        insert_by_count(s.last(), sort_by_count(s.drop_last()))
    }
}

/// The first record whose cumulative count, starting from `acc`,
/// strictly exceeds the target.
pub open spec fn pick_record(s: Seq<(Seq<char>, i64)>, target: i64, acc: int) -> Option<Seq<char>>
    decreases s.len(),
{
    if s.len() == 0 {
        None
    } else if acc + s[0].1 > target {
        Some(s[0].0)
    } else {
        pick_record(s.drop_first(), target, acc + s[0].1)
    }
}

/// What selection yields on the store's entries for a given target.
pub open spec fn select_sticker(es: Seq<(Seq<char>, Seq<char>)>, target: i64) -> Option<Seq<char>> {
    pick_record(sort_by_count(sticker_records(es)), target, 0)
}

/// An option's contents as a character sequence.
pub open spec fn view_opt(r: Option<String>) -> Option<Seq<char>> {
    match r {
        Some(s) => Some(s@),
        None => None,
    }
}

/// Every record's count is nonnegative.
pub open spec fn counts_nonneg(s: Seq<(Seq<char>, i64)>) -> bool {
    forall|i: int| 0 <= i < s.len() ==> s[i].1 >= 0
}

/// Extracted records only carry nonnegative counts.
pub proof fn lemma_records_nonneg(es: Seq<(Seq<char>, Seq<char>)>)
    ensures
        counts_nonneg(sticker_records(es)),
    decreases es.len(),
{
    if es.len() > 0 {
        lemma_records_nonneg(es.drop_first());
        if is_sticker_entry(es[0]) {
            assert forall|i: int|
                0 <= i < sticker_records(es).len() implies sticker_records(es)[i].1 >= 0 by {
                if i > 0 {
                    assert(sticker_records(es)[i] == sticker_records(es.drop_first())[i - 1]);
                }
            }
        }
    }
}

/// Insertion keeps counts nonnegative.
pub proof fn lemma_insert_nonneg(e: (Seq<char>, i64), s: Seq<(Seq<char>, i64)>)
    requires
        e.1 >= 0,
        counts_nonneg(s),
    ensures
        counts_nonneg(insert_by_count(e, s)),
    decreases s.len(),
{
    if s.len() == 0 {
    } else if e.1 < s[0].1 {
        assert forall|i: int|
            0 <= i < insert_by_count(e, s).len() implies insert_by_count(e, s)[i].1 >= 0 by {
            if i > 0 {
                assert(insert_by_count(e, s)[i] == s[i - 1]);
            }
        }
    } else {
        assert(counts_nonneg(s.drop_first())) by {
            assert forall|i: int| 0 <= i < s.drop_first().len() implies s.drop_first()[i].1
                >= 0 by {
                assert(s.drop_first()[i] == s[i + 1]);
            }
        }
        lemma_insert_nonneg(e, s.drop_first());
        assert forall|i: int|
            0 <= i < insert_by_count(e, s).len() implies insert_by_count(e, s)[i].1 >= 0 by {
            if i > 0 {
                assert(insert_by_count(e, s)[i] == insert_by_count(e, s.drop_first())[i - 1]);
            }
        }
    }
}

/// Sorting keeps counts nonnegative.
pub proof fn lemma_sort_nonneg(s: Seq<(Seq<char>, i64)>)
    requires
        counts_nonneg(s),
    ensures
        counts_nonneg(sort_by_count(s)),
    decreases s.len(),
{
    if s.len() > 0 {
        assert(counts_nonneg(s.drop_last())) by {
            assert forall|i: int| 0 <= i < s.drop_last().len() implies s.drop_last()[i].1 >= 0 by {
                assert(s.drop_last()[i] == s[i]);
            }
        }
        lemma_sort_nonneg(s.drop_last());
        lemma_insert_nonneg(s.last(), sort_by_count(s.drop_last()));
    }
}

/// The view of a record list.
pub open spec fn records_view(s: Seq<(String, i64)>) -> Seq<(Seq<char>, i64)> {
    s.map_values(|p: (String, i64)| (p.0@, p.1))
}

/// Collects the counter records of the store, in entry order.
fn collect_records(state: &State) -> (r: Vec<(String, i64)>)
    requires
        state.wf(),
    ensures
        records_view(r@) == sticker_records(state.entries()),
{
    let ghost es = state.entries();
    let keys = state.keys();
    let mut out: Vec<(String, i64)> = Vec::new();
    let mut i: usize = 0;
    proof {
        assert(keys@.map_values(|s: String| s@).len() == keys@.len());
        assert(crate::state::keys_of(es).len() == es.len());
        assert(es.take(0) =~= Seq::<(Seq<char>, Seq<char>)>::empty());
        assert(records_view(out@) =~= Seq::<(Seq<char>, i64)>::empty());
        assert(sticker_records(es.take(0)) =~= Seq::<(Seq<char>, i64)>::empty());
    }
    while i < keys.len()
        invariant
            state.wf(),
            es == state.entries(),
            keys@.map_values(|s: String| s@) == crate::state::keys_of(es),
            keys@.len() == es.len(),
            i <= keys@.len(),
            records_view(out@) == sticker_records(es.take(i as int)),
        decreases keys.len() - i,
    {
        let ghost pre = out@;
        proof {
            assert(keys@.map_values(|s: String| s@)[i as int] == crate::state::keys_of(es)[
                i as int
            ]);
            assert(keys@[i as int]@ == es[i as int].0);
            assert(es.take(i as int + 1) =~= es.take(i as int) + seq![es[i as int]]);
            lemma_sticker_records_concat(es.take(i as int), seq![es[i as int]]);
            lemma_sticker_records_single(es[i as int]);
        }
        let key = &keys[i];
        if has_prefix(key.as_str(), "sticker_") && !str_eq(key.as_str(), "sticker_total") {
            proof {
                assert(is_sticker_entry(es[i as int]));
                assert forall|j: int| 0 <= j < i implies es[j].0 != es[i as int].0 by {}
                crate::state::lemma_lookup_at(es, es[i as int].0, i as int);
                reveal_strlit("sticker_");
            }
            let n = key.unicode_len();
            let stripped = key.as_str().substring_char(8, n);
            let count = match state.get_i64(key.as_str()) {
                Some(c) => if c > 0 {
                    c
                } else {
                    0
                },
                None => 0,
            };
            out.push((String::from_str(stripped), count));
            proof {
                assert(stripped@ =~= es[i as int].0.skip(sticker_prefix().len() as int));
                assert(count == clamp_count(es[i as int].1));
                assert(records_view(out@) =~= records_view(pre) + seq![record_of(es[i as int])]);
            }
        } else {
            proof {
                assert(!is_sticker_entry(es[i as int]));
                assert(records_view(out@) =~= sticker_records(es.take(i as int + 1)));
            }
        }
        i = i + 1;
    }
    proof {
        assert(es.take(es.len() as int) =~= es);
    }
    out
}

/// Inserts a record before the first strictly larger count.
fn insert_record(out: &mut Vec<(String, i64)>, e: (String, i64))
    ensures
        records_view(final(out)@) == insert_by_count(
            (e.0@, e.1),
            records_view(old(out)@),
        ),
{
    let ghost sv = records_view(out@);
    let ghost ev = (e.0@, e.1);
    let cnt = e.1;
    let mut j: usize = 0;
    while j < out.len() && out[j].1 <= cnt
        invariant
            sv == records_view(out@),
            out@.len() == sv.len(),
            j <= sv.len(),
            cnt == e.1,
            forall|k: int| 0 <= k < j ==> sv[k].1 <= e.1,
        decreases out.len() - j,
    {
        proof {
            assert(sv[j as int] == (out@[j as int].0@, out@[j as int].1));
        }
        j = j + 1;
    }
    proof {
        if j < sv.len() {
            assert(sv[j as int] == (out@[j as int].0@, out@[j as int].1));
        }
        lemma_insert_at(ev, sv, j as int);
    }
    out.insert(j, e);
    proof {
        assert(records_view(out@) =~= sv.take(j as int) + seq![ev] + sv.skip(j as int));
    }
}

/// Walking past `j` smaller-or-equal counts, insertion lands at `j`.
proof fn lemma_insert_at(e: (Seq<char>, i64), s: Seq<(Seq<char>, i64)>, j: int)
    requires
        0 <= j <= s.len(),
        forall|k: int| 0 <= k < j ==> s[k].1 <= e.1,
        j < s.len() ==> e.1 < s[j].1,
    ensures
        insert_by_count(e, s) == s.take(j) + seq![e] + s.skip(j),
    decreases j,
{
    if s.len() == 0 {
        assert(insert_by_count(e, s) =~= s.take(j) + seq![e] + s.skip(j));
    } else if j == 0 {
        assert(e.1 < s[0].1);
        assert(insert_by_count(e, s) =~= s.take(0) + seq![e] + s.skip(0));
    } else {
        assert(s[0].1 <= e.1);
        assert forall|k: int| 0 <= k < j - 1 implies s.drop_first()[k].1 <= e.1 by {
            assert(s.drop_first()[k] == s[k + 1]);
        }
        assert(j - 1 < s.drop_first().len() ==> e.1 < s.drop_first()[j - 1].1);
        lemma_insert_at(e, s.drop_first(), j - 1);
        assert(insert_by_count(e, s) =~= s.take(j) + seq![e] + s.skip(j));
    }
}

/// Sorts the records ascending by count, stably.
fn sort_records(rs: Vec<(String, i64)>) -> (r: Vec<(String, i64)>)
    ensures
        records_view(r@) == sort_by_count(records_view(rs@)),
{
    let ghost input = records_view(rs@);
    let mut out: Vec<(String, i64)> = Vec::new();
    let mut rest = rs;
    let ghost n = input.len();
    let mut i: usize = 0;
    proof {
        assert(records_view(rest@) == input);
    }
    while i < rest.len()
        invariant
            records_view(rest@) == input,
            rest@.len() == input.len(),
            i <= input.len(),
            records_view(out@) == sort_by_count(input.take(i as int)),
        decreases rest.len() - i,
    {
        proof {
            assert(input[i as int] == (rest@[i as int].0@, rest@[i as int].1));
            assert(input.take(i as int + 1).drop_last() =~= input.take(i as int));
            assert(input.take(i as int + 1).last() == input[i as int]);
        }
        let id = rest[i].0.clone();
        let cnt = rest[i].1;
        proof {
            assert((id@, cnt) == input[i as int]);
        }
        insert_record(&mut out, (id, cnt));
        i = i + 1;
    }
    proof {
        assert(input.take(n as int) =~= input);
    }
    out
}

/// Walks the sorted records, accumulating counts, and returns the first
/// key whose cumulative count exceeds the target.
fn pick_from(records: &Vec<(String, i64)>, target: i64) -> (r: Option<String>)
    requires
        counts_nonneg(records_view(records@)),
    ensures
        view_opt(r) == pick_record(records_view(records@), target, 0),
{
    let ghost sv = records_view(records@);
    let mut acc: i64 = 0;
    let mut i: usize = 0;
    proof {
        assert(sv.skip(0) =~= sv);
    }
    while i < records.len()
        invariant
            sv == records_view(records@),
            records@.len() == sv.len(),
            counts_nonneg(sv),
            i <= sv.len(),
            acc >= 0,
            pick_record(sv, target, 0) == pick_record(sv.skip(i as int), target, acc as int),
            acc as int <= (if target >= 0 { target as int } else { 0 }),
        decreases records.len() - i,
    {
        proof {
            assert(sv[i as int] == (records@[i as int].0@, records@[i as int].1));
            assert(sv.skip(i as int)[0] == sv[i as int]);
            assert(sv.skip(i as int).drop_first() =~= sv.skip(i as int + 1));
        }
        let cnt = records[i].1;
        let wide: i128 = acc as i128 + cnt as i128;
        if wide > target as i128 {
            let key = records[i].0.clone();
            return Some(key);
        }
        acc = wide as i64;
        i = i + 1;
    }
    proof {
        assert(sv.skip(sv.len() as int).len() == 0);
    }
    None
}

/// Relies on `rand::random_range`: a uniform draw from `[0, n)` by the
/// thread-local generator; the range must be non-empty.
#[verifier::external_body]
fn random_below(n: i64) -> (r: i64)
    requires
        n > 0,
    ensures
        0 <= r < n,
{
    rand::random_range(0..n)
}

/// Deterministic selection: the choice [`select_sticker`] makes on the
/// store's counters for an explicitly supplied target.
pub fn random_sticker_with(state: &State, target: i64) -> (r: Option<String>)
    requires
        state.wf(),
    ensures
        view_opt(r) == select_sticker(state.entries(), target),
{
    let records = collect_records(state);
    proof {
        lemma_records_nonneg(state.entries());
        lemma_sort_nonneg(sticker_records(state.entries()));
    }
    let sorted = sort_records(records);
    pick_from(&sorted, target)
}

/// Chooses a sticker with probability proportional to its counter: draws
/// a target below the recorded total and selects deterministically from
/// it.  Absent whenever no total has been recorded, and absent rather
/// than failing when the counters do not add up to the total.
pub fn random_sticker(state: &State) -> (r: Option<String>)
    requires
        state.wf(),
    ensures
        counter_of(state.entries(), total_key()) <= 0 ==> r is None,
        counter_of(state.entries(), total_key()) > 0 ==> exists|t: i64|
            0 <= t < counter_of(state.entries(), total_key()) && view_opt(r) == select_sticker(
                state.entries(),
                t,
            ),
{
    let total = match state.get_i64("sticker_total") {
        Some(n) => n,
        None => 0,
    };
    proof {
        assert("sticker_total"@ == total_key());
    }
    if total <= 0 {
        return None;
    }
    let target = random_below(total);
    let r = random_sticker_with(state, target);
    proof {
        assert(0 <= target < counter_of(state.entries(), total_key()) && view_opt(r)
            == select_sticker(state.entries(), target));
    }
    r
}

} // verus!
