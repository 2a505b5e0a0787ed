//! The durable key-value store: an in-memory mapping from string keys to
//! string-encoded scalar values, a dirty-write counter, and a coalesced,
//! single-flight save policy.
//!
//! The store itself never touches the disk.  `load` is handed the backing
//! file's contents, and `save` / `save_if_needed` hand back the snapshot
//! text to be written; the host performs the reads and writes and reports
//! completion through `save_completed`.  While a save is pending no second
//! snapshot is issued.

use crate::codec::entries_view;
use crate::codec::parse_entries;
use crate::codec::parse_map;
use crate::codec::ser_map;
use crate::codec::serialize_entries;
use crate::strutil::parse_i64;
use crate::strutil::parse_i64_spec;
use crate::strutil::str_eq;
use vstd::prelude::*;

verus! {

/// How many dirty writes accumulate before `save_if_needed` issues a save.
pub const SAVE_THRESHOLD: u64 = 10;

// ---------------------------------------------------------------------------
// The mathematical model: a sequence of key-value entries.
// ---------------------------------------------------------------------------

/// The value recorded for `k`, reading entries front to back.
pub open spec fn lookup(es: Seq<(Seq<char>, Seq<char>)>, k: Seq<char>) -> Option<Seq<char>>
    decreases es.len(),
{
    if es.len() == 0 {
        None
    } else if es[0].0 == k {
        Some(es[0].1)
    } else {
        lookup(es.drop_first(), k)
    }
}

/// The entries after an upsert of `k` to `v`: an existing entry for `k`
/// keeps its place, a new key is appended.
pub open spec fn put_entries(
    es: Seq<(Seq<char>, Seq<char>)>,
    k: Seq<char>,
    v: Seq<char>,
) -> Seq<(Seq<char>, Seq<char>)>
    decreases es.len(),
{
    if es.len() == 0 {
        seq![(k, v)]
    } else if es[0].0 == k {
        seq![(k, v)] + es.drop_first()
    } else {
        seq![es[0]] + put_entries(es.drop_first(), k, v)
    }
}

/// No key occurs twice.
pub open spec fn distinct_keys(es: Seq<(Seq<char>, Seq<char>)>) -> bool {
    forall|i: int, j: int| 0 <= i < j < es.len() ==> es[i].0 != es[j].0
}

/// The keys, in entry order.
pub open spec fn keys_of(es: Seq<(Seq<char>, Seq<char>)>) -> Seq<Seq<char>> {
    es.map_values(|p: (Seq<char>, Seq<char>)| p.0)
}

/// The counter a handler reads from `k`: the recorded value when it
/// parses as a 64-bit integer, zero otherwise.
pub open spec fn counter_of(es: Seq<(Seq<char>, Seq<char>)>, k: Seq<char>) -> i64 {
    match lookup(es, k) {
        Some(v) => match parse_i64_spec(v) {
            Some(n) => n,
            None => 0,
        },
        None => 0,
    }
}

/// If `k` first occurs at `i`, lookup returns that entry's value.
pub proof fn lemma_lookup_at(es: Seq<(Seq<char>, Seq<char>)>, k: Seq<char>, i: int)
    requires
        0 <= i < es.len(),
        es[i].0 == k,
        forall|j: int| 0 <= j < i ==> es[j].0 != k,
    ensures
        lookup(es, k) == Some(es[i].1),
    decreases i,
{
    if i > 0 {
        lemma_lookup_at(es.drop_first(), k, i - 1);
    }
}

/// If `k` occurs nowhere, lookup returns nothing.
pub proof fn lemma_lookup_absent(es: Seq<(Seq<char>, Seq<char>)>, k: Seq<char>)
    requires
        forall|j: int| 0 <= j < es.len() ==> es[j].0 != k,
    ensures
        lookup(es, k) is None,
    decreases es.len(),
{
    if es.len() > 0 {
        lemma_lookup_absent(es.drop_first(), k);
    }
}

/// An upsert of a key first occurring at `i` is an update in place.
pub proof fn lemma_put_entries_update(
    es: Seq<(Seq<char>, Seq<char>)>,
    k: Seq<char>,
    v: Seq<char>,
    i: int,
)
    requires
        0 <= i < es.len(),
        es[i].0 == k,
        forall|j: int| 0 <= j < i ==> es[j].0 != k,
    ensures
        put_entries(es, k, v) == es.update(i, (k, v)),
    decreases i,
{
    if i == 0 {
        assert(put_entries(es, k, v) =~= es.update(0, (k, v)));
    } else {
        lemma_put_entries_update(es.drop_first(), k, v, i - 1);
        assert(put_entries(es, k, v) =~= es.update(i, (k, v)));
    }
}

/// An upsert of an absent key is an append.
pub proof fn lemma_put_entries_append(es: Seq<(Seq<char>, Seq<char>)>, k: Seq<char>, v: Seq<char>)
    requires
        forall|j: int| 0 <= j < es.len() ==> es[j].0 != k,
    ensures
        put_entries(es, k, v) == es.push((k, v)),
    decreases es.len(),
{
    if es.len() == 0 {
        assert(put_entries(es, k, v) =~= es.push((k, v)));
    } else {
        lemma_put_entries_append(es.drop_first(), k, v);
        assert(put_entries(es, k, v) =~= es.push((k, v)));
    }
}

/// After an upsert, the written key reads back as the written value.
pub proof fn lemma_lookup_put_same(es: Seq<(Seq<char>, Seq<char>)>, k: Seq<char>, v: Seq<char>)
    ensures
        lookup(put_entries(es, k, v), k) == Some(v),
    decreases es.len(),
{
    if es.len() == 0 {
    } else if es[0].0 == k {
        assert((seq![(k, v)] + es.drop_first()).drop_first() =~= es.drop_first());
    } else {
        lemma_lookup_put_same(es.drop_first(), k, v);
        assert((seq![es[0]] + put_entries(es.drop_first(), k, v)).drop_first() =~= put_entries(
            es.drop_first(),
            k,
            v,
        ));
    }
}

/// An upsert leaves every other key's reading unchanged.
pub proof fn lemma_lookup_put_other(
    es: Seq<(Seq<char>, Seq<char>)>,
    k: Seq<char>,
    v: Seq<char>,
    k2: Seq<char>,
)
    requires
        k2 != k,
    ensures
        lookup(put_entries(es, k, v), k2) == lookup(es, k2),
    decreases es.len(),
{
    if es.len() == 0 {
        assert(seq![(k, v)].drop_first() =~= Seq::<(Seq<char>, Seq<char>)>::empty());
        assert(lookup(Seq::<(Seq<char>, Seq<char>)>::empty(), k2) is None);
    } else if es[0].0 == k {
        assert((seq![(k, v)] + es.drop_first()).drop_first() =~= es.drop_first());
    } else {
        lemma_lookup_put_other(es.drop_first(), k, v, k2);
        assert((seq![es[0]] + put_entries(es.drop_first(), k, v)).drop_first() =~= put_entries(
            es.drop_first(),
            k,
            v,
        ));
    }
}

/// Round trip: decoding a saved snapshot yields exactly the entries it
/// was taken from, so `load` after `save` restores the store, for any
/// store contents.  Saving twice with nothing written in between yields
/// byte-identical snapshots, since the snapshot is a function of the
/// entries alone.
pub proof fn law_snapshot_round_trip(es: Seq<(Seq<char>, Seq<char>)>)
    requires
        distinct_keys(es),
    ensures
        parse_map(ser_map(es)) == Some(es),
{
    crate::codec::lemma_parse_ser_map(es);
}

// ---------------------------------------------------------------------------
// The save policy as a transition function.
// ---------------------------------------------------------------------------

/// One `save_if_needed` on a `(dirty, pending)` pair: the new pair, and
/// whether a write was issued.
pub open spec fn save_step(st: (u64, bool)) -> ((u64, bool), bool) {
    if st.0 >= SAVE_THRESHOLD && !st.1 {
        ((0u64, true), true)
    } else {
        (st, false)
    }
}

/// `n` consecutive `save_if_needed` calls, tracking only the pair.
pub open spec fn save_steps(st: (u64, bool), n: nat) -> (u64, bool)
    decreases n,
{
    if n == 0 {
        st
    } else {
        save_steps(save_step(st).0, (n - 1) as nat)
    }
}

/// At most one save is in flight: while a save is pending, any number of
/// further `save_if_needed` calls leaves the counter and the pending flag
/// untouched and never issues a second write.
pub proof fn law_single_flight(st: (u64, bool), n: nat)
    requires
        st.1,
    ensures
        save_steps(st, n) == st,
        !save_step(save_steps(st, n)).1,
    decreases n,
{
    if n > 0 {
        law_single_flight(st, (n - 1) as nat);
    }
}

// ---------------------------------------------------------------------------
// The store.
// ---------------------------------------------------------------------------

/// The in-memory store, its dirty-write counter, and the save-in-flight
/// flag.  Intended for a single logical thread of control: the host keeps
/// all mutation on the driver's control flow.
pub struct State {
    state_file: String,
    entries: Vec<(String, String)>,
    dirty: u64,
    pending: bool,
}

impl State {
    /// The entries, keys and values as character sequences, in order.
    pub closed spec fn entries(self) -> Seq<(Seq<char>, Seq<char>)> {
        entries_view(self.entries@)
    }

    /// Writes since the last issued save.
    pub closed spec fn dirty(self) -> u64 {
        self.dirty
    }

    /// A save has been issued and not yet reported complete.
    pub closed spec fn save_pending(self) -> bool {
        self.pending
    }

    /// The name of the backing location.
    pub closed spec fn file(self) -> Seq<char> {
        self.state_file@
    }

    /// Keys never repeat.
    pub open spec fn wf(self) -> bool {
        distinct_keys(self.entries())
    }

    /// A fresh, empty store over the named backing location.
    pub fn new(state_file: String) -> (r: State)
        ensures
            r.entries() == Seq::<(Seq<char>, Seq<char>)>::empty(),
            r.dirty() == 0,
            !r.save_pending(),
            r.file() == state_file@,
            r.wf(),
    {
        let r = State { state_file, entries: Vec::new(), dirty: 0, pending: false };
        proof {
            assert(r.entries() =~= Seq::<(Seq<char>, Seq<char>)>::empty());
        }
        r
    }

    /// The backing location's name, for the host to read and write.
    pub fn path(&self) -> (r: &str)
        ensures
            r@ == self.file(),
    {
        self.state_file.as_str()
    }

    /// Upserts the string-encoded value and counts one dirty write.
    pub fn put(&mut self, key: &str, value: &str)
        requires
            old(self).wf(),
        ensures
            final(self).entries() == put_entries(old(self).entries(), key@, value@),
            final(self).dirty() == (if old(self).dirty() == u64::MAX {
                u64::MAX
            } else {
                (old(self).dirty() + 1) as u64
            }),
            final(self).save_pending() == old(self).save_pending(),
            final(self).file() == old(self).file(),
            final(self).wf(),
    {
        let ghost oldv = self.entries();
        let mut i: usize = 0;
        while i < self.entries.len()
            invariant
                oldv == self.entries(),
                self.entries@.len() == oldv.len(),
                i <= oldv.len(),
                forall|j: int| 0 <= j < i ==> oldv[j].0 != key@,
                old(self).wf(),
                oldv == old(self).entries(),
                self.entries@ == old(self).entries@,
                self.dirty == old(self).dirty,
                self.pending == old(self).pending,
                self.state_file == old(self).state_file,
            decreases self.entries.len() - i,
        {
            proof {
                assert(oldv[i as int] == (self.entries@[i as int].0@, self.entries@[i as int].1@));
            }
            if str_eq(self.entries[i].0.as_str(), key) {
                let mut e = self.entries.remove(i);
                e.1 = String::from_str(value);
                self.entries.insert(i, e);
                self.dirty = if self.dirty == u64::MAX {
                    u64::MAX
                } else {
                    self.dirty + 1
                };
                proof {
                    lemma_put_entries_update(oldv, key@, value@, i as int);
                    assert(self.entries@ =~= old(self).entries@.update(
                        i as int,
                        (old(self).entries@[i as int].0, e.1),
                    ));
                    assert(self.entries() =~= oldv.update(i as int, (key@, value@)));
                    assert forall|a: int, b: int|
                        0 <= a < b < self.entries().len() implies self.entries()[a].0
                        != self.entries()[b].0 by {
                        assert(self.entries()[a].0 == oldv[a].0);
                        assert(self.entries()[b].0 == oldv[b].0);
                    }
                }
                return ;
            }
            i = i + 1;
        }
        self.entries.push((String::from_str(key), String::from_str(value)));
        self.dirty = if self.dirty == u64::MAX {
            u64::MAX
        } else {
            self.dirty + 1
        };
        proof {
            lemma_put_entries_append(oldv, key@, value@);
            assert(self.entries() =~= oldv.push((key@, value@)));
            assert forall|a: int, b: int|
                0 <= a < b < self.entries().len() implies self.entries()[a].0
                != self.entries()[b].0 by {
                if b < oldv.len() {
                    assert(self.entries()[a].0 == oldv[a].0);
                    assert(self.entries()[b].0 == oldv[b].0);
                } else {
                    assert(self.entries()[a].0 == oldv[a].0);
                    assert(self.entries()[b].0 == key@);
                }
            }
        }
    }

    /// The recorded value for `key`, if any.
    pub fn get(&self, key: &str) -> (r: Option<String>)
        ensures
            match r {
                Some(v) => lookup(self.entries(), key@) == Some(v@),
                None => lookup(self.entries(), key@) is None,
            },
    {
        let mut i: usize = 0;
        while i < self.entries.len()
            invariant
                self.entries@.len() == self.entries().len(),
                i <= self.entries().len(),
                forall|j: int| 0 <= j < i ==> self.entries()[j].0 != key@,
            decreases self.entries.len() - i,
        {
            proof {
                assert(self.entries()[i as int] == (
                    self.entries@[i as int].0@,
                    self.entries@[i as int].1@,
                ));
            }
            if str_eq(self.entries[i].0.as_str(), key) {
                let v = self.entries[i].1.clone();
                proof {
                    lemma_lookup_at(self.entries(), key@, i as int);
                }
                return Some(v);
            }
            i = i + 1;
        }
        proof {
            lemma_lookup_absent(self.entries(), key@);
        }
        None
    }

    /// The recorded value for `key` parsed as a 64-bit integer; a missing
    /// key and an unparseable value are both absent.
    pub fn get_i64(&self, key: &str) -> (r: Option<i64>)
        ensures
            r == (match lookup(self.entries(), key@) {
                Some(v) => parse_i64_spec(v),
                None => None::<i64>,
            }),
    {
        match self.get(key) {
            Some(v) => parse_i64(v.as_str()),
            None => None,
        }
    }

    /// All keys, in entry order.
    pub fn keys(&self) -> (r: Vec<String>)
        ensures
            r@.map_values(|s: String| s@) == keys_of(self.entries()),
    {
        let mut out: Vec<String> = Vec::new();
        let mut i: usize = 0;
        while i < self.entries.len()
            invariant
                self.entries@.len() == self.entries().len(),
                i <= self.entries().len(),
                out@.len() == i,
                forall|j: int| 0 <= j < i ==> out@[j]@ == self.entries()[j].0,
            decreases self.entries.len() - i,
        {
            proof {
                assert(self.entries()[i as int] == (
                    self.entries@[i as int].0@,
                    self.entries@[i as int].1@,
                ));
            }
            out.push(self.entries[i].0.clone());
            i = i + 1;
        }
        proof {
            assert(out@.map_values(|s: String| s@) =~= keys_of(self.entries()));
        }
        out
    }

    /// The canonical serialized form of the whole mapping.
    pub fn to_json(&self) -> (r: String)
        ensures
            r@ == ser_map(self.entries()),
    {
        serialize_entries(&self.entries)
    }

    /// Writes since the last issued save.
    pub fn dirty_count(&self) -> (r: u64)
        ensures
            r == self.dirty(),
    {
        self.dirty
    }

    /// Whether a save is in flight.
    pub fn is_save_pending(&self) -> (r: bool)
        ensures
            r == self.save_pending(),
    {
        self.pending
    }

    /// Replaces the contents with the decoded snapshot text, or starts
    /// empty when the backing data is missing or malformed.  Returns
    /// whether a snapshot was installed.  One-shot, before dispatch.
    pub fn load(&mut self, contents: Option<&str>) -> (r: bool)
        ensures
            final(self).file() == old(self).file(),
            final(self).dirty() == old(self).dirty(),
            final(self).save_pending() == old(self).save_pending(),
            final(self).wf(),
            match contents {
                Some(text) => {
                    &&& r == (parse_map(text@) matches Some(es) && distinct_keys(es))
                    &&& final(self).entries() == (match parse_map(text@) {
                        Some(es) => if distinct_keys(es) {
                            es
                        } else {
                            Seq::<(Seq<char>, Seq<char>)>::empty()
                        },
                        None => Seq::<(Seq<char>, Seq<char>)>::empty(),
                    })
                },
                None => !r && final(self).entries() == Seq::<(Seq<char>, Seq<char>)>::empty(),
            },
    {
        match contents {
            None => {
                self.entries = Vec::new();
                proof {
                    assert(self.entries() =~= Seq::<(Seq<char>, Seq<char>)>::empty());
                }
                false
            },
            Some(text) => {
                match parse_entries(text) {
                    None => {
                        self.entries = Vec::new();
                        proof {
                            assert(self.entries() =~= Seq::<(Seq<char>, Seq<char>)>::empty());
                        }
                        false
                    },
                    Some(es) => {
                        if distinct_keys_check(&es) {
                            self.entries = es;
                            true
                        } else {
                            self.entries = Vec::new();
                            proof {
                                assert(self.entries() =~= Seq::<(Seq<char>, Seq<char>)>::empty());
                            }
                            false
                        }
                    },
                }
            },
        }
    }

    /// Issues a save unless one is in flight: hands back the snapshot of
    /// the current contents and resets the dirty counter at once, before
    /// the write is confirmed.  The host writes the snapshot and then
    /// calls [`State::save_completed`].
    pub fn save(&mut self) -> (r: Option<String>)
        ensures
            final(self).entries() == old(self).entries(),
            final(self).file() == old(self).file(),
            final(self).wf() == old(self).wf(),
            match r {
                Some(snap) => {
                    &&& !old(self).save_pending()
                    &&& snap@ == ser_map(old(self).entries())
                    &&& final(self).dirty() == 0
                    &&& final(self).save_pending()
                },
                None => {
                    &&& old(self).save_pending()
                    &&& final(self).dirty() == old(self).dirty()
                    &&& final(self).save_pending()
                },
            },
    {
        if self.pending {
            None
        } else {
            self.dirty = 0;
            self.pending = true;
            Some(serialize_entries(&self.entries))
        }
    }

    /// A save only when the dirty counter has reached the threshold and no
    /// save is in flight; exactly one [`save_step`] on the
    /// `(dirty, pending)` pair.
    pub fn save_if_needed(&mut self) -> (r: Option<String>)
        ensures
            final(self).entries() == old(self).entries(),
            final(self).file() == old(self).file(),
            final(self).wf() == old(self).wf(),
            (final(self).dirty(), final(self).save_pending()) == save_step(
                (old(self).dirty(), old(self).save_pending()),
            ).0,
            (r is Some) == save_step((old(self).dirty(), old(self).save_pending())).1,
            r matches Some(snap) ==> snap@ == ser_map(old(self).entries()),
    {
        if self.dirty >= SAVE_THRESHOLD && !self.pending {
            self.save()
        } else {
            None
        }
    }

    /// The host reports that the in-flight write finished, successfully or
    /// not.  The dirty counter is not restored on failure: writes since
    /// the snapshot was taken stay counted, older ones are accepted as
    /// lost.
    pub fn save_completed(&mut self)
        ensures
            final(self).entries() == old(self).entries(),
            final(self).file() == old(self).file(),
            final(self).dirty() == old(self).dirty(),
            !final(self).save_pending(),
            final(self).wf() == old(self).wf(),
    {
        self.pending = false;
    }
}

/// Whether the decoded entries carry any repeated key.
fn distinct_keys_check(es: &Vec<(String, String)>) -> (r: bool)
    ensures
        r == distinct_keys(entries_view(es@)),
{
    let ghost ev = entries_view(es@);
    let n = es.len();
    let mut i: usize = 0;
    while i < n
        invariant
            ev == entries_view(es@),
            n == es@.len(),
            n == ev.len(),
            i <= n,
            forall|a: int, b: int| 0 <= a < b < ev.len() && a < i ==> ev[a].0 != ev[b].0,
        decreases n - i,
    {
        let mut j: usize = i + 1;
        while j < n
            invariant
                ev == entries_view(es@),
                n == es@.len(),
                n == ev.len(),
                i < n,
                i < j <= n,
                forall|b: int| i < b < j ==> ev[i as int].0 != ev[b].0,
            decreases n - j,
        {
            proof {
                assert(ev[i as int] == (es@[i as int].0@, es@[i as int].1@));
                assert(ev[j as int] == (es@[j as int].0@, es@[j as int].1@));
            }
            if str_eq(es[i].0.as_str(), es[j].0.as_str()) {
                return false;
            }
            j = j + 1;
        }
        i = i + 1;
    }
    true
}

} // verus!
