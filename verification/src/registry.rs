//! The subscriber registry: a mapping from randomly assigned subscription
//! ids to handlers, with point-in-time snapshots for dispatch.
//!
//! A snapshot is an independent copy, so handlers registered or removed
//! while one cycle's dispatch runs take effect only from the next cycle;
//! a handler may therefore re-enter the registry from within its own
//! invocation.

use vstd::prelude::*;

verus! {

/// The registered ids, in entry order.
pub open spec fn ids_of<H>(es: Seq<(i64, H)>) -> Seq<i64> {
    es.map_values(|p: (i64, H)| p.0)
}

/// Some entry carries `id`.
pub open spec fn has_id<H>(es: Seq<(i64, H)>, id: i64) -> bool {
    exists|i: int| 0 <= i < es.len() && es[i].0 == id
}

/// No id occurs twice.
pub open spec fn distinct_sub_ids<H>(es: Seq<(i64, H)>) -> bool {
    forall|i: int, j: int| 0 <= i < j < es.len() ==> es[i].0 != es[j].0
}

/// The entries after registering `h` under `id`: an entry already
/// carrying `id` is replaced in place, a fresh id is appended.
pub open spec fn reg_insert<H>(es: Seq<(i64, H)>, id: i64, h: H) -> Seq<(i64, H)>
    decreases es.len(),
{
    if es.len() == 0 {
        seq![(id, h)]
    } else if es[0].0 == id {
        seq![(id, h)] + es.drop_first()
    } else {
        seq![es[0]] + reg_insert(es.drop_first(), id, h)
    }
}

/// The entries after removing `id`: the first entry carrying it goes,
/// everything else keeps its place; an absent id changes nothing.
pub open spec fn reg_remove<H>(es: Seq<(i64, H)>, id: i64) -> Seq<(i64, H)>
    decreases es.len(),
{
    if es.len() == 0 {
        es
    } else if es[0].0 == id {
        es.drop_first()
    } else {
        seq![es[0]] + reg_remove(es.drop_first(), id)
    }
}

/// Registering a fresh id appends its entry.
pub proof fn lemma_reg_insert_fresh<H>(es: Seq<(i64, H)>, id: i64, h: H)
    requires
        !has_id(es, id),
    ensures
        reg_insert(es, id, h) == es.push((id, h)),
    decreases es.len(),
{
    if es.len() == 0 {
        assert(reg_insert(es, id, h) =~= es.push((id, h)));
    } else {
        assert(es[0].0 != id);
        assert(!has_id(es.drop_first(), id)) by {
            if has_id(es.drop_first(), id) {
                let i = choose|i: int|
                    0 <= i < es.drop_first().len() && es.drop_first()[i].0 == id;
                assert(es[i + 1].0 == id);
            }
        }
        lemma_reg_insert_fresh(es.drop_first(), id, h);
        assert(reg_insert(es, id, h) =~= es.push((id, h)));
    }
}

/// Registering an id already present at `i` replaces that entry.
pub proof fn lemma_reg_insert_update<H>(es: Seq<(i64, H)>, id: i64, h: H, i: int)
    requires
        0 <= i < es.len(),
        es[i].0 == id,
        forall|j: int| 0 <= j < i ==> es[j].0 != id,
    ensures
        reg_insert(es, id, h) == es.update(i, (id, h)),
    decreases i,
{
    if i == 0 {
        assert(reg_insert(es, id, h) =~= es.update(0, (id, h)));
    } else {
        lemma_reg_insert_update(es.drop_first(), id, h, i - 1);
        assert(reg_insert(es, id, h) =~= es.update(i, (id, h)));
    }
}

/// Removing an id present at `i` deletes exactly that entry.
pub proof fn lemma_reg_remove_at<H>(es: Seq<(i64, H)>, id: i64, i: int)
    requires
        0 <= i < es.len(),
        es[i].0 == id,
        forall|j: int| 0 <= j < i ==> es[j].0 != id,
    ensures
        reg_remove(es, id) == es.remove(i),
    decreases i,
{
    if i == 0 {
        assert(reg_remove(es, id) =~= es.remove(0));
    } else {
        lemma_reg_remove_at(es.drop_first(), id, i - 1);
        assert(reg_remove(es, id) =~= es.remove(i));
    }
}

/// Removing an absent id changes nothing.
pub proof fn lemma_reg_remove_absent<H>(es: Seq<(i64, H)>, id: i64)
    requires
        forall|j: int| 0 <= j < es.len() ==> es[j].0 != id,
    ensures
        reg_remove(es, id) == es,
    decreases es.len(),
{
    if es.len() > 0 {
        lemma_reg_remove_absent(es.drop_first(), id);
        assert(reg_remove(es, id) =~= es);
    }
}

/// Removing a freshly appended id restores the original entries.
pub proof fn lemma_reg_remove_pushed<H>(es: Seq<(i64, H)>, id: i64, h: H)
    requires
        !has_id(es, id),
    ensures
        reg_remove(es.push((id, h)), id) == es,
    decreases es.len(),
{
    if es.len() == 0 {
        assert(es.push((id, h)).drop_first() =~= es);
    } else {
        assert(es[0].0 != id);
        assert(!has_id(es.drop_first(), id)) by {
            if has_id(es.drop_first(), id) {
                let i = choose|i: int|
                    0 <= i < es.drop_first().len() && es.drop_first()[i].0 == id;
                assert(es[i + 1].0 == id);
            }
        }
        lemma_reg_remove_pushed(es.drop_first(), id, h);
        assert(es.push((id, h)).drop_first() =~= es.drop_first().push((id, h)));
        assert(reg_remove(es.push((id, h)), id) =~= es);
    }
}

/// Reentrant subscription: a registry snapshot taken before handler `b`
/// was registered does not carry `b`; the next cycle's snapshot carries
/// `b` exactly once (the entries stay duplicate-free); and after `b`
/// removes itself, the registry is exactly what it was before `b`
/// registered, so `b` never fires again.
pub proof fn law_reentrant_subscription<H>(es: Seq<(i64, H)>, b: i64, h: H)
    requires
        distinct_sub_ids(es),
        !has_id(es, b),
    ensures
        !has_id(es, b),
        has_id(reg_insert(es, b, h), b),
        distinct_sub_ids(reg_insert(es, b, h)),
        reg_remove(reg_insert(es, b, h), b) == es,
{
    lemma_reg_insert_fresh(es, b, h);
    let es2 = es.push((b, h));
    assert(es2[es.len() as int].0 == b);
    assert forall|i: int, j: int| 0 <= i < j < es2.len() implies es2[i].0 != es2[j].0 by {
        if j < es.len() {
            assert(es2[i].0 == es[i].0 && es2[j].0 == es[j].0);
        } else {
            assert(es2[j].0 == b);
            assert(es2[i].0 == es[i].0);
            assert(!has_id(es, b));
            if es[i].0 == b {
                assert(has_id(es, b));
            }
        }
    }
    lemma_reg_remove_pushed(es, b, h);
}

/// Relies on `rand::random`: draws an arbitrary 64-bit subscription id
/// from the thread-local generator.  Nothing is promised of the value;
/// an id collision overwrites the older handler, an accepted risk in a
/// 64-bit id space.
#[verifier::external_body]
fn random_i64() -> i64 {
    rand::random::<i64>()
}

/// The registry itself.  `H` is whatever the host dispatches to: the
/// registry only hands copies out and never invokes a handler.
pub struct Registry<H> {
    entries: Vec<(i64, H)>,
}

impl<H> Registry<H> {
    /// The registered entries, in registration order.
    pub closed spec fn entries(self) -> Seq<(i64, H)> {
        self.entries@
    }

    /// The registered ids, in registration order.
    pub open spec fn ids(self) -> Seq<i64> {
        ids_of(self.entries())
    }

    /// Ids never repeat.
    pub open spec fn wf(self) -> bool {
        distinct_sub_ids(self.entries())
    }

    /// An empty registry.
    pub fn new() -> (r: Registry<H>)
        ensures
            r.entries() == Seq::<(i64, H)>::empty(),
            r.wf(),
    {
        Registry { entries: Vec::new() }
    }

    /// How many handlers are registered.
    pub fn count(&self) -> (r: usize)
        ensures
            r == self.entries().len(),
    {
        self.entries.len()
    }

    /// Registers a handler under a freshly drawn random id and returns
    /// the id for later removal.
    pub fn subscribe(&mut self, h: H) -> (id: i64)
        requires
            old(self).wf(),
        ensures
            final(self).entries() == reg_insert(old(self).entries(), id, h),
            final(self).wf(),
    {
        let id = random_i64();
        let ghost oldv = self.entries@;
        let mut i: usize = 0;
        while i < self.entries.len()
            invariant
                oldv == self.entries@,
                oldv == old(self).entries@,
                i <= oldv.len(),
                forall|j: int| 0 <= j < i ==> oldv[j].0 != id,
                distinct_sub_ids(oldv),
            decreases self.entries.len() - i,
        {
            if self.entries[i].0 == id {
                let e = self.entries.remove(i);
                self.entries.insert(i, (e.0, h));
                proof {
                    lemma_reg_insert_update(oldv, id, h, i as int);
                    assert(self.entries@ =~= oldv.update(i as int, (id, h)));
                    assert forall|a: int, b: int|
                        0 <= a < b < self.entries@.len() implies self.entries@[a].0
                        != self.entries@[b].0 by {
                        assert(self.entries@[a].0 == oldv[a].0);
                        assert(self.entries@[b].0 == oldv[b].0);
                    }
                }
                return id;
            }
            i = i + 1;
        }
        proof {
            assert(!has_id(oldv, id)) by {
                if has_id(oldv, id) {
                    let j = choose|j: int| 0 <= j < oldv.len() && oldv[j].0 == id;
                    assert(oldv[j].0 != id);
                }
            }
            lemma_reg_insert_fresh(oldv, id, h);
        }
        self.entries.push((id, h));
        proof {
            assert forall|a: int, b: int|
                0 <= a < b < self.entries@.len() implies self.entries@[a].0
                != self.entries@[b].0 by {
                if b < oldv.len() {
                    assert(self.entries@[a].0 == oldv[a].0);
                    assert(self.entries@[b].0 == oldv[b].0);
                } else {
                    assert(self.entries@[a].0 == oldv[a].0);
                    assert(self.entries@[b].0 == id);
                }
            }
        }
        id
    }

    /// Removes the handler registered under `id`; removing an id that is
    /// not registered is a no-op.
    pub fn unsubscribe(&mut self, id: i64)
        requires
            old(self).wf(),
        ensures
            final(self).entries() == reg_remove(old(self).entries(), id),
            final(self).wf(),
    {
        let ghost oldv = self.entries@;
        let mut i: usize = 0;
        while i < self.entries.len()
            invariant
                oldv == self.entries@,
                oldv == old(self).entries@,
                i <= oldv.len(),
                forall|j: int| 0 <= j < i ==> oldv[j].0 != id,
                distinct_sub_ids(oldv),
            decreases self.entries.len() - i,
        {
            if self.entries[i].0 == id {
                self.entries.remove(i);
                proof {
                    lemma_reg_remove_at(oldv, id, i as int);
                    assert forall|a: int, b: int|
                        0 <= a < b < self.entries@.len() implies self.entries@[a].0
                        != self.entries@[b].0 by {
                        let a0 = if a < i { a } else { a + 1 };
                        let b0 = if b < i { b } else { b + 1 };
                        assert(self.entries@[a].0 == oldv[a0].0);
                        assert(self.entries@[b].0 == oldv[b0].0);
                    }
                }
                return ;
            }
            i = i + 1;
        }
        proof {
            lemma_reg_remove_absent(oldv, id);
        }
    }
}

impl<H: Clone> Registry<H> {
    /// A point-in-time copy of the registry for one cycle's dispatch:
    /// the same ids in the same order, each with a copy of its handler.
    /// Mutating the registry afterwards leaves the snapshot untouched.
    pub fn snapshot(&self) -> (r: Vec<(i64, H)>)
        ensures
            r@.len() == self.entries().len(),
            ids_of(r@) == self.ids(),
    {
        let mut out: Vec<(i64, H)> = Vec::new();
        let mut i: usize = 0;
        while i < self.entries.len()
            invariant
                i <= self.entries@.len(),
                out@.len() == i,
                forall|j: int| 0 <= j < i ==> out@[j].0 == self.entries@[j].0,
            decreases self.entries.len() - i,
        {
            let id = self.entries[i].0;
            let h = self.entries[i].1.clone();
            out.push((id, h));
            i = i + 1;
        }
        proof {
            assert(ids_of(out@) =~= ids_of(self.entries()));
        }
        out
    }
}

} // verus!
