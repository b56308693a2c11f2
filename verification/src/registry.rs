//! The plugin registry: a table from plugin name to a construction-recipe
//! handle, consulted while parsing. Registration is last-write-wins; lookup
//! of an unregistered name yields nothing, which the grammar turns into a
//! fatal `UnknownPlugin` error.
//!
//! The handle (`u64`) identifies a construction recipe owned by the
//! embedding runtime; the registry itself only resolves names.

use vstd::prelude::*;
use crate::config::{Plugin, Param};

verus! {

/// The name-to-handle table, in registration order with unique names.
pub struct Registry {
    entries: Vec<(Vec<char>, u64)>,
}

/// First (and, under the invariant, only) handle registered for `k`.
pub open spec fn reg_lookup(m: Seq<(Seq<char>, u64)>, k: Seq<char>) -> Option<u64>
    decreases m.len(),
{
    if m.len() == 0 {
        None
    } else if m[0].0 == k {
        Some(m[0].1)
    } else {
        reg_lookup(m.drop_first(), k)
    }
}

/// Inserts `(k, f)`: an existing name keeps its place and takes the new
/// handle, a new name goes to the end.
pub open spec fn reg_upsert(m: Seq<(Seq<char>, u64)>, k: Seq<char>, f: u64) -> Seq<
    (Seq<char>, u64),
>
    decreases m.len(),
{
    if m.len() == 0 {
        seq![(k, f)]
    } else if m[0].0 == k {
        seq![(k, f)] + m.drop_first()
    } else {
        seq![m[0]] + reg_upsert(m.drop_first(), k, f)
    }
}

/// Looking up after an upsert finds the new handle for the same name and
/// leaves every other name unchanged.
pub proof fn lemma_reg_upsert_lookup(m: Seq<(Seq<char>, u64)>, k: Seq<char>, f: u64, q: Seq<char>)
    ensures
        reg_lookup(reg_upsert(m, k, f), q) == if q == k {
            Some(f)
        } else {
            reg_lookup(m, q)
        },
    decreases m.len(),
{
    if m.len() == 0 {
        let u = seq![(k, f)];
        assert(reg_upsert(m, k, f) == u);
        assert(u[0] == (k, f));
        assert(u.drop_first() =~= Seq::<(Seq<char>, u64)>::empty());
        if q == k {
            assert(reg_lookup(u, q) == Some(f));
        } else {
            assert(reg_lookup(u, q) == reg_lookup(u.drop_first(), q));
            assert(reg_lookup(u.drop_first(), q) == None::<u64>);
        }
    } else if m[0].0 == k {
        let u = seq![(k, f)] + m.drop_first();
        assert(reg_upsert(m, k, f) == u);
        assert(u[0] == (k, f));
        assert(u.drop_first() =~= m.drop_first());
        if q == k {
            assert(reg_lookup(u, q) == Some(f));
        } else {
            assert(reg_lookup(u, q) == reg_lookup(u.drop_first(), q));
            assert(reg_lookup(m, q) == reg_lookup(m.drop_first(), q));
        }
    } else {
        let u = seq![m[0]] + reg_upsert(m.drop_first(), k, f);
        assert(reg_upsert(m, k, f) == u);
        assert(u[0] == m[0]);
        assert(u.len() > 0);
        assert(u.drop_first() =~= reg_upsert(m.drop_first(), k, f));
        lemma_reg_upsert_lookup(m.drop_first(), k, f, q);
        if u[0].0 == q {
            assert(reg_lookup(u, q) == Some(u[0].1));
            assert(reg_lookup(m, q) == Some(m[0].1));
        } else {
            assert(reg_lookup(u, q) == reg_lookup(u.drop_first(), q));
            assert(reg_lookup(m, q) == reg_lookup(m.drop_first(), q));
        }
    }
}

impl View for Registry {
    type V = Seq<(Seq<char>, u64)>;

    closed spec fn view(&self) -> Seq<(Seq<char>, u64)> {
        Seq::new(self.entries@.len(), |i: int| (self.entries@[i].0@, self.entries@[i].1))
    }
}

impl Registry {
    /// An empty registry.
    pub fn new() -> (r: Self)
        ensures
            r@ == Seq::<(Seq<char>, u64)>::empty(),
    {
        let r = Registry { entries: Vec::new() };
        proof {
            assert(r@ =~= Seq::<(Seq<char>, u64)>::empty());
        }
        r
    }

    /// Registers `factory` under `name`; re-registering a name overwrites
    /// the prior handle (last write wins).
    #[verifier::loop_isolation(false)]
    pub fn register(&mut self, name: Vec<char>, factory: u64)
        ensures
            final(self)@ == reg_upsert(old(self)@, name@, factory),
    {
        let ghost m = old(self)@;
        let mut idx: usize = 0;
        while idx < self.entries.len()
            invariant
                0 <= idx <= self.entries@.len(),
                self.entries@ == old(self).entries@,
                forall|t: int| 0 <= t < idx ==> m[t].0 != name@,
        decreases self.entries@.len() - idx,
        {
            if crate::config::eq_names(&self.entries[idx].0, &name) {
                self.entries[idx] = (name, factory);
                proof {
                    lemma_upsert_at(m, name@, factory, idx as int);
                    assert(self@ =~= m.update(idx as int, (name@, factory)));
                }
                return;
            }
            idx = idx + 1;
        }
        self.entries.push((name, factory));
        proof {
            lemma_upsert_end(m, name@, factory);
            assert(self@ =~= m.push((name@, factory)));
        }
    }

    /// The handle registered under `name`, if any.
    #[verifier::loop_isolation(false)]
    pub fn lookup(&self, name: &Vec<char>) -> (r: Option<u64>)
        ensures
            r == reg_lookup(self@, name@),
    {
        let mut idx: usize = 0;
        proof {
            assert(self@.subrange(0, self@.len() as int) =~= self@);
        }
        while idx < self.entries.len()
            invariant
                0 <= idx <= self.entries@.len(),
                reg_lookup(self@, name@) == reg_lookup(
                    self@.subrange(idx as int, self@.len() as int),
                    name@,
                ),
            decreases self.entries@.len() - idx,
        {
            proof {
                assert(self@.subrange(idx as int, self@.len() as int).drop_first()
                    =~= self@.subrange(idx + 1, self@.len() as int));
            }
            if crate::config::eq_names(&self.entries[idx].0, name) {
                return Some(self.entries[idx].1);
            }
            idx = idx + 1;
        }
        proof {
            assert(self@.subrange(idx as int, self@.len() as int) =~= Seq::<(
                Seq<char>,
                u64,
            )>::empty());
        }
        None
    }

    /// Whether `name` is registered.
    pub fn contains(&self, name: &Vec<char>) -> (r: bool)
        ensures
            r == (reg_lookup(self@, name@) is Some),
    {
        match self.lookup(name) {
            Some(_) => true,
            None => false,
        }
    }

    /// Resolves `name` and constructs a plugin instance carrying the name
    /// and parameters; `None` when the name is not registered, which a
    /// parse turns into a fatal `UnknownPlugin` error.
    pub fn construct(&self, name: Vec<char>, params: Vec<Param>) -> (r: Option<Plugin>)
        ensures
            reg_lookup(self@, name@) is Some ==> (r matches Some(p) && p@.name == name@
                && p@.params == crate::types::view_entries(params@)),
            reg_lookup(self@, name@) is None ==> r is None,
    {
        if self.contains(&name) {
            Some(Plugin::new(name, params))
        } else {
            None
        }
    }
}

/// A `reg_upsert` that hits an existing name updates it in place.
proof fn lemma_upsert_at(m: Seq<(Seq<char>, u64)>, k: Seq<char>, f: u64, idx: int)
    requires
        0 <= idx < m.len(),
        m[idx].0 == k,
        forall|t: int| 0 <= t < idx ==> m[t].0 != k,
    ensures
        reg_upsert(m, k, f) == m.update(idx, (k, f)),
    decreases idx,
{
    if idx == 0 {
        assert(seq![(k, f)] + m.drop_first() =~= m.update(0, (k, f)));
    } else {
        assert(m.drop_first()[idx - 1].0 == k);
        lemma_upsert_at(m.drop_first(), k, f, idx - 1);
        assert(seq![m[0]] + m.drop_first().update(idx - 1, (k, f)) =~= m.update(idx, (k, f)));
    }
}

/// A `reg_upsert` of a fresh name appends it.
proof fn lemma_upsert_end(m: Seq<(Seq<char>, u64)>, k: Seq<char>, f: u64)
    requires
        forall|t: int| 0 <= t < m.len() ==> m[t].0 != k,
    ensures
        reg_upsert(m, k, f) == m.push((k, f)),
    decreases m.len(),
{
    if m.len() == 0 {
        assert(seq![(k, f)] =~= m.push((k, f)));
    } else {
        lemma_upsert_end(m.drop_first(), k, f);
        assert(seq![m[0]] + m.drop_first().push((k, f)) =~= m.push((k, f)));
    }
}

} // verus!
