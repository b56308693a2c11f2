//! A generic memoizing get-or-compute cache: built once over a compute
//! function, it returns the stored value for a known key and computes,
//! stores and returns the value for an absent key. Entries are never
//! evicted.

use vstd::prelude::*;

verus! {

/// First value stored for `k`, if any; keys are unique by construction, so
/// the first match is the only one.
pub open spec fn cache_lookup<V>(m: Seq<(Seq<char>, V)>, k: Seq<char>) -> Option<V>
    decreases m.len(),
{
    if m.len() == 0 {
        None
    } else if m[0].0 == k {
        Some(m[0].1)
    } else {
        cache_lookup(m.drop_first(), k)
    }
}

/// A keyed cache over a compute function `F`; a key's value is computed at
/// most once and kept for the cache's lifetime.
#[verifier::reject_recursive_types(V)]
pub struct Cache<V, F> where F: Fn(&Vec<char>) -> V {
    table: Vec<(Vec<char>, V)>,
    new_value: F,
}

impl<V, F> Cache<V, F> where F: Fn(&Vec<char>) -> V {
    /// The stored entries, oldest first.
    pub closed spec fn table_view(&self) -> Seq<(Seq<char>, V)> {
        Seq::new(self.table@.len(), |i: int| (self.table@[i].0@, self.table@[i].1))
    }

    /// The compute function the cache was built over.
    pub closed spec fn compute_fn(&self) -> F {
        self.new_value
    }

    /// An empty cache over the compute function `f`.
    pub fn new(f: F) -> (r: Self)
        ensures
            r.table_view() == Seq::<(Seq<char>, V)>::empty(),
            r.compute_fn() == f,
    {
        let r = Cache { table: Vec::new(), new_value: f };
        proof {
            assert(r.table_view() =~= Seq::<(Seq<char>, V)>::empty());
        }
        r
    }

    /// The value for `k`: the stored one when `k` is known — the cache is
    /// then unchanged — else the one the compute function returns, which is
    /// stored under `k` first.
    #[verifier::loop_isolation(false)]
    pub fn get(&mut self, k: &Vec<char>) -> (v: &V)
        requires
            call_requires(old(self).compute_fn(), (k,)),
        ensures
            final(self).compute_fn() == old(self).compute_fn(),
            cache_lookup(old(self).table_view(), k@) matches Some(v0) ==> *v == v0
                && final(self).table_view() == old(self).table_view(),
            cache_lookup(old(self).table_view(), k@) is None ==> call_ensures(
                old(self).compute_fn(),
                (k,),
                *v,
            ) && final(self).table_view() == old(self).table_view().push((k@, *v)),
    {
        let ghost m = old(self).table_view();
        let mut idx: usize = 0;
        proof {
            assert(m.subrange(0, m.len() as int) =~= m);
        }
        while idx < self.table.len()
            invariant
                0 <= idx <= self.table@.len(),
                self == old(self),
                m.len() == self.table@.len(),
                cache_lookup(m, k@) == cache_lookup(
                    m.subrange(idx as int, m.len() as int),
                    k@,
                ),
                forall|t: int| 0 <= t < m.len() ==> m[t] == (self.table@[t].0@, self.table@[t].1),
            decreases self.table@.len() - idx,
        {
            proof {
                assert(m.subrange(idx as int, m.len() as int).drop_first() =~= m.subrange(
                    idx + 1,
                    m.len() as int,
                ));
            }
            if crate::config::eq_names(&self.table[idx].0, k) {
                return &self.table[idx].1;
            }
            idx = idx + 1;
        }
        proof {
            assert(m.subrange(m.len() as int, m.len() as int) =~= Seq::<(Seq<char>, V)>::empty());
        }
        let key = crate::parsers::copy_range(k.as_slice(), 0, k.len());
        proof {
            assert(k@.subrange(0, k@.len() as int) =~= k@);
            assert(key@ == k@);
        }
        let v = (self.new_value)(k);
        self.table.push((key, v));
        proof {
            assert(self.table_view() =~= m.push(
                (k@, self.table@[self.table@.len() - 1].1),
            ));
        }
        let n = self.table.len();
        &self.table[n - 1].1
    }
}

} // verus!
