//! Per-variable cell storage of the in-memory engine.
//!
//! A store remembers exactly the cells that have been written, keyed by their
//! full index vector; growing an axis never moves data, and a cell that was
//! never written simply has no entry.  Reads of such cells are answered by
//! the fill policy, which lives with the variable, not here.
//!
//! A write appends its entry and the newest entry wins, so the abstract
//! content is the recursive `lookup` over the entry sequence.

use vstd::prelude::*;
use crate::hyperslab::{
    lemma_target_injective, product, target_index, target_key, usizes_eq, SlabPlan,
};

verus! {

/// The newest-entry-wins lookup over parallel key and value sequences.
pub open spec fn assoc_lookup<V>(keys: Seq<Seq<usize>>, vals: Seq<V>, k: Seq<usize>) -> Option<V>
    decreases keys.len(),
{
    if keys.len() == 0 || keys.len() != vals.len() {
        None
    } else if keys.last() == k {
        Some(vals.last())
    } else {
        assoc_lookup(keys.drop_last(), vals.drop_last(), k)
    }
}

/// Numeric cells that have been explicitly written, newest entry last.
#[derive(Debug)]
pub struct CellStore {
    keys: Vec<Vec<usize>>,
    vals: Vec<i128>,
}

impl CellStore {
    /// The key sequences seen abstractly.
    pub closed spec fn keys_spec(self) -> Seq<Seq<usize>> {
        self.keys@.map(|i: int, kv: Vec<usize>| kv@)
    }

    /// The values seen abstractly, in write order.
    pub closed spec fn vals_spec(self) -> Seq<i128> {
        self.vals@
    }

    /// Internal consistency: one value per key.
    pub closed spec fn wf(self) -> bool {
        self.keys@.len() == self.vals@.len()
    }

    /// What the store holds at index vector `k`, if it was ever written.
    pub closed spec fn lookup(self, k: Seq<usize>) -> Option<i128> {
        assoc_lookup(self.keys_spec(), self.vals@, k)
    }

    /// An empty store: nothing has been written.
    pub fn new() -> (r: CellStore)
        ensures
            r.wf(),
            forall|k: Seq<usize>| r.lookup(k) is None,
            r.keys_spec() == Seq::<Seq<usize>>::empty(),
            r.vals_spec() == Seq::<i128>::empty(),
    {
        let r = CellStore { keys: Vec::new(), vals: Vec::new() };
        proof {
            assert(r.keys_spec() =~= Seq::<Seq<usize>>::empty());
            assert(r.vals_spec() =~= Seq::<i128>::empty());
        }
        r
    }

    /// Records a write of `v` at index vector `key`, shadowing any earlier
    /// write there and leaving every other cell as it was.
    pub fn write(&mut self, key: Vec<usize>, v: i128)
        requires
            old(self).wf(),
        ensures
            final(self).wf(),
            final(self).lookup(key@) == Some(v),
            forall|k: Seq<usize>| k != key@ ==> final(self).lookup(k) == old(self).lookup(k),
            final(self).keys_spec() == old(self).keys_spec().push(key@),
            final(self).vals_spec() == old(self).vals_spec().push(v),
    {
        let ghost old_keys = self.keys_spec();
        self.keys.push(key);
        self.vals.push(v);
        proof {
            assert(self.keys_spec() =~= old_keys.push(key@));
            assert(self.keys_spec().drop_last() =~= old_keys);
            assert(self.vals@.drop_last() =~= old(self).vals@);
        }
    }

    /// Machine bounds of the entries: one value per key, and every count
    /// and key length within the index range.
    pub proof fn lemma_entry_shape(self)
        requires
            self.wf(),
        ensures
            self.keys_spec().len() == self.vals_spec().len(),
            self.keys_spec().len() <= usize::MAX,
            forall|i: int|
                0 <= i < self.keys_spec().len() ==> (#[trigger] self.keys_spec()[i]).len()
                    <= usize::MAX,
    {
        vstd::std_specs::vec::axiom_spec_len(&self.keys);
        vstd::std_specs::vec::axiom_spec_len(&self.vals);
        assert forall|i: int|
            0 <= i < self.keys_spec().len() implies (#[trigger] self.keys_spec()[i]).len()
            <= usize::MAX by {
            vstd::std_specs::vec::axiom_spec_len(&self.keys@[i]);
        }
    }

    /// How many entries the store holds, shadowed writes included.
    pub fn entry_count(&self) -> (r: usize)
        requires
            self.wf(),
        ensures
            r == self.keys_spec().len(),
            r == self.vals_spec().len(),
    {
        self.keys.len()
    }

    /// The `i`-th entry's key.
    pub fn entry_key(&self, i: usize) -> (r: &Vec<usize>)
        requires
            self.wf(),
            i < self.keys_spec().len(),
        ensures
            r@ == self.keys_spec()[i as int],
    {
        &self.keys[i]
    }

    /// The `i`-th entry's value.
    pub fn entry_val(&self, i: usize) -> (r: i128)
        requires
            self.wf(),
            i < self.vals_spec().len(),
        ensures
            r == self.vals_spec()[i as int],
    {
        self.vals[i]
    }

    /// Writes one planned region: the `k`-th of the buffer's first
    /// `plan.total` values lands on the cell the plan addresses for `k`,
    /// and no other cell changes.
    pub fn write_region(&mut self, plan: &SlabPlan, values: &Vec<i128>)
        requires
            old(self).wf(),
            plan.consistent(plan.start@.len() as nat),
            plan.total <= values@.len(),
        ensures
            final(self).wf(),
            forall|k: int|
                0 <= k < plan.total ==> final(self).lookup(
                    #[trigger] target_key(plan.start@, plan.count@, plan.stride@, k),
                ) == Some(values@[k]),
            forall|key: Seq<usize>|
                (forall|k: int|
                    0 <= k < plan.total ==> target_key(plan.start@, plan.count@, plan.stride@, k)
                        != key) ==> final(self).lookup(key) == old(self).lookup(key),
            final(self).vals_spec() == old(self).vals_spec() + values@.subrange(
                0,
                plan.total as int,
            ),
    {
        let total = plan.total;
        let mut k: usize = 0;
        proof {
            assert(self.vals_spec() =~= old(self).vals_spec() + values@.subrange(0, 0));
        }
        while k < total
            invariant
                self.wf(),
                k <= total,
                forall|q: int|
                    0 <= q < k ==> self.lookup(
                        #[trigger] target_key(plan.start@, plan.count@, plan.stride@, q),
                    ) == Some(values@[q]),
                forall|key: Seq<usize>|
                    (forall|q: int|
                        0 <= q < k ==> target_key(plan.start@, plan.count@, plan.stride@, q)
                            != key) ==> self.lookup(key) == old(self).lookup(key),
                self.vals_spec() == old(self).vals_spec() + values@.subrange(0, k as int),
            decreases total - k,
        {
            let key = target_index(plan, k);
            let ghost kt = target_key(plan.start@, plan.count@, plan.stride@, k as int);
            self.write(key, values[k]);
            proof {
                assert(self.vals_spec() =~= old(self).vals_spec() + values@.subrange(0, k + 1));
                assert forall|q: int|
                    0 <= q < k + 1 implies self.lookup(
                    #[trigger] target_key(plan.start@, plan.count@, plan.stride@, q),
                ) == Some(values@[q]) by {
                    if q < k {
                        lemma_target_injective(
                            plan.start@,
                            plan.count@,
                            plan.stride@,
                            plan.grow@,
                            q,
                            k as int,
                        );
                    }
                }
            }
            k = k + 1;
        }
    }

    /// Returns what was written at index vector `key`, if anything.
    pub fn read(&self, key: &Vec<usize>) -> (r: Option<i128>)
        requires
            self.wf(),
        ensures
            r == self.lookup(key@),
    {
        let mut i: usize = self.keys.len();
        proof {
            assert(self.keys_spec().take(i as int) =~= self.keys_spec());
            assert(self.vals@.take(i as int) =~= self.vals@);
        }
        while i > 0
            invariant
                i <= self.keys@.len(),
                self.lookup(key@) == assoc_lookup(
                    self.keys_spec().take(i as int),
                    self.vals@.take(i as int),
                    key@,
                ),
            decreases i,
        {
            i = i - 1;
            proof {
                assert(self.keys_spec().take(i + 1).drop_last() =~= self.keys_spec().take(
                    i as int,
                ));
                assert(self.vals@.take(i + 1).drop_last() =~= self.vals@.take(i as int));
                assert(self.keys_spec().take(i + 1).last() == self.keys_spec()[i as int]);
            }
            if usizes_eq(&self.keys[i], key) {
                return Some(self.vals[i]);
            }
        }
        proof {
            assert(self.keys_spec().take(0) =~= Seq::<Seq<usize>>::empty());
        }
        None
    }
}

/// Text cells that have been explicitly written, newest entry last.
/// Values are UTF-8 byte strings; each cell holds one whole string.
#[derive(Debug)]
pub struct TextStore {
    keys: Vec<Vec<usize>>,
    vals: Vec<Vec<u8>>,
}

impl TextStore {
    /// The key sequences seen abstractly.
    pub closed spec fn keys_spec(self) -> Seq<Seq<usize>> {
        self.keys@.map(|i: int, kv: Vec<usize>| kv@)
    }

    /// The value byte strings seen abstractly.
    pub closed spec fn vals_spec(self) -> Seq<Seq<u8>> {
        self.vals@.map(|i: int, vv: Vec<u8>| vv@)
    }

    /// Internal consistency: one value per key.
    pub closed spec fn wf(self) -> bool {
        self.keys@.len() == self.vals@.len()
    }

    /// What the store holds at index vector `k`, if it was ever written.
    pub closed spec fn lookup(self, k: Seq<usize>) -> Option<Seq<u8>> {
        assoc_lookup(self.keys_spec(), self.vals_spec(), k)
    }

    /// An empty store: nothing has been written.
    pub fn new() -> (r: TextStore)
        ensures
            r.wf(),
            forall|k: Seq<usize>| r.lookup(k) is None,
            r.keys_spec() == Seq::<Seq<usize>>::empty(),
            r.vals_spec() == Seq::<Seq<u8>>::empty(),
    {
        let r = TextStore { keys: Vec::new(), vals: Vec::new() };
        proof {
            assert(r.keys_spec() =~= Seq::<Seq<usize>>::empty());
            assert(r.vals_spec() =~= Seq::<Seq<u8>>::empty());
        }
        r
    }

    /// Records a write of `v` at index vector `key`, shadowing any earlier
    /// write there and leaving every other cell as it was.
    pub fn write(&mut self, key: Vec<usize>, v: Vec<u8>)
        requires
            old(self).wf(),
        ensures
            final(self).wf(),
            final(self).lookup(key@) == Some(v@),
            forall|k: Seq<usize>| k != key@ ==> final(self).lookup(k) == old(self).lookup(k),
            final(self).keys_spec() == old(self).keys_spec().push(key@),
            final(self).vals_spec() == old(self).vals_spec().push(v@),
    {
        let ghost old_keys = self.keys_spec();
        let ghost old_vals = self.vals_spec();
        self.keys.push(key);
        self.vals.push(v);
        proof {
            assert(self.keys_spec() =~= old_keys.push(key@));
            assert(self.vals_spec() =~= old_vals.push(v@));
            assert(self.keys_spec().drop_last() =~= old_keys);
            assert(self.vals_spec().drop_last() =~= old_vals);
        }
    }

    /// Machine bounds of the entries: one value per key, and every count,
    /// key length and string length within the index range.
    pub proof fn lemma_entry_shape(self)
        requires
            self.wf(),
        ensures
            self.keys_spec().len() == self.vals_spec().len(),
            self.keys_spec().len() <= usize::MAX,
            forall|i: int|
                0 <= i < self.keys_spec().len() ==> (#[trigger] self.keys_spec()[i]).len()
                    <= usize::MAX,
            forall|i: int|
                0 <= i < self.vals_spec().len() ==> (#[trigger] self.vals_spec()[i]).len()
                    <= usize::MAX,
    {
        vstd::std_specs::vec::axiom_spec_len(&self.keys);
        vstd::std_specs::vec::axiom_spec_len(&self.vals);
        assert forall|i: int|
            0 <= i < self.keys_spec().len() implies (#[trigger] self.keys_spec()[i]).len()
            <= usize::MAX by {
            vstd::std_specs::vec::axiom_spec_len(&self.keys@[i]);
        }
        assert forall|i: int|
            0 <= i < self.vals_spec().len() implies (#[trigger] self.vals_spec()[i]).len()
            <= usize::MAX by {
            vstd::std_specs::vec::axiom_spec_len(&self.vals@[i]);
        }
    }

    /// How many entries the store holds, shadowed writes included.
    pub fn entry_count(&self) -> (r: usize)
        requires
            self.wf(),
        ensures
            r == self.keys_spec().len(),
            r == self.vals_spec().len(),
    {
        self.keys.len()
    }

    /// The `i`-th entry's key.
    pub fn entry_key(&self, i: usize) -> (r: &Vec<usize>)
        requires
            self.wf(),
            i < self.keys_spec().len(),
        ensures
            r@ == self.keys_spec()[i as int],
    {
        &self.keys[i]
    }

    /// The `i`-th entry's value.
    pub fn entry_val(&self, i: usize) -> (r: &Vec<u8>)
        requires
            self.wf(),
            i < self.vals_spec().len(),
        ensures
            r@ == self.vals_spec()[i as int],
    {
        &self.vals[i]
    }

    /// Returns a copy of what was written at index vector `key`, if
    /// anything.
    pub fn read(&self, key: &Vec<usize>) -> (r: Option<Vec<u8>>)
        requires
            self.wf(),
        ensures
            match r {
                Some(v) => self.lookup(key@) == Some(v@),
                None => self.lookup(key@) is None,
            },
    {
        let mut i: usize = self.keys.len();
        proof {
            assert(self.keys_spec().take(i as int) =~= self.keys_spec());
            assert(self.vals_spec().take(i as int) =~= self.vals_spec());
        }
        while i > 0
            invariant
                i <= self.keys@.len(),
                self.lookup(key@) == assoc_lookup(
                    self.keys_spec().take(i as int),
                    self.vals_spec().take(i as int),
                    key@,
                ),
            decreases i,
        {
            i = i - 1;
            proof {
                assert(self.keys_spec().take(i + 1).drop_last() =~= self.keys_spec().take(
                    i as int,
                ));
                assert(self.vals_spec().take(i + 1).drop_last() =~= self.vals_spec().take(
                    i as int,
                ));
                assert(self.keys_spec().take(i + 1).last() == self.keys_spec()[i as int]);
                assert(self.vals_spec().take(i + 1).last() == self.vals_spec()[i as int]);
            }
            if usizes_eq(&self.keys[i], key) {
                return Some(crate::hyperslab::copy_bytes(&self.vals[i]));
            }
        }
        proof {
            assert(self.keys_spec().take(0) =~= Seq::<Seq<usize>>::empty());
        }
        None
    }
}

} // verus!
