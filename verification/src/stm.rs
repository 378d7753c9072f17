//! Short-term memory: a bounded working set of kernel indices with
//! excitation-based eviction.
use vstd::prelude::*;
use crate::compaction::remap_spec;
use crate::compaction::remap_index;
use crate::compaction::compaction_map_spec;
use crate::compaction::survivor_count;
use crate::kernels::KernelMeta;
use crate::kernels::KernelTable;

verus! {

/// Working memory bounded by excitation-based eviction.
///
/// Holds indices into a kernel store. When at capacity, evicts the kernel
/// with the lowest excitation count; among equally low ones, the one that
/// entered first.
#[derive(Debug)]
pub struct Stm {
    capacity: usize,
    indices: Vec<usize>,
}

/// Position `p` of `indices` holds the first kernel of minimal excitation.
pub open spec fn is_first_min(indices: Seq<usize>, metas: Seq<KernelMeta>, p: int) -> bool {
    &&& 0 <= p < indices.len()
    &&& forall|q: int|
        0 <= q < indices.len() ==> metas[indices[p] as int].excitation <= metas[#[trigger] indices[q] as int].excitation
    &&& forall|q: int|
        0 <= q < p ==> metas[indices[p] as int].excitation < metas[#[trigger] indices[q] as int].excitation
}

/// The indices that survive a reindex under `map`, in their previous order.
pub open spec fn reindexed(indices: Seq<usize>, map: Seq<Option<usize>>) -> Seq<usize> {
    indices.filter_map(|idx: usize| remap_spec(map, idx as int))
}

/// After a compaction, every index the working memory still holds points
/// at a surviving kernel: it is below the number of survivors.
pub proof fn law_reindexed_points_at_survivors(indices: Seq<usize>, extinct: Seq<bool>)
    requires
        extinct.len() <= usize::MAX,
    ensures
        forall|k: int|
            0 <= k < reindexed(indices, compaction_map_spec(extinct)).len() ==> (#[trigger] reindexed(
                indices,
                compaction_map_spec(extinct),
            )[k]) < survivor_count(extinct),
    decreases indices.len(),
{
    let map = compaction_map_spec(extinct);
    let f = |idx: usize| remap_spec(map, idx as int);
    if indices.len() > 0 {
        law_reindexed_points_at_survivors(indices.drop_last(), extinct);
        let r = reindexed(indices, map);
        let rest = reindexed(indices.drop_last(), map);
        assert(r == indices.filter_map(f));
        assert(rest == indices.drop_last().filter_map(f));
        let last = indices.last() as int;
        match f(indices.last()) {
            Some(v) => {
                assert(r == rest + seq![v]);
                assert(0 <= last < extinct.len() && !extinct[last]);
                crate::compaction::lemma_map_value_bound(extinct, last);
                assert forall|k: int| 0 <= k < r.len() implies #[trigger] r[k] < survivor_count(
                    extinct,
                ) by {
                    if k < rest.len() {
                        assert(r[k] == rest[k]);
                    }
                }
            },
            None => {
                assert(r == rest);
            },
        }
    }
}

/// Reindexing under a map that sends every held index to itself changes
/// nothing.
pub(crate) proof fn lemma_reindexed_identity(indices: Seq<usize>, map: Seq<Option<usize>>)
    requires
        forall|k: int|
            0 <= k < indices.len() ==> #[trigger] remap_spec(map, indices[k] as int) == Some(indices[k]),
    ensures
        reindexed(indices, map) == indices,
    decreases indices.len(),
{
    if indices.len() > 0 {
        let f = |idx: usize| remap_spec(map, idx as int);
        let rest = indices.drop_last();
        assert forall|k: int| 0 <= k < rest.len() implies #[trigger] remap_spec(map, rest[k] as int)
            == Some(rest[k]) by {
            assert(rest[k] == indices[k]);
        }
        lemma_reindexed_identity(rest, map);
        assert(remap_spec(map, indices[indices.len() - 1] as int) == Some(indices.last()));
        assert(reindexed(indices, map) == indices.filter_map(f));
        assert(rest.filter_map(f) == reindexed(rest, map));
        assert(indices.filter_map(f) == rest.filter_map(f) + seq![indices.last()]);
        assert(rest + seq![indices.last()] =~= indices);
    }
}

/// Length of the working memory after one [`Stm::update`] on a memory of
/// length `len` and the given capacity.
pub open spec fn len_after_update(len: nat, capacity: nat) -> nat {
    if len < capacity {
        len + 1
    } else {
        len
    }
}

/// Length of a fresh working memory (as [`Stm::new`] makes it) after `n`
/// calls of [`Stm::update`].
pub open spec fn len_after_updates(capacity: nat, n: nat) -> nat
    decreases n,
{
    if n == 0 {
        0
    } else {
        len_after_update(len_after_updates(capacity, (n - 1) as nat), capacity)
    }
}

/// A fresh working memory holds `min(n, capacity)` indices after `n`
/// updates: it is not full before the `capacity`-th update and is full from
/// that update on.
pub proof fn law_stm_fills_after_capacity_updates(capacity: nat, n: nat)
    requires
        capacity > 0,
    ensures
        len_after_updates(capacity, n) == if n < capacity {
            n
        } else {
            capacity
        },
        (len_after_updates(capacity, n) >= capacity) <==> (n >= capacity),
    decreases n,
{
    if n > 0 {
        law_stm_fills_after_capacity_updates(capacity, (n - 1) as nat);
    }
}

impl Clone for Stm {
    fn clone(&self) -> (c: Self)
        ensures
            c@ == self@,
            c.capacity() == self.capacity(),
    {
        proof {
            use_type_invariant(self);
        }
        let indices = self.indices.clone();
        proof {
            assert(indices@ =~= self.indices@);
        }
        Stm { capacity: self.capacity, indices }
    }
}

impl View for Stm {
    type V = Seq<usize>;

    /// The kernel indices currently held, oldest first.
    closed spec fn view(&self) -> Seq<usize> {
        self.indices@
    }
}

impl Stm {
    /// Maximum number of kernel indices held at once.
    pub closed spec fn capacity(&self) -> nat {
        self.capacity as nat
    }

    #[verifier::type_invariant]
    closed spec fn within_capacity(&self) -> bool {
        0 < self.capacity && self.indices@.len() <= self.capacity
    }

    /// An empty working memory holding at most `capacity` indices.
    pub fn new(capacity: usize) -> (s: Self)
        requires
            capacity > 0,
        ensures
            s@ == Seq::<usize>::empty(),
            s.capacity() == capacity,
    {
        Stm { capacity, indices: Vec::with_capacity(capacity) }
    }

    pub fn len(&self) -> (n: usize)
        ensures
            n == self@.len(),
            n <= self.capacity(),
            0 < self.capacity(),
    {
        proof {
            use_type_invariant(self);
        }
        self.indices.len()
    }

    pub fn is_empty(&self) -> (b: bool)
        ensures
            b == (self@.len() == 0),
    {
        self.indices.len() == 0
    }

    pub fn is_full(&self) -> (b: bool)
        ensures
            b == (self@.len() >= self.capacity()),
            b == (self@.len() == self.capacity()),
    {
        proof {
            use_type_invariant(self);
        }
        self.indices.len() >= self.capacity
    }

    pub fn indices(&self) -> (s: &[usize])
        ensures
            s@ == self@,
    {
        self.indices.as_slice()
    }

    /// Remaps kernel indices after extinct kernels are compacted away.
    /// Indices mapped to `None`, or lying beyond the map, are dropped; the
    /// survivors keep their order. Capacity is unchanged.
    pub fn reindex(&mut self, map: &[Option<usize>])
        ensures
            final(self)@ == reindexed(old(self)@, map@),
            final(self).capacity() == old(self).capacity(),
            final(self)@.len() <= old(self)@.len(),
    {
        proof {
            use_type_invariant(&*self);
        }
        let ghost old_indices = self.indices@;
        let mut kept: Vec<usize> = Vec::new();
        let mut k: usize = 0;
        while k < self.indices.len()
            invariant
                self.indices@ == old_indices,
                k <= old_indices.len(),
                kept@ == reindexed(old_indices.take(k as int), map@),
                kept@.len() <= k,
            decreases self.indices.len() - k,
        {
            proof {
                assert(old_indices.take(k as int + 1).drop_last() =~= old_indices.take(k as int));
            }
            match remap_index(map, self.indices[k]) {
                Some(n) => kept.push(n),
                None => {},
            }
            k = k + 1;
        }
        proof {
            assert(old_indices.take(old_indices.len() as int) =~= old_indices);
        }
        self.indices = kept;
    }

    /// Adds `kernel_idx` as the newest entry. When already full, first
    /// evicts the entry whose kernel (in `kernels`) has the lowest
    /// excitation count; ties evict the oldest.
    pub fn update<P>(&mut self, kernel_idx: usize, kernels: &KernelTable<P>)
        requires
            old(self)@.len() >= old(self).capacity() ==> forall|k: int|
                0 <= k < old(self)@.len() ==> #[trigger] old(self)@[k] < kernels.metas().len(),
        ensures
            final(self).capacity() == old(self).capacity(),
            final(self)@.len() <= final(self).capacity(),
            final(self)@.last() == kernel_idx,
            final(self)@.len() == len_after_update(old(self)@.len(), old(self).capacity()),
            old(self)@.len() < old(self).capacity() ==> final(self)@ == old(self)@.push(kernel_idx),
            old(self)@.len() >= old(self).capacity() ==> exists|p: int|
                is_first_min(old(self)@, kernels.metas(), p) && final(self)@ == old(self)@.remove(
                    p,
                ).push(kernel_idx),
    {
        proof {
            use_type_invariant(&*self);
        }
        let mut indices: Vec<usize> = Vec::new();
        std::mem::swap(&mut indices, &mut self.indices);
        if indices.len() >= self.capacity {
            let mut best: usize = 0;
            let mut q: usize = 1;
            while q < indices.len()
                invariant
                    0 < indices.len(),
                    best < q <= indices.len(),
                    forall|k: int|
                        0 <= k < indices@.len() ==> #[trigger] indices@[k]
                            < kernels.metas().len(),
                    forall|r: int|
                        0 <= r < q ==> kernels.metas()[indices@[best as int] as int].excitation
                            <= kernels.metas()[#[trigger] indices@[r] as int].excitation,
                    forall|r: int|
                        0 <= r < best ==> kernels.metas()[indices@[best as int] as int].excitation
                            < kernels.metas()[#[trigger] indices@[r] as int].excitation,
                decreases indices.len() - q,
            {
                if kernels.excitation(indices[q]) < kernels.excitation(indices[best]) {
                    best = q;
                }
                q = q + 1;
            }
            proof {
                assert(is_first_min(indices@, kernels.metas(), best as int));
            }
            indices.remove(best);
        }
        indices.push(kernel_idx);
        self.indices = indices;
    }
}

} // verus!
