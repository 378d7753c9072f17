//! The integer state a kernel graph carries between ticks (kernel
//! bookkeeping, short-term memory, co-activation counters) and the steps
//! that change all of it together.
use vstd::prelude::*;
use crate::coactivation::CoactivationCounts;
use crate::coactivation::injective_on_survivors;
use crate::coactivation::remap_pair_spec;
use crate::compaction::compaction_map_spec;
use crate::compaction::kept_spec;
use crate::compaction::law_compaction_map_order;
use crate::compaction::removed_count;
use crate::compaction::removed_spec;
use crate::compaction::law_kept_follows_map;
use crate::compaction::law_compaction_removed_count;
use crate::compaction::law_compaction_numbering;
use crate::compaction::law_lockstep_compaction;
use crate::compaction::is_new_index;
use crate::compaction::extinct_count;
use crate::compaction::survivor_count;
use crate::kernels::law_compaction_keeps_survivors;
use crate::compaction::law_compaction_identity;
use crate::compaction::lemma_nothing_removed;
use crate::compaction::remap_spec;
use crate::stm::lemma_reindexed_identity;
use crate::stm::law_reindexed_points_at_survivors;
use crate::kernels::extinct_flags;
use crate::kernels::saturating_incr;
use crate::kernels::KernelMeta;
use crate::kernels::KernelTable;
use crate::stm::is_first_min;
use crate::stm::reindexed;
use crate::stm::Stm;
use crate::kernels::after_expiry;
use crate::kernels::expired_count;
use crate::kernels::same_class_spec;
use crate::labels::excited_spec;
use crate::labels::gained_labels;
use crate::labels::inherit_labels;
use crate::labels::inherit_pass;
use crate::labels::law_pass_counts_new_labels;
use crate::labels::law_pass_keeps_state;
use crate::labels::lemma_excited_below;
use crate::labels::lemma_gained_none;

verus! {

/// Records the activation of kernel `k` at `tick`: its excitation count
/// rises, its last-activation tick is set, and it enters short-term memory
/// (the eviction choice already sees the raised count).
pub fn activate<P>(kernels: &mut KernelTable<P>, stm: &mut Stm, k: usize, tick: u64)
    requires
        k < old(kernels).metas().len(),
        old(stm)@.len() >= old(stm).capacity() ==> forall|q: int|
            0 <= q < old(stm)@.len() ==> #[trigger] old(stm)@[q] < old(kernels).metas().len(),
    ensures
        final(kernels).shapes() == old(kernels).shapes(),
        final(kernels).metas() == old(kernels).metas().update(
            k as int,
            KernelMeta {
                excitation: saturating_incr(old(kernels).metas()[k as int].excitation),
                last_activated: tick,
                ..old(kernels).metas()[k as int]
            },
        ),
        final(stm).capacity() == old(stm).capacity(),
        old(stm)@.len() < old(stm).capacity() ==> final(stm)@ == old(stm)@.push(k),
        old(stm)@.len() >= old(stm).capacity() ==> exists|p: int|
            is_first_min(old(stm)@, final(kernels).metas(), p) && final(stm)@ == old(stm)@.remove(
                p,
            ).push(k),
        (forall|q: int| 0 <= q < old(stm)@.len() ==> #[trigger] old(stm)@[q] < old(kernels).metas().len())
            ==> forall|q: int| 0 <= q < final(stm)@.len() ==> #[trigger] final(stm)@[q] < final(kernels).metas().len(),
{
    kernels.incr_excitation(k);
    kernels.touch(k, tick);
    stm.update(k, kernels);
    proof {
        if !(forall|q: int| 0 <= q < old(stm)@.len() ==> #[trigger] old(stm)@[q] < old(kernels).metas().len()) {
        } else if old(stm)@.len() >= old(stm).capacity() {
            let p = choose|p: int|
                is_first_min(old(stm)@, kernels.metas(), p) && stm@ == old(stm)@.remove(p).push(k);
            assert forall|q: int| 0 <= q < stm@.len() implies #[trigger] stm@[q] < kernels.metas().len() by {
                if q < stm@.len() - 1 {
                    if q < p {
                        assert(stm@[q] == old(stm)@[q]);
                    } else {
                        assert(stm@[q] == old(stm)@[q + 1]);
                    }
                }
            }
        } else {
            assert forall|q: int| 0 <= q < stm@.len() implies #[trigger] stm@[q] < kernels.metas().len() by {
                if q < old(stm)@.len() {
                    assert(stm@[q] == old(stm)@[q]);
                }
            }
        }
    }
}

/// Removes the extinct kernels and carries the short-term memory and the
/// co-activation counters through the same map (only when something was
/// removed). Returns the old-index -> new-index map.
pub fn compact_kernels<P>(
    kernels: &mut KernelTable<P>,
    stm: &mut Stm,
    counts: &mut CoactivationCounts,
) -> (map: Vec<Option<usize>>)
    ensures
        map@ == compaction_map_spec(extinct_flags(old(kernels).metas())),
        final(kernels).metas() == kept_spec(old(kernels).metas(), map@),
        final(kernels).shapes() == kept_spec(old(kernels).shapes(), map@),
        final(stm).capacity() == old(stm).capacity(),
        removed_spec(map@) == 0 ==> final(stm)@ == old(stm)@ && final(counts)@ == old(counts)@,
        (forall|q: int| 0 <= q < old(stm)@.len() ==> #[trigger] old(stm)@[q] < old(kernels).metas().len())
            ==> forall|q: int| 0 <= q < final(stm)@.len() ==> #[trigger] final(stm)@[q] < final(kernels).metas().len(),
        removed_spec(map@) > 0 ==> final(stm)@ == reindexed(old(stm)@, map@),
        (forall|q: int| 0 <= q < old(stm)@.len() ==> #[trigger] old(stm)@[q] < old(kernels).metas().len())
            ==> final(stm)@ == reindexed(old(stm)@, map@),
        removed_spec(map@) > 0 ==> forall|k: (usize, usize)|
            #[trigger] old(counts)@.contains_key(k) && remap_pair_spec(map@, k) is Some ==> {
                let nk = remap_pair_spec(map@, k)->0;
                final(counts)@.contains_key(nk) && final(counts)@[nk] == old(counts)@[k]
            },
        removed_spec(map@) > 0 ==> forall|nk: (usize, usize)|
            #[trigger] final(counts)@.contains_key(nk) ==> exists|k: (usize, usize)|
                #[trigger] old(counts)@.contains_key(k) && remap_pair_spec(map@, k) == Some(nk),
{
    let ghost ex = extinct_flags(kernels.metas());
    let n = kernels.len();
    let map = kernels.compact_extinct();
    let removed = removed_count(&map);
    if removed > 0 {
        proof {
            assert(ex.len() == n);
            assert forall|a: int, b: int|
                0 <= a < map@.len() && 0 <= b < map@.len() && a != b && (#[trigger] map@[a]) is Some
                    && (#[trigger] map@[b]) is Some implies map@[a] != map@[b] by {
                if a < b {
                    law_compaction_map_order(ex, a, b);
                } else {
                    law_compaction_map_order(ex, b, a);
                }
            }
            assert(injective_on_survivors(map@));
        }
        stm.reindex(&map);
        counts.reindex(&map);
        proof {
            law_reindexed_points_at_survivors(old(stm)@, ex);
            law_kept_follows_map(old(kernels).metas(), ex);
        }
    } else {
        proof {
            law_kept_follows_map(old(kernels).metas(), ex);
            law_compaction_removed_count(ex);
            law_compaction_numbering(ex);
            lemma_nothing_removed(map@);
            assert forall|i: int| 0 <= i < ex.len() implies !(#[trigger] ex[i]) by {
                assert(map@[i] is Some);
            }
            law_compaction_identity(ex);
            if forall|q: int| 0 <= q < old(stm)@.len() ==> #[trigger] old(stm)@[q] < old(kernels).metas().len() {
                assert forall|q: int| 0 <= q < old(stm)@.len() implies #[trigger] remap_spec(
                    map@,
                    old(stm)@[q] as int,
                ) == Some(old(stm)@[q]) by {
                    assert(map@[old(stm)@[q] as int] == Some(old(stm)@[q]));
                }
                lemma_reindexed_identity(old(stm)@, map@);
            }
        }
    }
    map
}


/// What compacting a kernel graph does to its integer state (see
/// [`compact_kernels`], which returns `compaction_map_spec` of the extinct
/// flags and leaves exactly these values): the map has one entry per old
/// kernel, `None` exactly for the extinct ones; the survivors are numbered
/// `0, 1, .., k - 1` in increasing old index; each survivor keeps its whole
/// state and its shape at its new index and none of the kept kernels is
/// extinct; the removed count is the extinct count; and the short-term
/// memory keeps, in order, the new indices of its surviving kernels, all
/// below `k`.
pub proof fn law_kernel_compaction<P>(metas: Seq<KernelMeta>, shapes: Seq<P>, stm: Seq<usize>)
    requires
        metas.len() == shapes.len(),
        metas.len() <= usize::MAX,
    ensures
        ({
            let ex = extinct_flags(metas);
            let map = compaction_map_spec(ex);
            let k = survivor_count(ex);
            &&& map.len() == metas.len()
            &&& forall|i: int| 0 <= i < metas.len() ==> ((#[trigger] map[i]) is None <==> metas[i].extinct)
            &&& forall|i: int, j: int|
                0 <= i < j < metas.len() && !metas[i].extinct && !metas[j].extinct ==> (
                #[trigger] map[i])->0 < (#[trigger] map[j])->0
            &&& forall|v: int| 0 <= v < k ==> #[trigger] is_new_index(map, v)
            &&& removed_spec(map) == extinct_count(ex)
            &&& kept_spec(metas, map).len() == k
            &&& kept_spec(shapes, map).len() == k
            &&& k == metas.len() - extinct_count(ex)
            &&& forall|i: int|
                0 <= i < metas.len() && !metas[i].extinct ==> kept_spec(metas, map)[(
                #[trigger] map[i])->0 as int] == metas[i] && kept_spec(shapes, map)[map[i]->0 as int]
                    == shapes[i]
            &&& forall|q: int| 0 <= q < k ==> !(#[trigger] kept_spec(metas, map)[q]).extinct
            &&& forall|q: int| 0 <= q < reindexed(stm, map).len() ==> #[trigger] reindexed(stm, map)[q] < k
        }),
{
    let ex = extinct_flags(metas);
    let map = compaction_map_spec(ex);
    law_compaction_numbering(ex);
    law_lockstep_compaction(metas, shapes, ex);
    law_kept_follows_map(metas, ex);
    assert forall|i: int| 0 <= i < metas.len() implies ((#[trigger] map[i]) is None <==> metas[i].extinct) by {
        assert(ex[i] == metas[i].extinct);
    }
    assert forall|i: int, j: int|
        0 <= i < j < metas.len() && !metas[i].extinct && !metas[j].extinct implies (#[trigger] map[i])->0
        < (#[trigger] map[j])->0 by {
        assert(ex[i] == metas[i].extinct);
        assert(ex[j] == metas[j].extinct);
    }
    assert forall|i: int|
        0 <= i < metas.len() && !metas[i].extinct implies kept_spec(metas, map)[(#[trigger] map[i])->0 as int]
        == metas[i] && kept_spec(shapes, map)[map[i]->0 as int] == shapes[i] by {
        assert(ex[i] == metas[i].extinct);
    }
    law_compaction_keeps_survivors(metas);
    law_reindexed_points_at_survivors(stm, ex);
}


/// Kernel `m` after one activation at `tick`: one more (saturating)
/// excitation, last activated at `tick`.
pub open spec fn activated_meta(m: KernelMeta, tick: u64) -> KernelMeta {
    KernelMeta { excitation: saturating_incr(m.excitation), last_activated: tick, ..m }
}

/// Kernels, counters and newly-labelled count after the label-inheritance
/// pass of a tick (`threshold == u32::MAX` disables it).
pub open spec fn inheritance_result(
    metas: Seq<KernelMeta>,
    counts: Map<(usize, usize), u32>,
    active: Seq<bool>,
    threshold: u32,
) -> (Seq<KernelMeta>, Map<(usize, usize), u32>, nat) {
    if threshold == u32::MAX {
        (metas, counts, 0)
    } else {
        inherit_pass(metas, counts, excited_spec(metas, active, metas.len() as int), 0, threshold)
    }
}

/// Every kernel after the extinction rule of a tick.
pub open spec fn expired_all(metas: Seq<KernelMeta>, tick: u64, p1: u64) -> Seq<KernelMeta> {
    metas.map_values(|m: KernelMeta| after_expiry(m, tick, p1))
}

/// What the integer steps of one kernel-graph tick report.
pub struct TickBookkeeping {
    /// For each activated kernel, whether it takes part in same-class
    /// strengthening.
    pub same_class: Vec<bool>,
    /// Kernels that inherited a label this tick.
    pub newly_labelled: usize,
    /// Kernels that went extinct this tick.
    pub newly_extinct: usize,
}

proof fn lemma_gained_by_class(
    a: Seq<KernelMeta>,
    b: Seq<KernelMeta>,
    c: Seq<KernelMeta>,
    d: Seq<KernelMeta>,
    n: int,
)
    requires
        0 <= n <= a.len(),
        a.len() == b.len(),
        a.len() == c.len(),
        a.len() == d.len(),
        forall|i: int| 0 <= i < a.len() ==> (#[trigger] a[i]).class == c[i].class,
        forall|i: int| 0 <= i < a.len() ==> (#[trigger] b[i]).class == d[i].class,
    ensures
        gained_labels(a, b, n) == gained_labels(c, d, n),
    decreases n,
{
    if n > 0 {
        lemma_gained_by_class(a, b, c, d, n - 1);
        assert(a[n - 1].class == c[n - 1].class);
        assert(b[n - 1].class == d[n - 1].class);
    }
}

/// The integer steps of one kernel-graph tick, in order: kernel `k` is
/// activated at `tick` (see [`activate`]); the activated kernels are
/// checked for same-class strengthening against the input's class;
/// unlabelled co-activated kernels inherit labels (see [`inherit_labels`]);
/// stale kernels go extinct (see [`KernelTable::expire_inactive`]).
/// Across the whole tick, labels are only gained, extinct kernels stay
/// extinct, and the activated kernel is not killed.
pub fn tick_kernels<P>(
    kernels: &mut KernelTable<P>,
    stm: &mut Stm,
    counts: &mut CoactivationCounts,
    k: usize,
    tick: u64,
    activated: &[usize],
    class: Option<u32>,
    active: &[bool],
    threshold: u32,
    p1_kernel: u64,
) -> (r: TickBookkeeping)
    requires
        k < old(kernels).metas().len(),
        old(stm)@.len() >= old(stm).capacity() ==> forall|q: int|
            0 <= q < old(stm)@.len() ==> #[trigger] old(stm)@[q] < old(kernels).metas().len(),
        forall|j: int| 0 <= j < activated@.len() ==> #[trigger] activated@[j] < old(kernels).metas().len(),
    ensures
        ({
            let m0 = old(kernels).metas();
            let m1 = m0.update(k as int, activated_meta(m0[k as int], tick));
            let inh = inheritance_result(m1, old(counts)@, active@, threshold);
            &&& final(kernels).shapes() == old(kernels).shapes()
            &&& final(kernels).metas() == expired_all(inh.0, tick, p1_kernel)
            &&& final(counts)@ == inh.1
            &&& r.newly_labelled == inh.2
            &&& r.newly_extinct == expired_count(inh.0, tick, p1_kernel)
            &&& r.same_class@.len() == activated@.len()
            &&& forall|j: int|
                0 <= j < activated@.len() ==> #[trigger] r.same_class@[j] == same_class_spec(
                    m0[activated@[j] as int].class,
                    class,
                )
            &&& final(stm).capacity() == old(stm).capacity()
            &&& old(stm)@.len() < old(stm).capacity() ==> final(stm)@ == old(stm)@.push(k)
            &&& old(stm)@.len() >= old(stm).capacity() ==> exists|p: int|
                is_first_min(old(stm)@, m1, p) && final(stm)@ == old(stm)@.remove(p).push(k)
            &&& (forall|q: int| 0 <= q < old(stm)@.len() ==> #[trigger] old(stm)@[q] < m0.len())
                ==> forall|q: int| 0 <= q < final(stm)@.len() ==> #[trigger] final(stm)@[q] < m0.len()
            &&& final(kernels).metas().len() == m0.len()
            &&& forall|i: int| 0 <= i < m0.len() && (#[trigger] m0[i]).extinct ==> final(kernels).metas()[i].extinct
            &&& forall|i: int|
                0 <= i < m0.len() && (#[trigger] m0[i]).class is Some ==> final(kernels).metas()[i].class
                    == m0[i].class
            &&& final(kernels).metas()[k as int].extinct == m0[k as int].extinct
            &&& final(kernels).metas()[k as int].last_activated == tick
            &&& r.newly_labelled == gained_labels(m0, final(kernels).metas(), m0.len() as int)
        }),
{
    let ghost m0 = kernels.metas();
    let ghost c0 = counts@;
    let n = kernels.len();
    activate(kernels, stm, k, tick);
    let ghost m1 = kernels.metas();
    proof {
        assert(m1 == m0.update(k as int, activated_meta(m0[k as int], tick)));
    }
    let same_class = kernels.same_class_mask(activated, class);
    let newly_labelled = inherit_labels(kernels, active, counts, threshold);
    let ghost m2 = kernels.metas();
    proof {
        let inh = inheritance_result(m1, c0, active@, threshold);
        if threshold != u32::MAX {
            let ex = excited_spec(m1, active@, m1.len() as int);
            assert(m1.len() == n);
            lemma_excited_below(m1, active@, m1.len() as int);
            law_pass_keeps_state(m1, c0, ex, 0, threshold);
            law_pass_counts_new_labels(m1, c0, ex, 0, threshold);
        } else {
            lemma_gained_none(m1, m1.len() as int);
        }
        assert(m2 == inh.0);
    }
    let newly_extinct = kernels.expire_inactive(tick, p1_kernel);
    proof {
        let m3 = kernels.metas();
        assert(m3 =~= expired_all(m2, tick, p1_kernel));
        assert(m2[k as int].last_activated == tick);
        assert(m3[k as int] == m2[k as int]);
        assert forall|i: int| 0 <= i < m0.len() implies (#[trigger] m0[i]).class == m1[i].class by {}
        assert forall|i: int| 0 <= i < m0.len() implies (#[trigger] m3[i]).class == m2[i].class by {}
        lemma_gained_by_class(m0, m3, m1, m2, m0.len() as int);
    }
    TickBookkeeping { same_class, newly_labelled, newly_extinct }
}

} // verus!
