//! Kernel bookkeeping: class labels, excitation counts, activation ticks and
//! extinction flags, held in parallel with each kernel's (opaque) shape.
use vstd::prelude::*;
use crate::compaction::compaction_map;
use crate::compaction::compaction_map_spec;
use crate::compaction::keep_survivors;
use crate::compaction::kept_spec;
use crate::compaction::law_kept_follows_map;
use crate::link::inactive_spec;
use crate::link::is_inactive;

verus! {

/// Integer state of one kernel unit: class label (`None` = unlabelled),
/// excitation count, tick of last activation (0 = never), extinct flag.
#[derive(Debug, Clone, Copy)]
pub struct KernelMeta {
    pub class: Option<u32>,
    pub excitation: u64,
    pub last_activated: u64,
    pub extinct: bool,
}

impl KernelMeta {
    /// A fresh kernel: never excited, never activated, alive.
    pub fn new(class: Option<u32>) -> (m: Self)
        ensures
            m == fresh_meta(class),
    {
        KernelMeta { class, excitation: 0, last_activated: 0, extinct: false }
    }

    /// Counts one more activation; the count saturates at `u64::MAX`.
    pub fn increment_excitation(&mut self)
        ensures
            *final(self) == (KernelMeta { excitation: saturating_incr(old(self).excitation), ..*old(self) }),
            old(self).excitation < u64::MAX ==> final(self).excitation == old(self).excitation + 1,
            old(self).excitation == u64::MAX ==> final(self).excitation == u64::MAX,
    {
        self.excitation = self.excitation.saturating_add(1);
    }
}

pub open spec fn fresh_meta(class: Option<u32>) -> KernelMeta {
    KernelMeta { class, excitation: 0, last_activated: 0, extinct: false }
}

pub open spec fn saturating_incr(x: u64) -> u64 {
    if x == u64::MAX {
        x
    } else {
        (x + 1) as u64
    }
}

/// One more activation adds exactly one to the count; only a count already
/// at `u64::MAX` stays put.
pub proof fn law_excitation_counts_every_activation(x: u64)
    ensures
        x < u64::MAX ==> saturating_incr(x) == x + 1,
        x == u64::MAX ==> saturating_incr(x) == u64::MAX,
        saturating_incr(x) >= x,
{
}

/// A kernel joins same-class strengthening exactly when the input carries a
/// label and the kernel carries that same label.
pub proof fn law_same_class_means_equal_labels(m: Option<u32>, class: Option<u32>)
    ensures
        same_class_spec(m, class) <==> (class is Some && m == class),
{
}

/// The extinction rule depends only on the extinct flag, the last
/// activation and the clock: with `p1 != u64::MAX` a kernel is extinct
/// afterwards iff it was already, or more than `p1` ticks passed since its
/// last activation (a last activation after `current_tick` counts as none
/// passed); every other field is kept; `p1 == u64::MAX` changes nothing.
/// The kill count is the number of live kernels that pass that test.
pub proof fn law_expiry_rule(metas: Seq<KernelMeta>, current_tick: u64, p1: u64)
    ensures
        forall|i: int|
            0 <= i < metas.len() ==> {
                let a = #[trigger] after_expiry(metas[i], current_tick, p1);
                &&& a.class == metas[i].class
                &&& a.excitation == metas[i].excitation
                &&& a.last_activated == metas[i].last_activated
                &&& p1 != u64::MAX ==> (a.extinct <==> (metas[i].extinct || (current_tick
                    >= metas[i].last_activated && current_tick - metas[i].last_activated > p1)))
                &&& p1 == u64::MAX ==> a == metas[i]
            },
        expired_count(metas, current_tick, p1) == metas.filter(
            |m: KernelMeta|
                p1 != u64::MAX && !m.extinct && current_tick >= m.last_activated && current_tick
                    - m.last_activated > p1,
        ).len(),
    decreases metas.len(),
{
    let pred = |m: KernelMeta|
        p1 != u64::MAX && !m.extinct && current_tick >= m.last_activated && current_tick
            - m.last_activated > p1;
    if metas.len() > 0 {
        law_expiry_rule(metas.drop_last(), current_tick, p1);
        let rest = metas.drop_last().filter(pred);
        reveal(Seq::filter);
        assert(metas.filter(pred) == if pred(metas.last()) {
            rest.push(metas.last())
        } else {
            rest
        });
        assert(expires(metas.last(), current_tick, p1) == pred(metas.last()));
    }
}

/// The extinct flags of a sequence of kernels.
pub open spec fn extinct_flags(metas: Seq<KernelMeta>) -> Seq<bool> {
    metas.map_values(|m: KernelMeta| m.extinct)
}

/// Whether kernel `m` joins same-class strengthening for an input of class
/// `class`: both must carry the same label (unlabelled never matches).
pub open spec fn same_class_spec(m: Option<u32>, class: Option<u32>) -> bool {
    match (m, class) {
        (Some(a), Some(b)) => a == b,
        _ => false,
    }
}

/// Position `p` holds the first alive kernel of minimal excitation among
/// the alive ones.
pub open spec fn is_first_alive_min(metas: Seq<KernelMeta>, p: int) -> bool {
    &&& 0 <= p < metas.len()
    &&& !metas[p].extinct
    &&& forall|q: int|
        0 <= q < metas.len() && !(#[trigger] metas[q]).extinct ==> metas[p].excitation
            <= metas[q].excitation
    &&& forall|q: int|
        0 <= q < p && !(#[trigger] metas[q]).extinct ==> metas[p].excitation < metas[q].excitation
}

/// The extinction rule applied to one kernel: a live kernel whose last
/// activation is more than `p1` ticks old dies; `p1 == u64::MAX` disables it.
pub open spec fn expires(m: KernelMeta, current_tick: u64, p1: u64) -> bool {
    p1 != u64::MAX && !m.extinct && inactive_spec(current_tick, m.last_activated, p1)
}

pub open spec fn after_expiry(m: KernelMeta, current_tick: u64, p1: u64) -> KernelMeta {
    if expires(m, current_tick, p1) {
        KernelMeta { extinct: true, ..m }
    } else {
        m
    }
}

/// Number of kernels in `metas` that the extinction rule kills.
pub open spec fn expired_count(metas: Seq<KernelMeta>, current_tick: u64, p1: u64) -> nat
    decreases metas.len(),
{
    if metas.len() == 0 {
        0
    } else {
        expired_count(metas.drop_last(), current_tick, p1) + if expires(
            metas.last(),
            current_tick,
            p1,
        ) {
            1nat
        } else {
            0nat
        }
    }
}

/// Kernel store core: one opaque shape `P` (centroid, bandwidth, ...) and one
/// [`KernelMeta`] per kernel, kept in parallel.
pub struct KernelTable<P> {
    shapes: Vec<P>,
    metas: Vec<KernelMeta>,
}

impl<P: Clone> Clone for KernelTable<P> {
    /// A copy with the same bookkeeping and a clone of every shape.
    fn clone(&self) -> (c: Self)
        ensures
            c.metas() == self.metas(),
            c.shapes().len() == self.shapes().len(),
            forall|i: int| 0 <= i < self.shapes().len() ==> cloned::<P>(self.shapes()[i], #[trigger] c.shapes()[i]),
    {
        proof {
            use_type_invariant(self);
        }
        let shapes = self.shapes.clone();
        let metas = self.metas.clone();
        proof {
            assert(metas@ =~= self.metas@);
        }
        KernelTable { shapes, metas }
    }
}

impl<P> KernelTable<P> {
    /// Bookkeeping state of every kernel, by index.
    pub closed spec fn metas(&self) -> Seq<KernelMeta> {
        self.metas@
    }

    /// Shape of every kernel, by index.
    pub closed spec fn shapes(&self) -> Seq<P> {
        self.shapes@
    }

    #[verifier::type_invariant]
    closed spec fn parallel(&self) -> bool {
        self.shapes@.len() == self.metas@.len()
    }

    pub fn new() -> (t: Self)
        ensures
            t.metas() == Seq::<KernelMeta>::empty(),
            t.shapes() == Seq::<P>::empty(),
    {
        KernelTable { shapes: Vec::new(), metas: Vec::new() }
    }

    /// Number of kernels, extinct ones included.
    pub fn len(&self) -> (n: usize)
        ensures
            n == self.metas().len(),
            n == self.shapes().len(),
    {
        proof {
            use_type_invariant(self);
        }
        self.metas.len()
    }

    pub fn is_empty(&self) -> (b: bool)
        ensures
            b == (self.metas().len() == 0),
    {
        self.metas.len() == 0
    }

    /// Appends a new kernel with the given shape and class label.
    pub fn push(&mut self, shape: P, class: Option<u32>)
        ensures
            final(self).metas() == old(self).metas().push(fresh_meta(class)),
            final(self).shapes() == old(self).shapes().push(shape),
    {
        proof {
            use_type_invariant(&*self);
        }
        let mut t = KernelTable::new();
        std::mem::swap(&mut t, self);
        let KernelTable { mut shapes, mut metas } = t;
        shapes.push(shape);
        metas.push(KernelMeta::new(class));
        *self = KernelTable { shapes, metas };
    }

    pub fn shape(&self, i: usize) -> (s: &P)
        requires
            i < self.metas().len(),
        ensures
            *s == self.shapes()[i as int],
    {
        proof {
            use_type_invariant(self);
        }
        &self.shapes[i]
    }

    pub fn meta(&self, i: usize) -> (m: KernelMeta)
        requires
            i < self.metas().len(),
        ensures
            m == self.metas()[i as int],
    {
        self.metas[i]
    }

    pub fn class_opt(&self, i: usize) -> (c: Option<u32>)
        requires
            i < self.metas().len(),
        ensures
            c == self.metas()[i as int].class,
    {
        self.metas[i].class
    }

    /// The class label, with unlabelled kernels read as class 0.
    pub fn class_or_zero(&self, i: usize) -> (c: u32)
        requires
            i < self.metas().len(),
        ensures
            c == match self.metas()[i as int].class {
                Some(c) => c,
                None => 0,
            },
    {
        match self.metas[i].class {
            Some(c) => c,
            None => 0,
        }
    }

    pub fn excitation(&self, i: usize) -> (e: u64)
        requires
            i < self.metas().len(),
        ensures
            e == self.metas()[i as int].excitation,
    {
        self.metas[i].excitation
    }

    pub fn last_activated(&self, i: usize) -> (t: u64)
        requires
            i < self.metas().len(),
        ensures
            t == self.metas()[i as int].last_activated,
    {
        self.metas[i].last_activated
    }

    /// True if kernel `i` is extinct; false for an index beyond the store.
    pub fn is_extinct(&self, i: usize) -> (b: bool)
        ensures
            b == (i < self.metas().len() && self.metas()[i as int].extinct),
    {
        i < self.metas.len() && self.metas[i].extinct
    }

    /// Replaces the bookkeeping state of kernel `i`, leaving the rest intact.
    fn put_meta(&mut self, i: usize, m: KernelMeta)
        requires
            i < old(self).metas().len(),
        ensures
            final(self).metas() == old(self).metas().update(i as int, m),
            final(self).shapes() == old(self).shapes(),
    {
        proof {
            use_type_invariant(&*self);
        }
        let mut t = KernelTable::new();
        std::mem::swap(&mut t, self);
        let KernelTable { shapes, mut metas } = t;
        metas.set(i, m);
        *self = KernelTable { shapes, metas };
    }

    /// Labels a previously unlabelled kernel; a labelled kernel keeps its label.
    pub fn set_class(&mut self, i: usize, class: u32)
        requires
            i < old(self).metas().len(),
        ensures
            final(self).shapes() == old(self).shapes(),
            final(self).metas() == old(self).metas().update(
                i as int,
                KernelMeta {
                    class: if old(self).metas()[i as int].class is None {
                        Some(class)
                    } else {
                        old(self).metas()[i as int].class
                    },
                    ..old(self).metas()[i as int]
                },
            ),
    {
        let mut m = self.metas[i];
        if m.class.is_none() {
            m.class = Some(class);
        }
        self.put_meta(i, m);
    }

    /// Counts one more activation of kernel `i` (saturating).
    pub fn incr_excitation(&mut self, i: usize)
        requires
            i < old(self).metas().len(),
        ensures
            final(self).shapes() == old(self).shapes(),
            final(self).metas() == old(self).metas().update(
                i as int,
                KernelMeta {
                    excitation: saturating_incr(old(self).metas()[i as int].excitation),
                    ..old(self).metas()[i as int]
                },
            ),
            old(self).metas()[i as int].excitation < u64::MAX ==> final(self).metas()[i as int].excitation
                == old(self).metas()[i as int].excitation + 1,
            old(self).metas()[i as int].excitation == u64::MAX ==> final(self).metas()[i as int].excitation
                == u64::MAX,
    {
        let mut m = self.metas[i];
        m.increment_excitation();
        self.put_meta(i, m);
    }

    /// Records that kernel `i` was activated at `tick`.
    pub fn touch(&mut self, i: usize, tick: u64)
        requires
            i < old(self).metas().len(),
        ensures
            final(self).shapes() == old(self).shapes(),
            final(self).metas() == old(self).metas().update(
                i as int,
                KernelMeta { last_activated: tick, ..old(self).metas()[i as int] },
            ),
    {
        let mut m = self.metas[i];
        m.last_activated = tick;
        self.put_meta(i, m);
    }

    /// Marks kernel `i` extinct; it is skipped by activation and growth.
    pub fn mark_extinct(&mut self, i: usize)
        requires
            i < old(self).metas().len(),
        ensures
            final(self).shapes() == old(self).shapes(),
            final(self).metas() == old(self).metas().update(
                i as int,
                KernelMeta { extinct: true, ..old(self).metas()[i as int] },
            ),
    {
        let mut m = self.metas[i];
        m.extinct = true;
        self.put_meta(i, m);
    }

    /// Index of the alive kernel with the globally lowest excitation (the
    /// first one on ties); `None` when every kernel is extinct or the store
    /// is empty.
    pub fn min_excitation_idx(&self) -> (r: Option<usize>)
        ensures
            match r {
                Some(p) => is_first_alive_min(self.metas(), p as int),
                None => forall|q: int|
                    0 <= q < self.metas().len() ==> (#[trigger] self.metas()[q]).extinct,
            },
    {
        let mut best: Option<usize> = None;
        let mut q: usize = 0;
        while q < self.metas.len()
            invariant
                q <= self.metas@.len(),
                match best {
                    Some(p) => p < q && is_first_alive_min(self.metas@.take(q as int), p as int),
                    None => forall|r: int| 0 <= r < q ==> (#[trigger] self.metas@[r]).extinct,
                },
            decreases self.metas.len() - q,
        {
            let m = self.metas[q];
            if !m.extinct {
                match best {
                    None => {
                        best = Some(q);
                    },
                    Some(p) => {
                        if m.excitation < self.metas[p].excitation {
                            best = Some(q);
                        }
                    },
                }
            }
            proof {
                let s = self.metas@.take(q as int + 1);
                assert(s.drop_last() =~= self.metas@.take(q as int));
                match best {
                    Some(p) => {
                        assert forall|r: int|
                            0 <= r < s.len() && !(#[trigger] s[r]).extinct implies s[p as int].excitation
                            <= s[r].excitation by {
                            if r < q {
                                assert(s[r] == self.metas@.take(q as int)[r]);
                            }
                        }
                        assert forall|r: int|
                            0 <= r < p && !(#[trigger] s[r]).extinct implies s[p as int].excitation
                            < s[r].excitation by {
                            assert(s[r] == self.metas@.take(q as int)[r]);
                        }
                    },
                    None => {},
                }
            }
            q = q + 1;
        }
        proof {
            assert(self.metas@.take(self.metas@.len() as int) =~= self.metas@);
        }
        best
    }

    /// Applies the extinction rule to every kernel: each live kernel last
    /// activated more than `p1_kernel` ticks before `current_tick` is marked
    /// extinct (`p1_kernel == u64::MAX` disables the rule). Returns how many
    /// kernels died.
    pub fn expire_inactive(&mut self, current_tick: u64, p1_kernel: u64) -> (n: usize)
        ensures
            final(self).shapes() == old(self).shapes(),
            final(self).metas().len() == old(self).metas().len(),
            forall|i: int|
                0 <= i < old(self).metas().len() ==> #[trigger] final(self).metas()[i]
                    == after_expiry(old(self).metas()[i], current_tick, p1_kernel),
            n == expired_count(old(self).metas(), current_tick, p1_kernel),
            p1_kernel != u64::MAX ==> forall|i: int|
                0 <= i < old(self).metas().len() ==> ((#[trigger] final(self).metas()[i]).extinct <==> (
                old(self).metas()[i].extinct || (current_tick >= old(self).metas()[i].last_activated
                    && current_tick - old(self).metas()[i].last_activated > p1_kernel))),
            forall|i: int|
                0 <= i < old(self).metas().len() ==> (#[trigger] final(self).metas()[i]).class == old(
                    self,
                ).metas()[i].class && final(self).metas()[i].excitation == old(self).metas()[i].excitation
                    && final(self).metas()[i].last_activated == old(self).metas()[i].last_activated,
            p1_kernel == u64::MAX ==> final(self).metas() == old(self).metas(),
            n == old(self).metas().filter(
                |m: KernelMeta|
                    p1_kernel != u64::MAX && !m.extinct && current_tick >= m.last_activated
                        && current_tick - m.last_activated > p1_kernel,
            ).len(),
    {
        proof {
            use_type_invariant(&*self);
        }
        let ghost before = self.metas@;
        let mut t = KernelTable::new();
        std::mem::swap(&mut t, self);
        let KernelTable { shapes, mut metas } = t;
        let mut n: usize = 0;
        if p1_kernel != u64::MAX {
            let mut i: usize = 0;
            while i < metas.len()
                invariant
                    p1_kernel != u64::MAX,
                    metas@.len() == before.len(),
                    i <= before.len(),
                    forall|k: int|
                        0 <= k < i ==> #[trigger] metas@[k] == after_expiry(
                            before[k],
                            current_tick,
                            p1_kernel,
                        ),
                    forall|k: int| i <= k < before.len() ==> #[trigger] metas@[k] == before[k],
                    n == expired_count(before.take(i as int), current_tick, p1_kernel),
                    n <= i,
                decreases before.len() - i,
            {
                proof {
                    assert(before.take(i as int + 1).drop_last() =~= before.take(i as int));
                }
                let m = metas[i];
                if !m.extinct && is_inactive(current_tick, m.last_activated, p1_kernel) {
                    metas.set(i, KernelMeta { extinct: true, ..m });
                    n = n + 1;
                }
                i = i + 1;
            }
        } else {
            proof {
                assert forall|j: int| 0 <= j <= before.len() implies expired_count(
                    #[trigger] before.take(j),
                    current_tick,
                    p1_kernel,
                ) == 0 by {
                    lemma_expired_count_disabled(before.take(j), current_tick, p1_kernel);
                }
            }
        }
        proof {
            assert(before.take(before.len() as int) =~= before);
            law_expiry_rule(before, current_tick, p1_kernel);
            assert forall|i: int| 0 <= i < before.len() implies #[trigger] metas@[i] == after_expiry(
                before[i],
                current_tick,
                p1_kernel,
            ) by {}
            if p1_kernel == u64::MAX {
                assert(metas@ =~= before);
            }
        }
        *self = KernelTable { shapes, metas };
        n
    }

    /// For each index in `indices`, whether its kernel carries the input's
    /// class label `class` (same-class strengthening); unlabelled kernels
    /// and unlabelled inputs never qualify.
    pub fn same_class_mask(&self, indices: &[usize], class: Option<u32>) -> (r: Vec<bool>)
        requires
            forall|k: int| 0 <= k < indices@.len() ==> #[trigger] indices@[k] < self.metas().len(),
        ensures
            r@.len() == indices@.len(),
            forall|k: int|
                0 <= k < indices@.len() ==> #[trigger] r@[k] == same_class_spec(
                    self.metas()[indices@[k] as int].class,
                    class,
                ),
            forall|k: int|
                0 <= k < indices@.len() ==> (#[trigger] r@[k] <==> (class is Some
                    && self.metas()[indices@[k] as int].class == class)),
    {
        let mut r: Vec<bool> = Vec::with_capacity(indices.len());
        let mut k: usize = 0;
        while k < indices.len()
            invariant
                k <= indices@.len(),
                r@.len() == k,
                forall|j: int| 0 <= j < indices@.len() ==> #[trigger] indices@[j] < self.metas().len(),
                forall|j: int|
                    0 <= j < k ==> #[trigger] r@[j] == same_class_spec(
                        self.metas()[indices@[j] as int].class,
                        class,
                    ),
            decreases indices.len() - k,
        {
            let keep = match (self.metas[indices[k]].class, class) {
                (Some(a), Some(b)) => a == b,
                _ => false,
            };
            r.push(keep);
            k = k + 1;
        }
        r
    }

    /// Removes every extinct kernel, compacting shapes and bookkeeping in
    /// lockstep, and returns the old-index -> new-index map (`None` for a
    /// removed kernel).
    pub fn compact_extinct(&mut self) -> (map: Vec<Option<usize>>)
        ensures
            map@ == compaction_map_spec(extinct_flags(old(self).metas())),
            final(self).metas() == kept_spec(old(self).metas(), map@),
            final(self).shapes() == kept_spec(old(self).shapes(), map@),
    {
        proof {
            use_type_invariant(&*self);
        }
        let mut t = KernelTable::new();
        std::mem::swap(&mut t, self);
        let KernelTable { shapes, metas } = t;
        let mut extinct: Vec<bool> = Vec::with_capacity(metas.len());
        let mut i: usize = 0;
        while i < metas.len()
            invariant
                i <= metas@.len(),
                extinct@ =~= extinct_flags(metas@).take(i as int),
            decreases metas.len() - i,
        {
            extinct.push(metas[i].extinct);
            i = i + 1;
        }
        proof {
            assert(extinct_flags(metas@).take(metas@.len() as int) =~= extinct_flags(metas@));
        }
        let map = compaction_map(&extinct);
        let shapes = keep_survivors(shapes, &map);
        let metas = keep_survivors(metas, &map);
        proof {
            lemma_kept_len(shapes@, map@);
            law_parallel_compaction_in_step(old(self).shapes(), old(self).metas(), map@);
        }
        *self = KernelTable { shapes, metas };
        map
    }
}

proof fn lemma_expired_count_disabled(metas: Seq<KernelMeta>, current_tick: u64, p1: u64)
    requires
        p1 == u64::MAX,
    ensures
        expired_count(metas, current_tick, p1) == 0,
    decreases metas.len(),
{
    if metas.len() > 0 {
        lemma_expired_count_disabled(metas.drop_last(), current_tick, p1);
    }
}

proof fn lemma_kept_len<T>(items: Seq<T>, map: Seq<Option<usize>>)
    ensures
        kept_spec(items, map).len() <= items.len(),
    decreases items.len(),
{
    if items.len() > 0 && map.len() > 0 && map.len() == items.len() {
        lemma_kept_len(items.drop_last(), map.drop_last());
    }
}

/// After compaction no kernel is extinct, and every surviving kernel keeps
/// its whole state at its new index.
pub proof fn law_compaction_keeps_survivors(metas: Seq<KernelMeta>)
    requires
        metas.len() <= usize::MAX,
    ensures
        ({
            let map = compaction_map_spec(extinct_flags(metas));
            let kept = kept_spec(metas, map);
            &&& forall|k: int| 0 <= k < kept.len() ==> !(#[trigger] kept[k]).extinct
            &&& forall|i: int|
                0 <= i < metas.len() && !metas[i].extinct ==> kept[(#[trigger] map[i])->0 as int]
                    == metas[i]
        }),
{
    let ex = extinct_flags(metas);
    law_kept_follows_map(metas, ex);
    let map = compaction_map_spec(ex);
    let kept = kept_spec(metas, map);
    assert forall|k: int| 0 <= k < kept.len() implies !(#[trigger] kept[k]).extinct by {
        let i = choose|i: int| 0 <= i < metas.len() && !ex[i] && #[trigger] kept[k] == metas[i];
    }
    assert forall|i: int| 0 <= i < metas.len() && !metas[i].extinct implies kept[(
    #[trigger] map[i])->0 as int] == metas[i] by {
        assert(!ex[i]);
    }
}

/// Data held in parallel with the kernels (one entry per kernel) and
/// compacted with the same map stays in step with them: both keep the same
/// number of entries.
pub proof fn law_parallel_compaction_in_step<A, B>(a: Seq<A>, b: Seq<B>, map: Seq<Option<usize>>)
    requires
        a.len() == b.len(),
    ensures
        kept_spec(a, map).len() == kept_spec(b, map).len(),
    decreases a.len(),
{
    if a.len() > 0 && map.len() > 0 && map.len() == a.len() {
        law_parallel_compaction_in_step(a.drop_last(), b.drop_last(), map.drop_last());
    }
}

} // verus!
