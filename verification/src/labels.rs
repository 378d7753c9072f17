//! Label inheritance: an unlabelled kernel that keeps firing together with
//! a labelled kernel eventually adopts that kernel's class.
use vstd::prelude::*;
use crate::coactivation::CoactivationCounts;
use crate::kernels::KernelMeta;
use crate::kernels::KernelTable;

verus! {

/// Kernels taking part in one inheritance pass: alive and co-activated this
/// tick (`active[i]`; kernels beyond `active` count as inactive), in
/// increasing index order.
pub open spec fn excited_spec(metas: Seq<KernelMeta>, active: Seq<bool>, n: int) -> Seq<usize>
    decreases n,
{
    if n <= 0 {
        Seq::empty()
    } else {
        let rest = excited_spec(metas, active, n - 1);
        let i = n - 1;
        if i < active.len() && active[i] && !metas[i].extinct {
            rest.push(i as usize)
        } else {
            rest
        }
    }
}

/// The count that pair `(i, j)` reaches with one more co-activation.
pub open spec fn next_count(counts: Map<(usize, usize), u32>, i: usize, j: usize) -> int {
    if counts.contains_key((i, j)) {
        counts[(i, j)] + 1
    } else {
        1
    }
}

/// Unlabelled kernel `i` scans the excited kernels from position `b` on:
/// every other labelled one bumps the pair's counter; the first counter to
/// reach `threshold` is cleared and hands its label to `i`, ending the scan.
/// Yields the kernels, the counters, and whether `i` was labelled.
pub open spec fn inherit_scan(
    metas: Seq<KernelMeta>,
    counts: Map<(usize, usize), u32>,
    i: usize,
    excited: Seq<usize>,
    b: int,
    threshold: u32,
) -> (Seq<KernelMeta>, Map<(usize, usize), u32>, bool)
    decreases excited.len() - b,
{
    if b < 0 || b >= excited.len() {
        (metas, counts, false)
    } else {
        let j = excited[b];
        if j != i && metas[j as int].class is Some {
            let c = next_count(counts, i, j);
            if c >= threshold {
                (
                    metas.update(i as int, KernelMeta { class: metas[j as int].class, ..metas[i as int] }),
                    counts.remove((i, j)),
                    true,
                )
            } else {
                inherit_scan(metas, counts.insert((i, j), c as u32), i, excited, b + 1, threshold)
            }
        } else {
            inherit_scan(metas, counts, i, excited, b + 1, threshold)
        }
    }
}

/// One inheritance pass over the excited kernels from position `a` on:
/// each still-unlabelled one scans for a label (labels given earlier in the
/// pass are already visible). Yields the kernels, the counters, and how
/// many kernels were labelled.
pub open spec fn inherit_pass(
    metas: Seq<KernelMeta>,
    counts: Map<(usize, usize), u32>,
    excited: Seq<usize>,
    a: int,
    threshold: u32,
) -> (Seq<KernelMeta>, Map<(usize, usize), u32>, nat)
    decreases excited.len() - a,
{
    if a < 0 || a >= excited.len() {
        (metas, counts, 0)
    } else {
        let i = excited[a];
        if metas[i as int].class is Some {
            inherit_pass(metas, counts, excited, a + 1, threshold)
        } else {
            let r = inherit_scan(metas, counts, i, excited, 0, threshold);
            let rest = inherit_pass(r.0, r.1, excited, a + 1, threshold);
            (
                rest.0,
                rest.1,
                rest.2 + if r.2 {
                    1nat
                } else {
                    0nat
                },
            )
        }
    }
}

/// The excited kernels among the first `n` have indices below `n`.
pub(crate) proof fn lemma_excited_below(metas: Seq<KernelMeta>, active: Seq<bool>, n: int)
    requires
        n <= usize::MAX,
    ensures
        forall|k: int|
            0 <= k < excited_spec(metas, active, n).len() ==> #[trigger] excited_spec(metas, active, n)[k]
                < n,
    decreases n,
{
    if n > 0 {
        lemma_excited_below(metas, active, n - 1);
        let rest = excited_spec(metas, active, n - 1);
        let e = excited_spec(metas, active, n);
        assert forall|k: int| 0 <= k < e.len() implies #[trigger] e[k] < n by {
            if k < rest.len() {
                assert(e[k] == rest[k]);
            }
        }
    }
}

/// Kernel `x` takes part in an inheritance pass over the first `n` kernels
/// iff it is one of them, it is marked active, and it is alive.
pub proof fn law_excited_kernels(metas: Seq<KernelMeta>, active: Seq<bool>, n: int)
    requires
        n <= usize::MAX,
    ensures
        forall|x: usize|
            #[trigger] excited_spec(metas, active, n).contains(x) <==> (x < n && x < active.len()
                && active[x as int] && !metas[x as int].extinct),
    decreases n,
{
    if n > 0 {
        law_excited_kernels(metas, active, n - 1);
        lemma_excited_below(metas, active, n - 1);
        let rest = excited_spec(metas, active, n - 1);
        let e = excited_spec(metas, active, n);
        assert forall|x: usize|
            #[trigger] e.contains(x) <==> (x < n && x < active.len() && active[x as int]
                && !metas[x as int].extinct) by {
            if e.contains(x) {
                let q = choose|q: int| 0 <= q < e.len() && e[q] == x;
                if q < rest.len() {
                    assert(rest[q] == e[q]);
                    assert(rest.contains(x));
                }
            }
            if x < n - 1 && rest.contains(x) {
                let q = choose|q: int| 0 <= q < rest.len() && rest[q] == x;
                assert(e[q] == rest[q]);
            }
            if x == n - 1 && x < active.len() && active[x as int] && !metas[x as int].extinct {
                assert(e[rest.len() as int] == x);
            }
            if x == n - 1 && rest.contains(x) {
                let q = choose|q: int| 0 <= q < rest.len() && rest[q] == x;
                assert(rest[q] < n - 1);
            }
        }
    }
}

/// Indices of the kernels excited this tick (see [`excited_spec`]).
pub fn excited_kernels<P>(table: &KernelTable<P>, active: &[bool]) -> (e: Vec<usize>)
    ensures
        e@ == excited_spec(table.metas(), active@, table.metas().len() as int),
        forall|k: int| 0 <= k < e@.len() ==> #[trigger] e@[k] < table.metas().len(),
        forall|x: usize|
            #[trigger] e@.contains(x) <==> (x < table.metas().len() && x < active@.len() && active@[x as int]
                && !table.metas()[x as int].extinct),
        forall|u: int, v: int| 0 <= u < v < e@.len() ==> e@[u] < e@[v],
{
    let n = table.len();
    let mut e: Vec<usize> = Vec::new();
    let mut i: usize = 0;
    while i < n
        invariant
            n == table.metas().len(),
            i <= n,
            e@ == excited_spec(table.metas(), active@, i as int),
            forall|k: int| 0 <= k < e@.len() ==> #[trigger] e@[k] < i,
        decreases n - i,
    {
        if i < active.len() && active[i] && !table.is_extinct(i) {
            e.push(i);
        }
        i = i + 1;
    }
    proof {
        law_excited_kernels(table.metas(), active@, n as int);
        lemma_excited_distinct(table.metas(), active@, n as int);
    }
    e
}

proof fn lemma_scan_preserves(
    metas: Seq<KernelMeta>,
    counts: Map<(usize, usize), u32>,
    i: usize,
    excited: Seq<usize>,
    b: int,
    threshold: u32,
)
    requires
        0 <= i < metas.len(),
        forall|k: int| 0 <= k < excited.len() ==> #[trigger] excited[k] < metas.len(),
    ensures
        ({
            let r = inherit_scan(metas, counts, i, excited, b, threshold);
            &&& r.0.len() == metas.len()
            &&& forall|k: int| 0 <= k < metas.len() && k != i ==> #[trigger] r.0[k] == metas[k]
            &&& r.0[i as int].excitation == metas[i as int].excitation
            &&& r.0[i as int].last_activated == metas[i as int].last_activated
            &&& r.0[i as int].extinct == metas[i as int].extinct
            &&& r.2 ==> r.0[i as int].class is Some
            &&& !r.2 ==> r.0[i as int] == metas[i as int]
        }),
    decreases excited.len() - b,
{
    if 0 <= b < excited.len() {
        let j = excited[b];
        if j != i && metas[j as int].class is Some {
            let c = next_count(counts, i, j);
            if c < threshold {
                lemma_scan_preserves(metas, counts.insert((i, j), c as u32), i, excited, b + 1, threshold);
            }
        } else {
            lemma_scan_preserves(metas, counts, i, excited, b + 1, threshold);
        }
    }
}

/// What one inheritance pass keeps: the number and order of kernels, every
/// field but the class label, every existing label, and the count of
/// kernels it labels.
pub proof fn law_pass_keeps_state(
    metas: Seq<KernelMeta>,
    counts: Map<(usize, usize), u32>,
    excited: Seq<usize>,
    a: int,
    threshold: u32,
)
    requires
        0 <= a <= excited.len(),
        forall|k: int| 0 <= k < excited.len() ==> #[trigger] excited[k] < metas.len(),
    ensures
        ({
            let r = inherit_pass(metas, counts, excited, a, threshold);
            &&& r.0.len() == metas.len()
            &&& forall|k: int|
                0 <= k < metas.len() ==> (#[trigger] r.0[k]).excitation == metas[k].excitation
                    && r.0[k].last_activated == metas[k].last_activated && r.0[k].extinct
                    == metas[k].extinct
            &&& forall|k: int|
                0 <= k < metas.len() && (#[trigger] metas[k]).class is Some ==> r.0[k].class
                    == metas[k].class
            &&& r.2 <= excited.len() - a
        }),
    decreases excited.len() - a,
{
    if a < excited.len() {
        let i = excited[a];
        if metas[i as int].class is Some {
            law_pass_keeps_state(metas, counts, excited, a + 1, threshold);
        } else {
            let r = inherit_scan(metas, counts, i, excited, 0, threshold);
            lemma_scan_preserves(metas, counts, i, excited, 0, threshold);
            law_pass_keeps_state(r.0, r.1, excited, a + 1, threshold);
        }
    }
}

/// Number of kernels among the first `n` that are unlabelled in `before`
/// and labelled in `after`.
pub open spec fn gained_labels(before: Seq<KernelMeta>, after: Seq<KernelMeta>, n: int) -> nat
    decreases n,
{
    if n <= 0 {
        0
    } else {
        gained_labels(before, after, n - 1) + if before[n - 1].class is None && after[n
            - 1].class is Some {
            1nat
        } else {
            0nat
        }
    }
}

/// Labels only appear, never disappear, going from `a` to `b`.
pub open spec fn labels_kept(a: Seq<KernelMeta>, b: Seq<KernelMeta>) -> bool {
    &&& a.len() == b.len()
    &&& forall|k: int| 0 <= k < a.len() && (#[trigger] a[k]).class is Some ==> b[k].class is Some
}

proof fn lemma_gained_chain(m0: Seq<KernelMeta>, m1: Seq<KernelMeta>, m2: Seq<KernelMeta>, n: int)
    requires
        labels_kept(m0, m1),
        labels_kept(m1, m2),
        0 <= n <= m0.len(),
    ensures
        gained_labels(m0, m2, n) == gained_labels(m0, m1, n) + gained_labels(m1, m2, n),
    decreases n,
{
    if n > 0 {
        lemma_gained_chain(m0, m1, m2, n - 1);
        if m0[n - 1].class is Some {
            assert(m1[n - 1].class is Some);
        }
    }
}

pub(crate) proof fn lemma_gained_none(m: Seq<KernelMeta>, n: int)
    ensures
        gained_labels(m, m, n) == 0,
    decreases n,
{
    if n > 0 {
        lemma_gained_none(m, n - 1);
    }
}

proof fn lemma_gained_single(m0: Seq<KernelMeta>, m1: Seq<KernelMeta>, i: int, n: int)
    requires
        m0.len() == m1.len(),
        0 <= i < m0.len(),
        0 <= n <= m0.len(),
        forall|k: int| 0 <= k < m0.len() && k != i ==> #[trigger] m1[k] == m0[k],
    ensures
        gained_labels(m0, m1, n) == if i < n && m0[i].class is None && m1[i].class is Some {
            1nat
        } else {
            0nat
        },
    decreases n,
{
    if n > 0 {
        lemma_gained_single(m0, m1, i, n - 1);
    }
}

/// The count an inheritance pass reports is the number of kernels it
/// labelled, and labels are never taken away.
pub proof fn law_pass_counts_new_labels(
    metas: Seq<KernelMeta>,
    counts: Map<(usize, usize), u32>,
    excited: Seq<usize>,
    a: int,
    threshold: u32,
)
    requires
        0 <= a <= excited.len(),
        forall|k: int| 0 <= k < excited.len() ==> #[trigger] excited[k] < metas.len(),
    ensures
        ({
            let r = inherit_pass(metas, counts, excited, a, threshold);
            &&& labels_kept(metas, r.0)
            &&& r.2 == gained_labels(metas, r.0, metas.len() as int)
        }),
    decreases excited.len() - a,
{
    law_pass_keeps_state(metas, counts, excited, a, threshold);
    if a < excited.len() {
        let i = excited[a];
        if metas[i as int].class is Some {
            law_pass_counts_new_labels(metas, counts, excited, a + 1, threshold);
        } else {
            let r = inherit_scan(metas, counts, i, excited, 0, threshold);
            lemma_scan_preserves(metas, counts, i, excited, 0, threshold);
            law_pass_counts_new_labels(r.0, r.1, excited, a + 1, threshold);
            let rest = inherit_pass(r.0, r.1, excited, a + 1, threshold);
            assert(labels_kept(metas, r.0));
            lemma_gained_chain(metas, r.0, rest.0, metas.len() as int);
            lemma_gained_single(metas, r.0, i as int, metas.len() as int);
        }
    } else {
        lemma_gained_none(metas, metas.len() as int);
    }
}

/// No kernel occurs twice in `excited`.
pub open spec fn distinct(excited: Seq<usize>) -> bool {
    forall|u: int, v: int| 0 <= u < v < excited.len() ==> excited[u] != excited[v]
}

/// Kernel `x`, labelled in `after_metas`, holds the label of some other
/// kernel `j` whose co-activation counter with `x` reached `threshold` with
/// one more co-activation (from `before_counts`) and is gone from
/// `after_counts`.
pub open spec fn label_from_cleared_counter(
    before_counts: Map<(usize, usize), u32>,
    after_metas: Seq<KernelMeta>,
    after_counts: Map<(usize, usize), u32>,
    x: usize,
    threshold: u32,
) -> bool {
    exists|j: usize|
        j < after_metas.len() && j != x && after_metas[x as int].class == after_metas[j as int].class
            && #[trigger] next_count(before_counts, x, j) >= threshold && !after_counts.contains_key(
            (x, j),
        )
}

/// The scan of kernel `i` only touches counters of `i`.
proof fn lemma_scan_keeps_other_counters(
    metas: Seq<KernelMeta>,
    counts: Map<(usize, usize), u32>,
    i: usize,
    excited: Seq<usize>,
    b: int,
    threshold: u32,
)
    ensures
        forall|k: (usize, usize)|
            k.0 != i ==> (#[trigger] inherit_scan(metas, counts, i, excited, b, threshold).1.contains_key(k)
                == counts.contains_key(k)) && (counts.contains_key(k) ==> inherit_scan(
                metas,
                counts,
                i,
                excited,
                b,
                threshold,
            ).1[k] == counts[k]),
    decreases excited.len() - b,
{
    let r = inherit_scan(metas, counts, i, excited, b, threshold);
    if 0 <= b < excited.len() {
        let j = excited[b];
        if j != i && metas[j as int].class is Some {
            let c = next_count(counts, i, j);
            if c < threshold {
                let c2 = counts.insert((i, j), c as u32);
                lemma_scan_keeps_other_counters(metas, c2, i, excited, b + 1, threshold);
                let r2 = inherit_scan(metas, c2, i, excited, b + 1, threshold);
                assert(r == r2);
                assert forall|k: (usize, usize)| k.0 != i implies (#[trigger] r.1.contains_key(k)
                    == counts.contains_key(k)) && (counts.contains_key(k) ==> r.1[k] == counts[k]) by {
                    assert(k != (i, j));
                    assert(r2.1.contains_key(k) == c2.contains_key(k));
                    assert(c2.contains_key(k) == counts.contains_key(k));
                    if counts.contains_key(k) {
                        assert(c2[k] == counts[k]);
                    }
                }
            } else {
                assert forall|k: (usize, usize)| k.0 != i implies (#[trigger] r.1.contains_key(k)
                    == counts.contains_key(k)) && (counts.contains_key(k) ==> r.1[k] == counts[k]) by {
                    assert(k != (i, j));
                }
            }
        } else {
            lemma_scan_keeps_other_counters(metas, counts, i, excited, b + 1, threshold);
            let r2 = inherit_scan(metas, counts, i, excited, b + 1, threshold);
            assert(r == r2);
            assert forall|k: (usize, usize)| k.0 != i implies (#[trigger] r.1.contains_key(k)
                == counts.contains_key(k)) && (counts.contains_key(k) ==> r.1[k] == counts[k]) by {
                assert(r2.1.contains_key(k) == counts.contains_key(k));
            }
        }
    }
}

/// When the scan of `i` labels it, the label comes from a partner whose
/// counter reached the threshold, and that counter is cleared.
proof fn lemma_scan_label_source(
    metas: Seq<KernelMeta>,
    counts: Map<(usize, usize), u32>,
    i: usize,
    excited: Seq<usize>,
    b: int,
    threshold: u32,
)
    requires
        distinct(excited),
        0 <= b,
        i < metas.len(),
        forall|k: int| 0 <= k < excited.len() ==> #[trigger] excited[k] < metas.len(),
    ensures
        ({
            let r = inherit_scan(metas, counts, i, excited, b, threshold);
            r.2 ==> exists|t: int|
                b <= t < excited.len() && excited[t] != i && metas[excited[t] as int].class is Some
                    && r.0[i as int].class == metas[excited[t] as int].class && #[trigger] next_count(
                    counts,
                    i,
                    excited[t],
                ) >= threshold && !r.1.contains_key((i, excited[t]))
        }),
    decreases excited.len() - b,
{
    if b < excited.len() {
        let j = excited[b];
        if j != i && metas[j as int].class is Some {
            let c = next_count(counts, i, j);
            if c >= threshold {
                let r = inherit_scan(metas, counts, i, excited, b, threshold);
                assert(next_count(counts, i, excited[b]) >= threshold);
            } else {
                let c2 = counts.insert((i, j), c as u32);
                lemma_scan_label_source(metas, c2, i, excited, b + 1, threshold);
                let r = inherit_scan(metas, counts, i, excited, b, threshold);
                if r.2 {
                    let t = choose|t: int|
                        b + 1 <= t < excited.len() && excited[t] != i && metas[excited[t] as int].class is Some
                            && r.0[i as int].class == metas[excited[t] as int].class
                            && #[trigger] next_count(c2, i, excited[t]) >= threshold
                            && !r.1.contains_key((i, excited[t]));
                    assert(excited[t] != j);
                    assert(next_count(counts, i, excited[t]) == next_count(c2, i, excited[t]));
                }
            }
        } else {
            lemma_scan_label_source(metas, counts, i, excited, b + 1, threshold);
        }
    }
}

/// Counter `k` has the same presence and value in `after` as in `before`.
pub open spec fn counter_kept(
    before: Map<(usize, usize), u32>,
    after: Map<(usize, usize), u32>,
    k: (usize, usize),
) -> bool {
    &&& after.contains_key(k) == before.contains_key(k)
    &&& before.contains_key(k) ==> after[k] == before[k]
}

/// Kernel `x` does not occur in `excited` from position `a` on.
pub open spec fn not_scanned_from(excited: Seq<usize>, a: int, x: usize) -> bool {
    forall|u: int| a <= u < excited.len() ==> excited[u] != x
}

/// A pass leaves kernels it does not scan, and their counters, untouched.
proof fn lemma_pass_keeps_unscanned(
    metas: Seq<KernelMeta>,
    counts: Map<(usize, usize), u32>,
    excited: Seq<usize>,
    a: int,
    threshold: u32,
)
    requires
        0 <= a <= excited.len(),
        forall|k: int| 0 <= k < excited.len() ==> #[trigger] excited[k] < metas.len(),
    ensures
        forall|x: usize|
            x < metas.len() && not_scanned_from(excited, a, x) ==> #[trigger] inherit_pass(
                metas,
                counts,
                excited,
                a,
                threshold,
            ).0[x as int] == metas[x as int],
        forall|k: (usize, usize)|
            not_scanned_from(excited, a, k.0) ==> #[trigger] counter_kept(
                counts,
                inherit_pass(metas, counts, excited, a, threshold).1,
                k,
            ),
    decreases excited.len() - a,
{
    if a < excited.len() {
        let i = excited[a];
        if metas[i as int].class is Some {
            lemma_pass_keeps_unscanned(metas, counts, excited, a + 1, threshold);
            let r = inherit_pass(metas, counts, excited, a, threshold);
            let rest = inherit_pass(metas, counts, excited, a + 1, threshold);
            assert(r == rest);
            assert forall|x: usize|
                x < metas.len() && not_scanned_from(excited, a, x) implies #[trigger] r.0[x as int]
                == metas[x as int] by {
                assert(not_scanned_from(excited, a + 1, x));
            }
            assert forall|k: (usize, usize)|
                not_scanned_from(excited, a, k.0) implies #[trigger] counter_kept(counts, r.1, k) by {
                assert(not_scanned_from(excited, a + 1, k.0));
            }
        } else {
            let sc = inherit_scan(metas, counts, i, excited, 0, threshold);
            lemma_scan_preserves(metas, counts, i, excited, 0, threshold);
            lemma_scan_keeps_other_counters(metas, counts, i, excited, 0, threshold);
            lemma_pass_keeps_unscanned(sc.0, sc.1, excited, a + 1, threshold);
            let r = inherit_pass(metas, counts, excited, a, threshold);
            let rest = inherit_pass(sc.0, sc.1, excited, a + 1, threshold);
            assert(r.0 == rest.0 && r.1 == rest.1);
            assert forall|x: usize|
                x < metas.len() && not_scanned_from(excited, a, x) implies #[trigger] r.0[x as int]
                == metas[x as int] by {
                assert(excited[a] != x);
                assert(not_scanned_from(excited, a + 1, x));
                assert(rest.0[x as int] == sc.0[x as int]);
                assert(sc.0[x as int] == metas[x as int]);
            }
            assert forall|k: (usize, usize)|
                not_scanned_from(excited, a, k.0) implies #[trigger] counter_kept(counts, r.1, k) by {
                assert(excited[a] != k.0);
                assert(not_scanned_from(excited, a + 1, k.0));
                assert(counter_kept(sc.1, rest.1, k));
                assert(rest.1.contains_key(k) == sc.1.contains_key(k));
                assert(sc.1.contains_key(k) == counts.contains_key(k));
                if counts.contains_key(k) {
                    assert(rest.1[k] == sc.1[k]);
                }
            }
        }
    } else {
        let r = inherit_pass(metas, counts, excited, a, threshold);
        assert(r.0 == metas && r.1 == counts);
        assert forall|k: (usize, usize)| not_scanned_from(excited, a, k.0) implies #[trigger] counter_kept(
            counts,
            r.1,
            k,
        ) by {}
    }
}

/// Where an inherited label comes from: every kernel that a pass labels
/// carries the label of another kernel `j` whose co-activation counter with
/// it reached the threshold during the pass, and that counter is cleared.
pub proof fn law_inherited_label_from_cleared_counter(
    metas: Seq<KernelMeta>,
    counts: Map<(usize, usize), u32>,
    excited: Seq<usize>,
    a: int,
    threshold: u32,
)
    requires
        0 <= a <= excited.len(),
        distinct(excited),
        forall|k: int| 0 <= k < excited.len() ==> #[trigger] excited[k] < metas.len(),
    ensures
        ({
            let r = inherit_pass(metas, counts, excited, a, threshold);
            forall|x: usize|
                x < metas.len() && metas[x as int].class is None && (#[trigger] r.0[x as int]).class is Some
                    ==> label_from_cleared_counter(counts, r.0, r.1, x, threshold)
        }),
    decreases excited.len() - a,
{
    if a < excited.len() {
        let i = excited[a];
        if metas[i as int].class is Some {
            law_inherited_label_from_cleared_counter(metas, counts, excited, a + 1, threshold);
        } else {
            let sc = inherit_scan(metas, counts, i, excited, 0, threshold);
            lemma_scan_preserves(metas, counts, i, excited, 0, threshold);
            lemma_scan_keeps_other_counters(metas, counts, i, excited, 0, threshold);
            lemma_scan_label_source(metas, counts, i, excited, 0, threshold);
            law_inherited_label_from_cleared_counter(sc.0, sc.1, excited, a + 1, threshold);
            lemma_pass_keeps_unscanned(sc.0, sc.1, excited, a + 1, threshold);
            law_pass_keeps_state(sc.0, sc.1, excited, a + 1, threshold);
            let r = inherit_pass(metas, counts, excited, a, threshold);
            let rest = inherit_pass(sc.0, sc.1, excited, a + 1, threshold);
            assert(r.0 == rest.0 && r.1 == rest.1);
            assert forall|x: usize|
                x < metas.len() && metas[x as int].class is None && (#[trigger] r.0[x as int]).class is Some
                    implies label_from_cleared_counter(counts, r.0, r.1, x, threshold) by {
                assert(not_scanned_from(excited, a + 1, i));
                if x == i {
                    if sc.2 {
                        let t = choose|t: int|
                            0 <= t < excited.len() && excited[t] != i && metas[excited[t] as int].class is Some
                                && sc.0[i as int].class == metas[excited[t] as int].class
                                && #[trigger] next_count(counts, i, excited[t]) >= threshold
                                && !sc.1.contains_key((i, excited[t]));
                        let j = excited[t];
                        assert(sc.0[j as int] == metas[j as int]);
                        assert(r.0[j as int].class == sc.0[j as int].class);
                        assert(r.0[i as int].class == sc.0[i as int].class);
                        assert(counter_kept(sc.1, rest.1, (i, j)));
                        assert(!r.1.contains_key((i, j)));
                        assert(next_count(counts, x, j) >= threshold);
                    } else {
                        assert(r.0[i as int] == sc.0[i as int]);
                    }
                } else {
                    assert(sc.0[x as int] == metas[x as int]);
                    let j = choose|j: usize|
                        j < r.0.len() && j != x && r.0[x as int].class == r.0[j as int].class
                            && #[trigger] next_count(sc.1, x, j) >= threshold && !r.1.contains_key((x, j));
                    assert(next_count(counts, x, j) == next_count(sc.1, x, j));
                    assert(next_count(counts, x, j) >= threshold);
                }
            }
        }
    }
}

/// The excited kernels come out in strictly increasing index order, so
/// none occurs twice.
pub(crate) proof fn lemma_excited_distinct(metas: Seq<KernelMeta>, active: Seq<bool>, n: int)
    requires
        n <= usize::MAX,
    ensures
        distinct(excited_spec(metas, active, n)),
        forall|u: int, v: int|
            0 <= u < v < excited_spec(metas, active, n).len() ==> excited_spec(metas, active, n)[u]
                < excited_spec(metas, active, n)[v],
    decreases n,
{
    if n > 0 {
        lemma_excited_distinct(metas, active, n - 1);
        lemma_excited_below(metas, active, n - 1);
        let rest = excited_spec(metas, active, n - 1);
        let e = excited_spec(metas, active, n);
        assert forall|u: int, v: int| 0 <= u < v < e.len() implies e[u] < e[v] by {
            if v < rest.len() {
                assert(e[u] == rest[u]);
                assert(e[v] == rest[v]);
            } else {
                assert(e[u] == rest[u]);
            }
        }
    }
}

/// Label inheritance pass (`threshold == u32::MAX` disables it): every
/// alive, co-activated, unlabelled kernel counts its co-activations with the
/// other alive, co-activated, labelled kernels, and adopts the label of the
/// first whose count reaches `threshold`. Returns how many kernels were
/// labelled.
pub fn inherit_labels<P>(
    table: &mut KernelTable<P>,
    active: &[bool],
    counts: &mut CoactivationCounts,
    threshold: u32,
) -> (n: usize)
    ensures
        final(table).shapes() == old(table).shapes(),
        threshold == u32::MAX ==> final(table).metas() == old(table).metas() && final(counts)@
            == old(counts)@ && n == 0,
        threshold != u32::MAX ==> ({
            let r = inherit_pass(
                old(table).metas(),
                old(counts)@,
                excited_spec(old(table).metas(), active@, old(table).metas().len() as int),
                0,
                threshold,
            );
            &&& final(table).metas() == r.0
            &&& final(counts)@ == r.1
            &&& n == r.2
        }),
        threshold != u32::MAX ==> forall|x: usize|
            x < old(table).metas().len() && old(table).metas()[x as int].class is None && (
            #[trigger] final(table).metas()[x as int]).class is Some ==> label_from_cleared_counter(
                old(counts)@,
                final(table).metas(),
                final(counts)@,
                x,
                threshold,
            ),
{
    if threshold == u32::MAX {
        return 0;
    }
    let n_kernels = table.len();
    let excited = excited_kernels(table, active);
    let ghost target = inherit_pass(table.metas(), counts@, excited@, 0, threshold);
    let ghost shapes0 = table.shapes();
    proof {
        law_pass_keeps_state(table.metas(), counts@, excited@, 0, threshold);
        lemma_excited_distinct(table.metas(), active@, n_kernels as int);
        law_inherited_label_from_cleared_counter(table.metas(), counts@, excited@, 0, threshold);
    }
    let mut newly: usize = 0;
    let mut a: usize = 0;
    while a < excited.len()
        invariant
            threshold != u32::MAX,
            a <= excited@.len(),
            forall|k: int| 0 <= k < excited@.len() ==> #[trigger] excited@[k] < table.metas().len(),
            table.shapes() == shapes0,
            target.0 == inherit_pass(table.metas(), counts@, excited@, a as int, threshold).0,
            target.1 == inherit_pass(table.metas(), counts@, excited@, a as int, threshold).1,
            target.2 == newly + inherit_pass(table.metas(), counts@, excited@, a as int, threshold).2,
            target.2 <= excited@.len(),
        decreases excited.len() - a,
    {
        let i = excited[a];
        if table.class_opt(i).is_none() {
            let ghost m0 = table.metas();
            let ghost c0 = counts@;
            let ghost scan = inherit_scan(m0, c0, i, excited@, 0, threshold);
            proof {
                lemma_scan_preserves(m0, c0, i, excited@, 0, threshold);
                law_pass_keeps_state(scan.0, scan.1, excited@, a as int + 1, threshold);
            }
            let mut done = false;
            let mut b: usize = 0;
            while b < excited.len() && !done
                invariant
                    threshold != u32::MAX,
                    b <= excited@.len(),
                    i < m0.len(),
                    m0[i as int].class is None,
                    forall|k: int| 0 <= k < excited@.len() ==> #[trigger] excited@[k] < m0.len(),
                    table.shapes() == shapes0,
                    !done ==> table.metas() == m0,
                    !done ==> inherit_scan(table.metas(), counts@, i, excited@, b as int, threshold)
                        == scan,
                    done ==> (table.metas(), counts@, true) == scan,
                decreases excited.len() - b,
            {
                let j = excited[b];
                if j != i {
                    match table.class_opt(j) {
                        Some(label) => {
                            if counts.record(i, j, threshold) {
                                table.set_class(i, label);
                                done = true;
                            }
                        },
                        None => {},
                    }
                }
                b = b + 1;
            }
            if done {
                newly = newly + 1;
            }
        }
        a = a + 1;
    }
    newly
}

} // verus!
