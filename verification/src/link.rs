//! Integer mechanics of the Hebbian link layer: canonical edge keys, the
//! inactivity (extinction) rule, the co-activation pairs that a strengthen
//! step visits, and the remapping of edge keys after kernel compaction.
use vstd::prelude::*;
use crate::compaction::remap_spec;
use crate::compaction::remap_index;
use crate::compaction::compaction_map_spec;
use crate::compaction::law_compaction_map_order;

verus! {

/// The canonical (undirected) key of the pair `{a, b}`: smaller index first.
pub open spec fn canonical_spec(a: usize, b: usize) -> (usize, usize) {
    if a <= b {
        (a, b)
    } else {
        (b, a)
    }
}

/// Orders an unordered pair of node indices as `(min, max)`; every edge
/// store keys its edges this way.
pub fn canonical(a: usize, b: usize) -> (key: (usize, usize))
    ensures
        key == canonical_spec(a, b),
{
    if a <= b {
        (a, b)
    } else {
        (b, a)
    }
}

/// Edge keys do not depend on the order of the endpoints, and are ordered.
pub proof fn law_canonical_symmetric(a: usize, b: usize)
    ensures
        canonical_spec(a, b) == canonical_spec(b, a),
        canonical_spec(a, b).0 <= canonical_spec(a, b).1,
        (canonical_spec(a, b).0 == a && canonical_spec(a, b).1 == b) || (canonical_spec(a, b).0 == b
            && canonical_spec(a, b).1 == a),
{
}

/// An edge last touched at `last_active` is extinct at `current_tick` when
/// more than `p1` ticks have elapsed (a tick earlier than `last_active`
/// counts as no time elapsed).
pub open spec fn inactive_spec(current_tick: u64, last_active: u64, p1: u64) -> bool {
    current_tick - last_active > p1
}

/// Inactivity extinction test: `current_tick.saturating_sub(last_active) > p1`.
/// An edge survives its `p1`-th inactive tick and dies on the next one.
pub fn is_inactive(current_tick: u64, last_active: u64, p1: u64) -> (dead: bool)
    ensures
        dead == inactive_spec(current_tick, last_active, p1),
        dead == (current_tick >= last_active && current_tick - last_active > p1),
{
    current_tick.saturating_sub(last_active) > p1
}

/// An edge touched at tick `t` survives exactly `p1` inactive ticks: it is
/// alive on the tick it was touched and still at `t + p1`, extinct from
/// `t + p1 + 1` on; touching later never makes it die sooner.
pub proof fn law_inactivity_boundary(t: u64, p1: u64, later: u64, now: u64, then: u64)
    requires
        t + p1 + 1 <= u64::MAX,
    ensures
        !inactive_spec(t, t, p1),
        !inactive_spec((t + p1) as u64, t, p1),
        inactive_spec((t + p1 + 1) as u64, t, p1),
        inactive_spec(now, t, p1) && now <= then ==> inactive_spec(then, t, p1),
        inactive_spec(now, later, p1) && t <= later ==> inactive_spec(now, t, p1),
{
}

/// Positions `k` (in increasing order) whose last-activation tick
/// `last_active[k]` is extinct at `current_tick` under period `p1`.
pub open spec fn inactive_positions_spec(last_active: Seq<u64>, current_tick: u64, p1: u64) -> Seq<
    usize,
>
    decreases last_active.len(),
{
    if last_active.len() == 0 {
        Seq::empty()
    } else {
        let rest = inactive_positions_spec(last_active.drop_last(), current_tick, p1);
        if inactive_spec(current_tick, last_active.last(), p1) {
            rest.push((last_active.len() - 1) as usize)
        } else {
            rest
        }
    }
}

/// Position `k` is selected for pruning iff more than `p1` ticks passed
/// between its last activation and `current_tick` (an edge touched at or
/// after `current_tick` is never selected); positions come out once each,
/// in increasing order.
pub proof fn law_inactive_positions(last_active: Seq<u64>, current_tick: u64, p1: u64)
    requires
        last_active.len() <= usize::MAX,
    ensures
        ({
            let d = inactive_positions_spec(last_active, current_tick, p1);
            &&& forall|k: int|
                0 <= k < last_active.len() ==> (d.contains(k as usize) <==> (current_tick
                    >= #[trigger] last_active[k] && current_tick - last_active[k] > p1))
            &&& forall|q: int| 0 <= q < d.len() ==> (#[trigger] d[q]) < last_active.len()
            &&& forall|q: int, r: int| 0 <= q < r < d.len() ==> d[q] < d[r]
        }),
    decreases last_active.len(),
{
    if last_active.len() > 0 {
        let n = last_active.len() - 1;
        let init = last_active.drop_last();
        law_inactive_positions(init, current_tick, p1);
        let rest = inactive_positions_spec(init, current_tick, p1);
        let d = inactive_positions_spec(last_active, current_tick, p1);
        assert forall|k: int| 0 <= k < last_active.len() implies (d.contains(k as usize) <==> (
        current_tick >= #[trigger] last_active[k] && current_tick - last_active[k] > p1)) by {
            if k < n {
                assert(init[k] == last_active[k]);
                if d.contains(k as usize) {
                    let q = choose|q: int| 0 <= q < d.len() && d[q] == k as usize;
                    if q < rest.len() {
                        assert(rest[q] == d[q]);
                    }
                }
                if rest.contains(k as usize) {
                    let q = choose|q: int| 0 <= q < rest.len() && rest[q] == k as usize;
                    assert(d[q] == rest[q]);
                }
            } else {
                if d.contains(k as usize) {
                    let q = choose|q: int| 0 <= q < d.len() && d[q] == k as usize;
                    if q < rest.len() {
                        assert(rest[q] == d[q]);
                    }
                }
                if inactive_spec(current_tick, last_active.last(), p1) {
                    assert(d[rest.len() as int] == k as usize);
                }
            }
        }
        assert forall|q: int| 0 <= q < d.len() implies (#[trigger] d[q]) < last_active.len() by {
            if q < rest.len() {
                assert(rest[q] == d[q]);
            }
        }
        assert forall|q: int, r: int| 0 <= q < r < d.len() implies d[q] < d[r] by {
            if r < rest.len() {
                assert(rest[q] == d[q]);
                assert(rest[r] == d[r]);
            } else if q < rest.len() {
                assert(rest[q] == d[q]);
            }
        }
    }
}

/// Selects, among edges whose last-activation ticks are listed in
/// `last_active`, the positions of those to be pruned for inactivity.
pub fn inactive_positions(last_active: &[u64], current_tick: u64, p1: u64) -> (dead: Vec<usize>)
    ensures
        dead@ == inactive_positions_spec(last_active@, current_tick, p1),
        forall|k: int|
            0 <= k < last_active@.len() ==> (dead@.contains(k as usize) <==> (current_tick
                >= #[trigger] last_active@[k] && current_tick - last_active@[k] > p1)),
        forall|q: int| 0 <= q < dead@.len() ==> (#[trigger] dead@[q]) < last_active@.len(),
        forall|q: int, r: int| 0 <= q < r < dead@.len() ==> dead@[q] < dead@[r],
{
    let mut dead: Vec<usize> = Vec::new();
    let mut k: usize = 0;
    while k < last_active.len()
        invariant
            k <= last_active.len(),
            dead@ == inactive_positions_spec(last_active@.take(k as int), current_tick, p1),
        decreases last_active.len() - k,
    {
        proof {
            assert(last_active@.take(k as int + 1).drop_last() =~= last_active@.take(k as int));
        }
        if is_inactive(current_tick, last_active[k], p1) {
            dead.push(k);
        }
        k = k + 1;
    }
    proof {
        assert(last_active@.take(last_active.len() as int) =~= last_active@);
        law_inactive_positions(last_active@, current_tick, p1);
    }
    dead
}

/// The canonical key of edge `(a, b)` after both endpoints are carried
/// through the compaction map; `None` when either endpoint was removed.
pub open spec fn remap_edge_spec(map: Seq<Option<usize>>, a: usize, b: usize) -> Option<
    (usize, usize),
> {
    match (remap_spec(map, a as int), remap_spec(map, b as int)) {
        (Some(na), Some(nb)) => Some(canonical_spec(na, nb)),
        _ => None,
    }
}

/// Re-keys an edge after kernel compaction: both endpoints must survive,
/// and the new key is re-canonicalized.
pub fn remap_edge(map: &[Option<usize>], a: usize, b: usize) -> (key: Option<(usize, usize)>)
    ensures
        key == remap_edge_spec(map@, a, b),
{
    match (remap_index(map, a), remap_index(map, b)) {
        (Some(na), Some(nb)) => Some(canonical(na, nb)),
        _ => None,
    }
}

/// Re-keying an edge does not depend on the order of its endpoints, and
/// yields a canonical key.
pub proof fn law_remap_edge_symmetric(map: Seq<Option<usize>>, a: usize, b: usize)
    ensures
        remap_edge_spec(map, a, b) == remap_edge_spec(map, b, a),
        remap_edge_spec(map, a, b) matches Some(k) ==> k.0 <= k.1,
{
}

/// Under a compaction map (which never sends two survivors to one index),
/// two different edges never collapse into one.
pub proof fn law_remap_edge_injective(
    extinct: Seq<bool>,
    a: usize,
    b: usize,
    c: usize,
    d: usize,
)
    requires
        extinct.len() <= usize::MAX,
        canonical_spec(a, b) != canonical_spec(c, d),
        remap_edge_spec(compaction_map_spec(extinct), a, b) is Some,
        remap_edge_spec(compaction_map_spec(extinct), c, d) is Some,
    ensures
        remap_edge_spec(compaction_map_spec(extinct), a, b) != remap_edge_spec(
            compaction_map_spec(extinct),
            c,
            d,
        ),
{
    let map = compaction_map_spec(extinct);
    assert forall|x: int, y: int|
        0 <= x < map.len() && 0 <= y < map.len() && x != y && map[x] is Some && map[y] is Some implies map[x]
        != map[y] by {
        if x < y {
            law_compaction_map_order(extinct, x, y);
        } else {
            law_compaction_map_order(extinct, y, x);
        }
    }
}

/// Node count of an edge store rebuilt under `map`: one more than the
/// largest surviving new index, or zero when nothing survives.
pub open spec fn reindexed_node_count_spec(map: Seq<Option<usize>>) -> int
    decreases map.len(),
{
    if map.len() == 0 {
        0
    } else {
        let rest = reindexed_node_count_spec(map.drop_last());
        match map.last() {
            Some(m) => if m + 1 > rest {
                m + 1
            } else {
                rest
            },
            None => rest,
        }
    }
}

proof fn lemma_reindexed_node_count_bounds(map: Seq<Option<usize>>)
    ensures
        0 <= reindexed_node_count_spec(map) <= usize::MAX as int + 1,
        forall|i: int|
            0 <= i < map.len() && (#[trigger] map[i]) is Some ==> map[i]->0 < reindexed_node_count_spec(
                map,
            ),
    decreases map.len(),
{
    if map.len() > 0 {
        lemma_reindexed_node_count_bounds(map.drop_last());
        assert forall|i: int|
            0 <= i < map.len() && (#[trigger] map[i]) is Some implies map[i]->0
            < reindexed_node_count_spec(map) by {
            if i < map.len() - 1 {
                assert(map.drop_last()[i] == map[i]);
            }
        }
    }
}

/// The node count after reindexing is the least count that holds every
/// surviving node: each new index is below it, and unless it is zero some
/// node is sent to the last index below it.
pub proof fn law_reindexed_node_count(map: Seq<Option<usize>>)
    ensures
        forall|i: int|
            0 <= i < map.len() && (#[trigger] map[i]) is Some ==> map[i]->0 < reindexed_node_count_spec(map),
        reindexed_node_count_spec(map) == 0 || exists|i: int|
            0 <= i < map.len() && #[trigger] map[i] == Some((reindexed_node_count_spec(map) - 1) as usize),
        reindexed_node_count_spec(map) >= 0,
    decreases map.len(),
{
    lemma_reindexed_node_count_bounds(map);
    if map.len() > 0 {
        let init = map.drop_last();
        law_reindexed_node_count(init);
        let r = reindexed_node_count_spec(map);
        let rest = reindexed_node_count_spec(init);
        if r != rest {
            assert(map[map.len() - 1] == Some((r - 1) as usize));
        } else if rest != 0 {
            let i = choose|i: int| 0 <= i < init.len() && #[trigger] init[i] == Some((rest - 1) as usize);
            assert(map[i] == init[i]);
        }
    }
}

/// Computes the node count of an edge store after reindexing under `map`.
pub fn reindexed_node_count(map: &[Option<usize>]) -> (n: usize)
    requires
        forall|i: int| 0 <= i < map@.len() && (#[trigger] map@[i]) is Some ==> map@[i]->0 < usize::MAX,
    ensures
        n as int == reindexed_node_count_spec(map@),
        forall|i: int| 0 <= i < map@.len() && (#[trigger] map@[i]) is Some ==> map@[i]->0 < n,
        n == 0 || exists|i: int| 0 <= i < map@.len() && #[trigger] map@[i] == Some((n - 1) as usize),
{
    let mut n: usize = 0;
    let mut i: usize = 0;
    while i < map.len()
        invariant
            i <= map.len(),
            n as int == reindexed_node_count_spec(map@.take(i as int)),
            forall|j: int| 0 <= j < map@.len() && (#[trigger] map@[j]) is Some ==> map@[j]->0 < usize::MAX,
        decreases map.len() - i,
    {
        proof {
            assert(map@.take(i as int + 1).drop_last() =~= map@.take(i as int));
        }
        match map[i] {
            Some(m) => {
                if m + 1 > n {
                    n = m + 1;
                }
            },
            None => {},
        }
        i = i + 1;
    }
    proof {
        assert(map@.take(map.len() as int) =~= map@);
        lemma_reindexed_node_count_bounds(map@);
        law_reindexed_node_count(map@);
    }
    n
}

/// A CSR edge store is rebuilt once more than a quarter of its slots are dead.
pub open spec fn needs_compaction_spec(dead_count: usize, nnz: usize) -> bool {
    nnz > 0 && 4 * dead_count > nnz
}

/// Auto-compaction trigger of the CSR edge store: more than 25% of its `nnz`
/// slots are dead.
pub fn needs_compaction(dead_count: usize, nnz: usize) -> (compact: bool)
    ensures
        compact == needs_compaction_spec(dead_count, nnz),
{
    nnz > 0 && dead_count > nnz / 4
}

/// `p` is a pair `(i, j)` with `i < j < n`: one of the co-activation pairs
/// that a strengthen step visits among `n` activated kernels.
pub open spec fn is_pair_below(p: (usize, usize), n: usize) -> bool {
    p.0 < p.1 < n
}

/// `p` comes before `q` in lexicographic order.
pub open spec fn pair_lt(p: (usize, usize), q: (usize, usize)) -> bool {
    p.0 < q.0 || (p.0 == q.0 && p.1 < q.1)
}

/// Number of pairs `(i, j)` with `i < j < n` whose first element is below `r`.
pub open spec fn pairs_before_row(n: int, r: int) -> int
    decreases r,
{
    if r <= 0 {
        0
    } else {
        pairs_before_row(n, r - 1) + (n - r)
    }
}

proof fn lemma_pairs_before_row(n: int, r: int)
    requires
        0 <= r <= n,
    ensures
        2 * pairs_before_row(n, r) == r * (2 * n - r - 1),
        0 <= pairs_before_row(n, r),
        forall|s: int| 0 <= s <= r ==> pairs_before_row(n, s) <= pairs_before_row(n, r),
    decreases r,
{
    if r > 0 {
        lemma_pairs_before_row(n, r - 1);
        let prev = pairs_before_row(n, r - 1);
        assert(pairs_before_row(n, r) == prev + (n - r));
        assert(2 * prev == (r - 1) * (2 * n - (r - 1) - 1));
        assert((r - 1) * (2 * n - (r - 1) - 1) + 2 * (n - r) == r * (2 * n - r - 1))
            by (nonlinear_arith);
    } else {
        assert(r * (2 * n - r - 1) == 0) by (nonlinear_arith)
            requires
                r == 0,
        ;
    }
}

proof fn lemma_pairs_total(n: int)
    requires
        0 <= n,
    ensures
        pairs_before_row(n, n) == n * (n - 1) / 2,
        forall|s: int| 0 <= s <= n ==> pairs_before_row(n, s) <= n * (n - 1) / 2,
{
    lemma_pairs_before_row(n, n);
    assert(n * (2 * n - n - 1) == n * (n - 1)) by (nonlinear_arith);
}

/// Lists every co-activation pair `(i, j)` with `i < j < n` exactly once,
/// in lexicographic order. There are `n * (n - 1) / 2` of them.
pub fn coactivation_pairs(n: usize) -> (pairs: Vec<(usize, usize)>)
    requires
        n * (n - 1) / 2 <= usize::MAX,
    ensures
        pairs@.len() == n * (n - 1) / 2,
        forall|k: int| 0 <= k < pairs@.len() ==> is_pair_below(#[trigger] pairs@[k], n),
        forall|k: int, l: int| 0 <= k < l < pairs@.len() ==> pair_lt(pairs@[k], pairs@[l]),
        forall|i: usize, j: usize| i < j < n ==> pairs@.contains((i, j)),
{
    let mut pairs: Vec<(usize, usize)> = Vec::new();
    let mut i: usize = 0;
    proof {
        lemma_pairs_total(n as int);
    }
    while i < n
        invariant
            i <= n,
            n * (n - 1) / 2 <= usize::MAX,
            pairs@.len() == pairs_before_row(n as int, i as int),
            forall|k: int| 0 <= k < pairs@.len() ==> is_pair_below(#[trigger] pairs@[k], n),
            forall|k: int| 0 <= k < pairs@.len() ==> (#[trigger] pairs@[k]).0 < i,
            forall|k: int, l: int| 0 <= k < l < pairs@.len() ==> pair_lt(pairs@[k], pairs@[l]),
            forall|a: usize, b: usize| a < b < n && a < i ==> pairs@.contains((a, b)),
        decreases n - i,
    {
        let ghost before = pairs@;
        proof {
            lemma_pairs_total(n as int);
            assert(pairs_before_row(n as int, i as int + 1) == pairs_before_row(n as int, i as int)
                + (n - 1 - i));
        }
        let mut j: usize = i + 1;
        while j < n
            invariant
                i < n,
                i + 1 <= j <= n,
                pairs@.len() == before.len() + (j - i - 1),
                before.len() + (n - 1 - i) <= usize::MAX,
                pairs@.take(before.len() as int) == before,
                forall|k: int| 0 <= k < before.len() ==> (#[trigger] before[k]).0 < i,
                forall|k: int| 0 <= k < before.len() ==> is_pair_below(#[trigger] before[k], n),
                forall|k: int, l: int| 0 <= k < l < before.len() ==> pair_lt(before[k], before[l]),
                forall|k: int|
                    before.len() <= k < pairs@.len() ==> (#[trigger] pairs@[k]) == (
                    i,
                    (i + 1 + (k - before.len())) as usize,
                ),
            decreases n - j,
        {
            pairs.push((i, j));
            proof {
                assert forall|k: int| 0 <= k < before.len() implies pairs@[k] == before[k] by {
                    assert(pairs@.take(before.len() as int)[k] == pairs@[k]);
                }
                assert(pairs@.take(before.len() as int) =~= before);
            }
            j = j + 1;
        }
        proof {
            assert forall|k: int| 0 <= k < before.len() implies pairs@[k] == before[k] by {
                assert(pairs@.take(before.len() as int)[k] == pairs@[k]);
            }
            assert forall|k: int| 0 <= k < pairs@.len() implies is_pair_below(
                #[trigger] pairs@[k],
                n,
            ) && pairs@[k].0 < i + 1 by {
                if k < before.len() {
                    assert(pairs@[k] == before[k]);
                } else {
                    assert(pairs@[k] == (i, (i + 1 + (k - before.len())) as usize));
                }
            }
            assert forall|k: int, l: int| 0 <= k < l < pairs@.len() implies pair_lt(
                pairs@[k],
                pairs@[l],
            ) by {
                if l < before.len() {
                    assert(pairs@[k] == before[k]);
                    assert(pairs@[l] == before[l]);
                } else if k < before.len() {
                    assert(pairs@[k] == before[k]);
                    assert(pairs@[l] == (i, (i + 1 + (l - before.len())) as usize));
                } else {
                    assert(pairs@[k] == (i, (i + 1 + (k - before.len())) as usize));
                    assert(pairs@[l] == (i, (i + 1 + (l - before.len())) as usize));
                }
            }
            assert forall|a: usize, b: usize| a < b < n && a < i + 1 implies pairs@.contains(
                (a, b),
            ) by {
                if a < i {
                    assert(before.contains((a, b)));
                    let w = choose|w: int| 0 <= w < before.len() && before[w] == (a, b);
                    assert(pairs@[w] == (a, b));
                } else {
                    let w = before.len() + (b - i - 1);
                    assert(pairs@[w] == (a, b));
                }
            }
        }
        i = i + 1;
    }
    proof {
        lemma_pairs_total(n as int);
    }
    pairs
}

/// Whether a tick cycle applies the exponential decay step.
#[derive(Debug, Clone, Copy, PartialEq, Eq, Default)]
pub enum DecayMode {
    #[default]
    Apply,
    Skip,
}

/// Outcome of one link-layer tick cycle.
#[non_exhaustive]
#[derive(Debug, Clone, PartialEq, Eq)]
pub struct SokmReport {
    /// Total live edge count after decay.
    pub edges_alive: usize,
    pub strengthened: usize,
    pub pruned: usize,
}

impl SokmReport {
    /// Assembles a report from the three counts of a tick cycle.
    pub fn new(edges_alive: usize, strengthened: usize, pruned: usize) -> (r: Self)
        ensures
            r.edges_alive == edges_alive,
            r.strengthened == strengthened,
            r.pruned == pruned,
    {
        SokmReport { edges_alive, strengthened, pruned }
    }
}

/// Edge stores that can follow a kernel compaction: every node index is
/// carried through the compaction map, and edges touching a removed node
/// are dropped.
pub trait Reindex {
    fn reindex_for_compact(&mut self, map: &[Option<usize>]);
}

} // verus!
