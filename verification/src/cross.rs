//! Integer mechanics of the directed cross-modal edge store (modality 1 ->
//! modality 2): which co-activated pairs strengthen, and how edge keys follow
//! a compaction of either modality.
use vstd::prelude::*;
use crate::compaction::remap_spec;
use crate::compaction::remap_index;
use std::collections::HashMap;

verus! {

/// Whether kernels labelled `c1` (modality 1) and `c2` (modality 2) form a
/// strengthening pair: both labelled, and with equal labels when a class
/// match is required.
pub open spec fn fires_spec(c1: Option<u32>, c2: Option<u32>, require_class_match: bool) -> bool {
    match (c1, c2) {
        (Some(a), Some(b)) => !require_class_match || a == b,
        _ => false,
    }
}

pub fn class_pair_fires(c1: Option<u32>, c2: Option<u32>, require_class_match: bool) -> (f: bool)
    ensures
        f == fires_spec(c1, c2, require_class_match),
{
    match (c1, c2) {
        (Some(a), Some(b)) => !require_class_match || a == b,
        _ => false,
    }
}

/// The pairs `(i, j)` that modality-1 kernel `i` (label `c1`) forms with the
/// activated modality-2 kernels, in their order.
pub open spec fn row_pairs(
    i: usize,
    c1: Option<u32>,
    m2: Seq<(usize, Option<u32>)>,
    require_class_match: bool,
) -> Seq<(usize, usize)> {
    m2.filter_map(
        |e: (usize, Option<u32>)|
            if fires_spec(c1, e.1, require_class_match) {
                Some((i, e.0))
            } else {
                None
            },
    )
}

/// All strengthening pairs, row by row over the activated modality-1 kernels.
pub open spec fn cross_pairs(
    m1: Seq<(usize, Option<u32>)>,
    m2: Seq<(usize, Option<u32>)>,
    require_class_match: bool,
) -> Seq<(usize, usize)>
    decreases m1.len(),
{
    if m1.len() == 0 {
        Seq::empty()
    } else {
        cross_pairs(m1.drop_last(), m2, require_class_match) + row_pairs(
            m1.last().0,
            m1.last().1,
            m2,
            require_class_match,
        )
    }
}

/// The cross-modal pairs that one tick strengthens, given the activated
/// kernels of each modality with their labels: every (modality-1,
/// modality-2) pair that fires, in row-major order. Unlabelled kernels never
/// take part.
pub fn cross_strengthen_pairs(
    modal1_activated: &[(usize, Option<u32>)],
    modal2_activated: &[(usize, Option<u32>)],
    require_class_match: bool,
) -> (pairs: Vec<(usize, usize)>)
    ensures
        pairs@ == cross_pairs(modal1_activated@, modal2_activated@, require_class_match),
{
    let ghost m1 = modal1_activated@;
    let ghost m2 = modal2_activated@;
    let mut pairs: Vec<(usize, usize)> = Vec::new();
    let mut a: usize = 0;
    while a < modal1_activated.len()
        invariant
            m1 == modal1_activated@,
            m2 == modal2_activated@,
            a <= m1.len(),
            pairs@ == cross_pairs(m1.take(a as int), m2, require_class_match),
        decreases m1.len() - a,
    {
        let (i, c1) = modal1_activated[a];
        let ghost before = pairs@;
        let ghost f = |e: (usize, Option<u32>)|
            if fires_spec(c1, e.1, require_class_match) {
                Some((i, e.0))
            } else {
                None
            };
        let mut b: usize = 0;
        while b < modal2_activated.len()
            invariant
                m2 == modal2_activated@,
                b <= m2.len(),
                f == (|e: (usize, Option<u32>)|
                    if fires_spec(c1, e.1, require_class_match) {
                        Some((i, e.0))
                    } else {
                        None
                    }),
                pairs@ == before + m2.take(b as int).filter_map(f),
            decreases m2.len() - b,
        {
            let (j, c2) = modal2_activated[b];
            let fire = class_pair_fires(c1, c2, require_class_match);
            if fire {
                pairs.push((i, j));
            }
            proof {
                let t = m2.take(b as int + 1);
                assert(t.drop_last() =~= m2.take(b as int));
                assert(t.last() == (j, c2));
                assert(f((j, c2)) == if fire {
                    Some((i, j))
                } else {
                    None
                });
                assert(pairs@ =~= before + t.filter_map(f));
            }
            b = b + 1;
        }
        proof {
            assert(m2.take(m2.len() as int) =~= m2);
            assert(m1.take(a as int + 1).drop_last() =~= m1.take(a as int));
            assert(m1.take(a as int + 1).last() == (i, c1));
            assert(row_pairs(i, c1, m2, require_class_match) == m2.filter_map(f));
        }
        a = a + 1;
    }
    proof {
        assert(m1.take(m1.len() as int) =~= m1);
    }
    pairs
}

/// Every strengthening pair joins two labelled kernels, with equal labels
/// when a class match is required.
pub proof fn law_cross_pairs_are_labelled(
    m1: Seq<(usize, Option<u32>)>,
    m2: Seq<(usize, Option<u32>)>,
    require_class_match: bool,
    p: (usize, usize),
)
    requires
        cross_pairs(m1, m2, require_class_match).contains(p),
    ensures
        exists|a: int, b: int|
            0 <= a < m1.len() && 0 <= b < m2.len() && (#[trigger] m1[a]).0 == p.0 && (#[trigger] m2[b]).0
                == p.1 && fires_spec(m1[a].1, m2[b].1, require_class_match),
    decreases m1.len(),
{
    let rest = cross_pairs(m1.drop_last(), m2, require_class_match);
    let row = row_pairs(m1.last().0, m1.last().1, m2, require_class_match);
    let w = choose|w: int| 0 <= w < (rest + row).len() && (rest + row)[w] == p;
    if w < rest.len() {
        assert(rest[w] == p);
        law_cross_pairs_are_labelled(m1.drop_last(), m2, require_class_match, p);
        let (a, b) = choose|a: int, b: int|
            0 <= a < m1.drop_last().len() && 0 <= b < m2.len() && (#[trigger] m1.drop_last()[a]).0
                == p.0 && (#[trigger] m2[b]).0 == p.1 && fires_spec(
                m1.drop_last()[a].1,
                m2[b].1,
                require_class_match,
            );
        assert(m1[a] == m1.drop_last()[a]);
    } else {
        assert(row.contains(p));
        lemma_row_pairs_fire(m1.last().0, m1.last().1, m2, require_class_match, p);
        let b = choose|b: int|
            0 <= b < m2.len() && (#[trigger] m2[b]).0 == p.1 && p.0 == m1.last().0 && fires_spec(
                m1.last().1,
                m2[b].1,
                require_class_match,
            );
        assert(m1[m1.len() - 1] == m1.last());
    }
}

proof fn lemma_row_pairs_fire(
    i: usize,
    c1: Option<u32>,
    m2: Seq<(usize, Option<u32>)>,
    require_class_match: bool,
    p: (usize, usize),
)
    requires
        row_pairs(i, c1, m2, require_class_match).contains(p),
    ensures
        exists|b: int|
            0 <= b < m2.len() && (#[trigger] m2[b]).0 == p.1 && p.0 == i && fires_spec(
                c1,
                m2[b].1,
                require_class_match,
            ),
    decreases m2.len(),
{
    let f = |e: (usize, Option<u32>)|
        if fires_spec(c1, e.1, require_class_match) {
            Some((i, e.0))
        } else {
            None
        };
    let rows = m2.filter_map(f);
    assert(rows == row_pairs(i, c1, m2, require_class_match));
    let rest = m2.drop_last().filter_map(f);
    assert(row_pairs(i, c1, m2.drop_last(), require_class_match) == rest);
    let w = choose|w: int| 0 <= w < rows.len() && rows[w] == p;
    match f(m2.last()) {
        Some(x) => {
            assert(rows == rest + seq![x]);
            if w < rest.len() {
                assert(rest[w] == p);
                assert(rest.contains(p));
                lemma_row_pairs_fire(i, c1, m2.drop_last(), require_class_match, p);
                let b = choose|b: int|
                    0 <= b < m2.drop_last().len() && (#[trigger] m2.drop_last()[b]).0 == p.1 && p.0 == i
                        && fires_spec(c1, m2.drop_last()[b].1, require_class_match);
                assert(m2[b] == m2.drop_last()[b]);
            } else {
                assert(m2[m2.len() - 1] == m2.last());
            }
        },
        None => {
            assert(rows == rest);
            assert(rest.contains(p));
            lemma_row_pairs_fire(i, c1, m2.drop_last(), require_class_match, p);
            let b = choose|b: int|
                0 <= b < m2.drop_last().len() && (#[trigger] m2.drop_last()[b]).0 == p.1 && p.0 == i
                    && fires_spec(c1, m2.drop_last()[b].1, require_class_match);
            assert(m2[b] == m2.drop_last()[b]);
        },
    }
}

/// The directed edge `(i, j)` after modality 1 is compacted under `map1` and
/// modality 2 under `map2`; `None` when either endpoint was removed.
pub open spec fn remap_cross_spec(
    map1: Seq<Option<usize>>,
    map2: Seq<Option<usize>>,
    i: usize,
    j: usize,
) -> Option<(usize, usize)> {
    match (remap_spec(map1, i as int), remap_spec(map2, j as int)) {
        (Some(ni), Some(nj)) => Some((ni, nj)),
        _ => None,
    }
}

/// Re-keys a cross-modal edge after compaction of the two modalities.
pub fn remap_cross_edge(map1: &[Option<usize>], map2: &[Option<usize>], i: usize, j: usize) -> (r:
    Option<(usize, usize)>)
    ensures
        r == remap_cross_spec(map1@, map2@, i, j),
{
    match (remap_index(map1, i), remap_index(map2, j)) {
        (Some(ni), Some(nj)) => Some((ni, nj)),
        _ => None,
    }
}

/// `sources` with every occurrence of `i` taken out.
pub open spec fn without(sources: Seq<usize>, i: usize) -> Seq<usize> {
    sources.filter_map(other_than(i))
}

pub open spec fn other_than(i: usize) -> spec_fn(usize) -> Option<usize> {
    |s: usize| if s != i { Some(s) } else { None }
}

/// Reverse index of the cross-modal edges: for each modality-2 kernel `j`,
/// the modality-1 kernels with an edge into `j`, in insertion order. A
/// kernel with no incoming edge has no entry.
pub struct SourceIndex {
    sources: HashMap<usize, Vec<usize>>,
}

impl View for SourceIndex {
    type V = Map<usize, Seq<usize>>;

    closed spec fn view(&self) -> Map<usize, Seq<usize>> {
        self.sources@.map_values(|v: Vec<usize>| v@)
    }
}

impl Clone for SourceIndex {
    /// A copy holding the same source lists.
    fn clone(&self) -> (c: Self)
        ensures
            c@ == self@,
    {
        proof {
            use_type_invariant(self);
        }
        SourceIndex { sources: self.sources.clone() }
    }
}

impl SourceIndex {
    #[verifier::type_invariant]
    closed spec fn no_empty_lists(&self) -> bool {
        forall|j: usize| #[trigger] self.sources@.contains_key(j) ==> self.sources@[j]@.len() > 0
    }

    pub fn new() -> (r: Self)
        ensures
            r@ == Map::<usize, Seq<usize>>::empty(),
    {
        let r = SourceIndex { sources: HashMap::new() };
        proof {
            assert(r@ =~= Map::<usize, Seq<usize>>::empty());
        }
        r
    }

    /// Records a new edge `i -> j`.
    pub fn add(&mut self, i: usize, j: usize)
        ensures
            final(self)@ == old(self)@.insert(
                j,
                if old(self)@.contains_key(j) {
                    old(self)@[j]
                } else {
                    Seq::<usize>::empty()
                }.push(i),
            ),
    {
        broadcast use vstd::std_specs::hash::group_hash_axioms;

        proof {
            use_type_invariant(&*self);
        }
        let mut m: HashMap<usize, Vec<usize>> = HashMap::new();
        std::mem::swap(&mut m, &mut self.sources);
        let ghost m0 = m@;
        let mut list = match m.remove(&j) {
            Some(v) => v,
            None => Vec::new(),
        };
        list.push(i);
        m.insert(j, list);
        proof {
            assert(m@ == m0.insert(j, list));
        }
        self.sources = m;
        proof {
            assert(self@ =~= old(self)@.insert(
                j,
                if old(self)@.contains_key(j) {
                    old(self)@[j]
                } else {
                    Seq::<usize>::empty()
                }.push(i),
            ));
        }
    }

    /// Forgets edge `i -> j`: `i` leaves the source list of `j`, and `j`
    /// loses its entry once the list is empty.
    pub fn remove(&mut self, i: usize, j: usize)
        ensures
            !old(self)@.contains_key(j) ==> final(self)@ == old(self)@,
            old(self)@.contains_key(j) && without(old(self)@[j], i).len() == 0 ==> final(self)@
                == old(self)@.remove(j),
            old(self)@.contains_key(j) && without(old(self)@[j], i).len() > 0 ==> final(self)@
                == old(self)@.insert(j, without(old(self)@[j], i)),
    {
        broadcast use vstd::std_specs::hash::group_hash_axioms;

        proof {
            use_type_invariant(&*self);
        }
        let mut m: HashMap<usize, Vec<usize>> = HashMap::new();
        std::mem::swap(&mut m, &mut self.sources);
        let ghost m0 = m@;
        match m.remove(&j) {
            Some(list) => {
                let ghost f = other_than(i);
                let mut kept: Vec<usize> = Vec::new();
                let mut k: usize = 0;
                while k < list.len()
                    invariant
                        k <= list@.len(),
                        f == other_than(i),
                        kept@ == list@.take(k as int).filter_map(f),
                    decreases list.len() - k,
                {
                    let s = list[k];
                    if s != i {
                        kept.push(s);
                    }
                    proof {
                        let t = list@.take(k as int + 1);
                        assert(t.drop_last() =~= list@.take(k as int));
                        assert(t.last() == s);
                        assert(kept@ =~= t.filter_map(f));
                    }
                    k = k + 1;
                }
                proof {
                    assert(list@.take(list@.len() as int) =~= list@);
                    assert(m0.contains_key(j) && m0[j] == list);
                    assert(kept@ == list@.filter_map(f));

                }
                if kept.len() > 0 {
                    m.insert(j, kept);
                }
            },
            None => {},
        }
        self.sources = m;
        proof {
            if old(self)@.contains_key(j) {
                if without(old(self)@[j], i).len() == 0 {
                    assert(self@ =~= old(self)@.remove(j));
                } else {
                    assert(self@ =~= old(self)@.insert(j, without(old(self)@[j], i)));
                }
            } else {
                assert(self@ =~= old(self)@);
            }
        }
    }

    /// The modality-1 kernels with an edge into `j` (empty when none).
    pub fn sources(&self, j: usize) -> (r: Vec<usize>)
        ensures
            r@ == if self@.contains_key(j) {
                self@[j]
            } else {
                Seq::<usize>::empty()
            },
    {
        broadcast use vstd::std_specs::hash::group_hash_axioms;

        match self.sources.get(&j) {
            Some(v) => {
                let r = v.clone();
                proof {
                    assert(r@ =~= v@);
                }
                r
            },
            None => Vec::new(),
        }
    }

    /// Forgets every edge.
    pub fn clear(&mut self)
        ensures
            final(self)@ == Map::<usize, Seq<usize>>::empty(),
    {
        self.sources = HashMap::new();
        proof {
            assert(self@ =~= Map::<usize, Seq<usize>>::empty());
        }
    }
}

} // verus!
