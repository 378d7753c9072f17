//! Index maps produced when extinct kernels are removed, and the operations
//! that carry positional data through such a map.
//!
//! A *compaction map* has one entry per old position: `None` when the item at
//! that position was removed, `Some(new_position)` when it survived.
use vstd::prelude::*;

verus! {

/// Where `map` sends old position `idx`; positions past the end of the map
/// are treated as removed.
pub open spec fn remap_spec(map: Seq<Option<usize>>, idx: int) -> Option<usize> {
    if 0 <= idx < map.len() {
        map[idx]
    } else {
        None
    }
}

/// Number of `false` entries (surviving items) in `extinct`.
pub open spec fn survivor_count(extinct: Seq<bool>) -> nat
    decreases extinct.len(),
{
    if extinct.len() == 0 {
        0
    } else {
        survivor_count(extinct.drop_last()) + if extinct.last() {
            0nat
        } else {
            1nat
        }
    }
}

/// Number of `None` entries (removed items) in `map`.
pub open spec fn removed_spec(map: Seq<Option<usize>>) -> nat
    decreases map.len(),
{
    if map.len() == 0 {
        0
    } else {
        removed_spec(map.drop_last()) + if map.last() is None {
            1nat
        } else {
            0nat
        }
    }
}

/// The compaction map for the extinct flags `extinct`: each surviving
/// position is numbered by how many survivors precede it.
pub open spec fn compaction_map_spec(extinct: Seq<bool>) -> Seq<Option<usize>> {
    Seq::new(
        extinct.len(),
        |i: int|
            if extinct[i] {
                None
            } else {
                Some(survivor_count(extinct.take(i)) as usize)
            },
    )
}

/// The items of `items` whose position survives under `map`, in the order
/// they had.
pub open spec fn kept_spec<T>(items: Seq<T>, map: Seq<Option<usize>>) -> Seq<T>
    decreases items.len(),
{
    if items.len() == 0 || map.len() == 0 {
        Seq::empty()
    } else if map.len() != items.len() {
        Seq::empty()
    } else {
        let rest = kept_spec(items.drop_last(), map.drop_last());
        if map.last() is Some {
            rest.push(items.last())
        } else {
            rest
        }
    }
}

proof fn lemma_survivor_count_bound(extinct: Seq<bool>)
    ensures
        survivor_count(extinct) <= extinct.len(),
    decreases extinct.len(),
{
    if extinct.len() > 0 {
        lemma_survivor_count_bound(extinct.drop_last());
    }
}

proof fn lemma_survivor_count_monotone(extinct: Seq<bool>, i: int, j: int)
    requires
        0 <= i <= j <= extinct.len(),
    ensures
        survivor_count(extinct.take(i)) <= survivor_count(extinct.take(j)),
    decreases j - i,
{
    if i < j {
        lemma_survivor_count_monotone(extinct, i, j - 1);
        assert(extinct.take(j).drop_last() =~= extinct.take(j - 1));
    }
}

proof fn lemma_compaction_map_drop_last(extinct: Seq<bool>)
    requires
        extinct.len() > 0,
    ensures
        compaction_map_spec(extinct.drop_last()) == compaction_map_spec(extinct).drop_last(),
{
    assert forall|i: int| 0 <= i < extinct.len() - 1 implies extinct.drop_last().take(i) =~= extinct.take(
        i,
    ) by {}
    assert(compaction_map_spec(extinct.drop_last()) =~= compaction_map_spec(extinct).drop_last());
}

/// Compaction preserves the relative order of survivors, and numbers them
/// below the survivor count.
pub proof fn law_compaction_map_order(extinct: Seq<bool>, i: int, j: int)
    requires
        extinct.len() <= usize::MAX,
        0 <= i < j < extinct.len(),
        !extinct[i],
        !extinct[j],
    ensures
        compaction_map_spec(extinct)[i]->0 < compaction_map_spec(extinct)[j]->0,
        compaction_map_spec(extinct)[j]->0 < survivor_count(extinct),
{
    assert(extinct.take(i + 1).drop_last() =~= extinct.take(i));
    assert(extinct.take(j + 1).drop_last() =~= extinct.take(j));
    lemma_survivor_count_monotone(extinct, i + 1, j);
    lemma_survivor_count_monotone(extinct, j + 1, extinct.len() as int);
    lemma_survivor_count_bound(extinct.take(i));
    lemma_survivor_count_bound(extinct.take(j));
    assert(extinct.take(extinct.len() as int) =~= extinct);
}

pub(crate) proof fn lemma_map_value_bound(extinct: Seq<bool>, i: int)
    requires
        extinct.len() <= usize::MAX,
        0 <= i < extinct.len(),
        !extinct[i],
    ensures
        compaction_map_spec(extinct)[i] == Some(survivor_count(extinct.take(i)) as usize),
        survivor_count(extinct.take(i)) < survivor_count(extinct),
        (survivor_count(extinct.take(i)) as usize) as int == survivor_count(extinct.take(i)),
{
    assert(extinct.take(i + 1).drop_last() =~= extinct.take(i));
    lemma_survivor_count_monotone(extinct, i + 1, extinct.len() as int);
    lemma_survivor_count_bound(extinct.take(i));
    assert(extinct.take(extinct.len() as int) =~= extinct);
}

/// With nothing extinct the compaction map is the identity, and compaction
/// keeps every item in place.
pub proof fn law_compaction_identity(extinct: Seq<bool>)
    requires
        extinct.len() <= usize::MAX,
        forall|i: int| 0 <= i < extinct.len() ==> !(#[trigger] extinct[i]),
    ensures
        forall|i: int| 0 <= i < extinct.len() ==> #[trigger] compaction_map_spec(extinct)[i] == Some(i as usize),
    decreases extinct.len(),
{
    assert forall|i: int| 0 <= i < extinct.len() implies #[trigger] compaction_map_spec(extinct)[i]
        == Some(i as usize) by {
        lemma_all_survive(extinct.take(i));
    }
}

proof fn lemma_all_survive(extinct: Seq<bool>)
    requires
        forall|i: int| 0 <= i < extinct.len() ==> !(#[trigger] extinct[i]),
    ensures
        survivor_count(extinct) == extinct.len(),
    decreases extinct.len(),
{
    if extinct.len() > 0 {
        lemma_all_survive(extinct.drop_last());
    }
}

/// Every position is either removed or survives: the removed entries of a
/// compaction map and the survivors add up to the old length.
pub proof fn law_compaction_removed_count(extinct: Seq<bool>)
    ensures
        removed_spec(compaction_map_spec(extinct)) + survivor_count(extinct) == extinct.len(),
    decreases extinct.len(),
{
    if extinct.len() > 0 {
        lemma_compaction_map_drop_last(extinct);
        law_compaction_removed_count(extinct.drop_last());
    }
}

/// Data held in parallel with the compacted items stays aligned: the item
/// at a surviving old position sits at its new position afterwards, every
/// kept item comes from a survivor, and exactly the survivors are kept.
pub proof fn law_kept_follows_map<T>(items: Seq<T>, extinct: Seq<bool>)
    requires
        items.len() == extinct.len(),
        extinct.len() <= usize::MAX,
    ensures
        kept_spec(items, compaction_map_spec(extinct)).len() == survivor_count(extinct),
        forall|i: int|
            0 <= i < items.len() && !extinct[i] ==> kept_spec(
                items,
                compaction_map_spec(extinct),
            )[(#[trigger] compaction_map_spec(extinct)[i])->0 as int] == items[i],
        forall|k: int|
            0 <= k < kept_spec(items, compaction_map_spec(extinct)).len() ==> exists|i: int|
                0 <= i < items.len() && !extinct[i] && #[trigger] kept_spec(
                    items,
                    compaction_map_spec(extinct),
                )[k] == items[i],
    decreases items.len(),
{
    let map = compaction_map_spec(extinct);
    if items.len() > 0 {
        let n = items.len() - 1;
        lemma_compaction_map_drop_last(extinct);
        law_kept_follows_map(items.drop_last(), extinct.drop_last());
        let rest = kept_spec(items.drop_last(), map.drop_last());
        let kept = kept_spec(items, map);
        assert(extinct.take(n) =~= extinct.drop_last());
        assert forall|i: int|
            0 <= i < items.len() && !extinct[i] implies kept[(#[trigger] map[i])->0 as int] == items[i] by {
            lemma_map_value_bound(extinct, i);
            if i < n {
                assert(map.drop_last()[i] == map[i]);
                assert(items.drop_last()[i] == items[i]);
                assert(extinct.drop_last()[i] == extinct[i]);
                lemma_map_value_bound(extinct.drop_last(), i);
                assert(extinct.drop_last().take(i) =~= extinct.take(i));
            }
        }
        assert forall|k: int| 0 <= k < kept.len() implies exists|i: int|
            0 <= i < items.len() && !extinct[i] && #[trigger] kept[k] == items[i] by {
            if k < rest.len() {
                let i = choose|i: int|
                    0 <= i < items.drop_last().len() && !extinct.drop_last()[i] && #[trigger] rest[k]
                        == items.drop_last()[i];
                assert(items.drop_last()[i] == items[i]);
                assert(extinct.drop_last()[i] == extinct[i]);
                assert(kept[k] == items[i]);
            } else {
                assert(kept[k] == items[n]);
            }
        }
    }
}

/// Number of `true` entries (removed items) in `extinct`.
pub open spec fn extinct_count(extinct: Seq<bool>) -> nat
    decreases extinct.len(),
{
    if extinct.len() == 0 {
        0
    } else {
        extinct_count(extinct.drop_last()) + if extinct.last() {
            1nat
        } else {
            0nat
        }
    }
}

proof fn lemma_counts_add_up(extinct: Seq<bool>)
    ensures
        extinct_count(extinct) + survivor_count(extinct) == extinct.len(),
    decreases extinct.len(),
{
    if extinct.len() > 0 {
        lemma_counts_add_up(extinct.drop_last());
    }
}

proof fn lemma_map_onto(extinct: Seq<bool>, v: int)
    requires
        extinct.len() <= usize::MAX,
        0 <= v < survivor_count(extinct),
    ensures
        exists|i: int|
            0 <= i < extinct.len() && !extinct[i] && #[trigger] compaction_map_spec(extinct)[i]
                == Some(v as usize),
    decreases extinct.len(),
{
    let n = extinct.len() - 1;
    lemma_compaction_map_drop_last(extinct);
    if v < survivor_count(extinct.drop_last()) {
        lemma_map_onto(extinct.drop_last(), v);
        let i = choose|i: int|
            0 <= i < extinct.drop_last().len() && !extinct.drop_last()[i]
                && #[trigger] compaction_map_spec(extinct.drop_last())[i] == Some(v as usize);
        assert(compaction_map_spec(extinct)[i] == compaction_map_spec(extinct.drop_last())[i]);
    } else {
        assert(extinct.take(n) =~= extinct.drop_last());
        assert(compaction_map_spec(extinct)[n] == Some(v as usize));
    }
}

/// A map that removes nothing keeps every position.
pub(crate) proof fn lemma_nothing_removed(map: Seq<Option<usize>>)
    requires
        removed_spec(map) == 0,
    ensures
        forall|i: int| 0 <= i < map.len() ==> (#[trigger] map[i]) is Some,
    decreases map.len(),
{
    if map.len() > 0 {
        lemma_nothing_removed(map.drop_last());
        assert forall|i: int| 0 <= i < map.len() implies (#[trigger] map[i]) is Some by {
            if i < map.len() - 1 {
                assert(map.drop_last()[i] == map[i]);
            }
        }
    }
}

/// Some old position is sent to new position `v` by `map`.
pub open spec fn is_new_index(map: Seq<Option<usize>>, v: int) -> bool {
    exists|i: int| 0 <= i < map.len() && #[trigger] map[i] == Some(v as usize)
}

/// How a compaction renumbers: one map entry per old position, `None`
/// exactly at the extinct positions, the survivors numbered `0, 1, ..,
/// k - 1` (`k` survivors) in increasing old position, and as many entries
/// removed as there were extinct positions.
pub proof fn law_compaction_numbering(extinct: Seq<bool>)
    requires
        extinct.len() <= usize::MAX,
    ensures
        ({
            let map = compaction_map_spec(extinct);
            &&& map.len() == extinct.len()
            &&& forall|i: int| 0 <= i < extinct.len() ==> ((#[trigger] map[i]) is None <==> extinct[i])
            &&& forall|i: int|
                0 <= i < extinct.len() && !extinct[i] ==> (#[trigger] map[i])->0 < survivor_count(extinct)
            &&& forall|i: int, j: int|
                0 <= i < j < extinct.len() && !extinct[i] && !extinct[j] ==> (#[trigger] map[i])->0
                    < (#[trigger] map[j])->0
            &&& forall|v: int| 0 <= v < survivor_count(extinct) ==> #[trigger] is_new_index(map, v)
            &&& removed_spec(map) == extinct_count(extinct)
            &&& survivor_count(extinct) == extinct.len() - extinct_count(extinct)
        }),
{
    let map = compaction_map_spec(extinct);
    assert forall|i: int| 0 <= i < extinct.len() && !extinct[i] implies (#[trigger] map[i])->0
        < survivor_count(extinct) by {
        lemma_map_value_bound(extinct, i);
    }
    assert forall|i: int, j: int|
        0 <= i < j < extinct.len() && !extinct[i] && !extinct[j] implies (#[trigger] map[i])->0
        < (#[trigger] map[j])->0 by {
        law_compaction_map_order(extinct, i, j);
    }
    assert forall|v: int| 0 <= v < survivor_count(extinct) implies #[trigger] is_new_index(map, v) by {
        lemma_map_onto(extinct, v);
    }
    law_compaction_removed_count(extinct);
    lemma_counts_add_up(extinct);
}

/// Two sequences held in parallel with the compacted items (one entry per
/// item, such as kernels and their emotion variables) and compacted with
/// the same map stay in lockstep: both keep exactly the survivors, as many
/// as the old length minus the extinct count, and each survivor's entries
/// sit together at its new position.
pub proof fn law_lockstep_compaction<A, B>(a: Seq<A>, b: Seq<B>, extinct: Seq<bool>)
    requires
        a.len() == extinct.len(),
        b.len() == extinct.len(),
        extinct.len() <= usize::MAX,
    ensures
        ({
            let map = compaction_map_spec(extinct);
            &&& kept_spec(a, map).len() == extinct.len() - extinct_count(extinct)
            &&& kept_spec(b, map).len() == kept_spec(a, map).len()
            &&& forall|i: int|
                0 <= i < extinct.len() && !extinct[i] ==> kept_spec(a, map)[(#[trigger] map[i])->0 as int]
                    == a[i] && kept_spec(b, map)[map[i]->0 as int] == b[i]
        }),
{
    law_kept_follows_map(a, extinct);
    law_kept_follows_map(b, extinct);
    lemma_counts_add_up(extinct);
}

/// Looks up the new position of old position `idx`; `None` if the item was
/// removed or `idx` lies beyond the map.
pub fn remap_index(map: &[Option<usize>], idx: usize) -> (r: Option<usize>)
    ensures
        r == remap_spec(map@, idx as int),
{
    if idx < map.len() {
        map[idx]
    } else {
        None
    }
}

/// Builds the compaction map for the given extinct flags: survivors are
/// renumbered `0, 1, 2, ...` in the order they had, extinct positions map
/// to `None`.
pub fn compaction_map(extinct: &[bool]) -> (map: Vec<Option<usize>>)
    ensures
        map@ == compaction_map_spec(extinct@),
{
    let mut map: Vec<Option<usize>> = Vec::with_capacity(extinct.len());
    let mut next: usize = 0;
    let mut i: usize = 0;
    while i < extinct.len()
        invariant
            i <= extinct.len(),
            next == survivor_count(extinct@.take(i as int)),
            map@ =~= compaction_map_spec(extinct@).take(i as int),
        decreases extinct.len() - i,
    {
        proof {
            assert(extinct@.take(i as int + 1).drop_last() =~= extinct@.take(i as int));
            lemma_survivor_count_bound(extinct@.take(i as int));
        }
        if extinct[i] {
            map.push(None);
        } else {
            map.push(Some(next));
            next = next + 1;
        }
        i = i + 1;
    }
    proof {
        assert(extinct@.take(extinct.len() as int) =~= extinct@);
    }
    map
}

/// Counts the removed (`None`) entries of a compaction map.
pub fn removed_count(map: &[Option<usize>]) -> (n: usize)
    ensures
        n == removed_spec(map@),
{
    let mut n: usize = 0;
    let mut i: usize = 0;
    while i < map.len()
        invariant
            i <= map.len(),
            n == removed_spec(map@.take(i as int)),
            n <= i,
        decreases map.len() - i,
    {
        proof {
            assert(map@.take(i as int + 1).drop_last() =~= map@.take(i as int));
        }
        if map[i].is_none() {
            n = n + 1;
        }
        i = i + 1;
    }
    proof {
        assert(map@.take(map.len() as int) =~= map@);
    }
    n
}

/// Keeps the items whose position survives under `map`, in order; this is
/// how data held in parallel with a kernel store is compacted in lockstep.
pub fn keep_survivors<T>(items: Vec<T>, map: &[Option<usize>]) -> (kept: Vec<T>)
    requires
        items.len() == map.len(),
    ensures
        kept@ == kept_spec(items@, map@),
{
    let ghost all = items@;
    let mut kept: Vec<T> = Vec::new();
    let mut i: usize = 0;
    for x in it: items.into_iter()
        invariant
            all.len() == map.len(),
            it.seq() == all,
            i == it.index(),
            kept@ == kept_spec(all.take(i as int), map@.take(i as int)),
    {
        proof {
            assert(all.take(i as int + 1).drop_last() =~= all.take(i as int));
            assert(map@.take(i as int + 1).drop_last() =~= map@.take(i as int));
        }
        if map[i].is_some() {
            kept.push(x);
        }
        i = i + 1;
    }
    proof {
        assert(all.take(all.len() as int) =~= all);
        assert(map@.take(map.len() as int) =~= map@);
    }
    kept
}

} // verus!
