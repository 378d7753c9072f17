//! Co-activation counters used for label inheritance: how many ticks an
//! unlabelled kernel has fired together with a given labelled kernel.
use vstd::prelude::*;
use crate::compaction::remap_spec;
use crate::compaction::remap_index;

verus! {

/// Key of a counter entry.
pub open spec fn entry_key(e: (usize, usize, u32)) -> (usize, usize) {
    (e.0, e.1)
}

/// No key occurs twice among the entries.
pub open spec fn keys_distinct(s: Seq<(usize, usize, u32)>) -> bool {
    forall|a: int, b: int|
        0 <= a < s.len() && 0 <= b < s.len() && a != b ==> entry_key(#[trigger] s[a])
            != entry_key(#[trigger] s[b])
}

pub open spec fn has_key(s: Seq<(usize, usize, u32)>, k: (usize, usize)) -> bool {
    exists|t: int| 0 <= t < s.len() && entry_key(#[trigger] s[t]) == k
}

/// The counter map represented by an entry list.
pub open spec fn entries_map(s: Seq<(usize, usize, u32)>) -> Map<(usize, usize), u32> {
    Map::new(
        |k: (usize, usize)| has_key(s, k),
        |k: (usize, usize)| s[choose|t: int| 0 <= t < s.len() && entry_key(#[trigger] s[t]) == k].2,
    )
}

proof fn lemma_entries_map_at(s: Seq<(usize, usize, u32)>, t: int)
    requires
        keys_distinct(s),
        0 <= t < s.len(),
    ensures
        entries_map(s).contains_key(entry_key(s[t])),
        entries_map(s)[entry_key(s[t])] == s[t].2,
{
    let k = entry_key(s[t]);
    assert(has_key(s, k));
    let c = choose|u: int| 0 <= u < s.len() && entry_key(#[trigger] s[u]) == k;
    assert(c == t);
}

/// Two distinct-key entry lists with the same entries at each key denote
/// the same map.
proof fn lemma_entries_map_ext(s: Seq<(usize, usize, u32)>, m: Map<(usize, usize), u32>)
    requires
        keys_distinct(s),
        forall|t: int| 0 <= t < s.len() ==> #[trigger] m.contains_key(entry_key(s[t])) && m[entry_key(s[t])] == s[t].2,
        forall|k: (usize, usize)| #[trigger] m.contains_key(k) ==> has_key(s, k),
    ensures
        entries_map(s) == m,
{
    assert forall|k: (usize, usize)| #[trigger] entries_map(s).contains_key(k) == m.contains_key(k) by {
        if has_key(s, k) {
            let t = choose|t: int| 0 <= t < s.len() && entry_key(#[trigger] s[t]) == k;
            assert(m.contains_key(entry_key(s[t])));
        }
    }
    assert forall|k: (usize, usize)| #[trigger] entries_map(s).contains_key(k) implies entries_map(s)[k]
        == m[k] by {
        let t = choose|t: int| 0 <= t < s.len() && entry_key(#[trigger] s[t]) == k;
        lemma_entries_map_at(s, t);
        assert(m.contains_key(entry_key(s[t])));
    }
    assert(entries_map(s) =~= m);
}

/// Counters keyed by `(unlabelled kernel, labelled kernel)`.
#[derive(Debug)]
pub struct CoactivationCounts {
    entries: Vec<(usize, usize, u32)>,
}

/// `map` sends distinct surviving positions to distinct new positions.
pub open spec fn injective_on_survivors(map: Seq<Option<usize>>) -> bool {
    forall|a: int, b: int|
        0 <= a < map.len() && 0 <= b < map.len() && a != b && (#[trigger] map[a]) is Some
            && (#[trigger] map[b]) is Some ==> map[a] != map[b]
}

/// The key `k` carried through `map` (both kernels must survive).
pub open spec fn remap_pair_spec(map: Seq<Option<usize>>, k: (usize, usize)) -> Option<
    (usize, usize),
> {
    match (remap_spec(map, k.0 as int), remap_spec(map, k.1 as int)) {
        (Some(a), Some(b)) => Some((a, b)),
        _ => None,
    }
}

/// An entry carried through `map`, with its count unchanged.
pub open spec fn remap_entry(map: Seq<Option<usize>>, e: (usize, usize, u32)) -> Option<
    (usize, usize, u32),
> {
    match remap_pair_spec(map, entry_key(e)) {
        Some(k) => Some((k.0, k.1, e.2)),
        None => None,
    }
}

impl View for CoactivationCounts {
    type V = Map<(usize, usize), u32>;

    closed spec fn view(&self) -> Map<(usize, usize), u32> {
        entries_map(self.entries@)
    }
}

impl Clone for CoactivationCounts {
    /// A copy holding the same counters.
    fn clone(&self) -> (c: Self)
        ensures
            c@ == self@,
    {
        proof {
            use_type_invariant(self);
        }
        let mut entries: Vec<(usize, usize, u32)> = Vec::with_capacity(self.entries.len());
        let mut t: usize = 0;
        while t < self.entries.len()
            invariant
                t <= self.entries@.len(),
                entries@ == self.entries@.take(t as int),
            decreases self.entries.len() - t,
        {
            entries.push(self.entries[t]);
            proof {
                assert(entries@ =~= self.entries@.take(t as int + 1));
            }
            t = t + 1;
        }
        proof {
            assert(entries@ =~= self.entries@);
        }
        CoactivationCounts { entries }
    }
}

impl CoactivationCounts {
    #[verifier::type_invariant]
    closed spec fn well_formed(&self) -> bool {
        &&& keys_distinct(self.entries@)
        &&& forall|t: int| 0 <= t < self.entries@.len() ==> (#[trigger] self.entries@[t]).2 < u32::MAX
    }

    pub fn new() -> (c: Self)
        ensures
            c@ == Map::<(usize, usize), u32>::empty(),
    {
        let c = CoactivationCounts { entries: Vec::new() };
        proof {
            assert(c@ =~= Map::<(usize, usize), u32>::empty());
        }
        c
    }

    pub fn len(&self) -> (n: usize)
        ensures
            n == self@.len(),
    {
        proof {
            use_type_invariant(self);
            self.lemma_len();
        }
        self.entries.len()
    }

    proof fn lemma_len(&self)
        requires
            keys_distinct(self.entries@),
        ensures
            self@.len() == self.entries@.len(),
    {
        let s = self.entries@;
        let keys = s.map_values(|e: (usize, usize, u32)| entry_key(e));
        assert forall|a: int, b: int| 0 <= a < keys.len() && 0 <= b < keys.len() && a != b implies keys[a] != keys[b] by {
            assert(entry_key(s[a]) != entry_key(s[b]));
        }
        assert(keys.no_duplicates());
        keys.unique_seq_to_set();
        assert(self@.dom() =~= keys.to_set()) by {
            assert forall|k: (usize, usize)| #[trigger] self@.dom().contains(k) implies keys.to_set().contains(k) by {
                let t = choose|t: int| 0 <= t < s.len() && entry_key(#[trigger] s[t]) == k;
                assert(keys[t] == k);
            }
            assert forall|k: (usize, usize)| #[trigger] keys.to_set().contains(k) implies self@.dom().contains(k) by {
                let t = choose|t: int| 0 <= t < keys.len() && keys[t] == k;
                assert(entry_key(s[t]) == k);
            }
        }
    }

    fn find(&self, u: usize, l: usize) -> (r: Option<usize>)
        ensures
            match r {
                Some(t) => t < self.entries@.len() && entry_key(self.entries@[t as int]) == (u, l),
                None => !has_key(self.entries@, (u, l)),
            },
    {
        let mut t: usize = 0;
        while t < self.entries.len()
            invariant
                t <= self.entries@.len(),
                forall|q: int| 0 <= q < t ==> entry_key(#[trigger] self.entries@[q]) != (u, l),
            decreases self.entries.len() - t,
        {
            let e = self.entries[t];
            if e.0 == u && e.1 == l {
                return Some(t);
            }
            t = t + 1;
        }
        None
    }

    /// Current count of the pair, if any.
    pub fn get(&self, u: usize, l: usize) -> (r: Option<u32>)
        ensures
            r == (if self@.contains_key((u, l)) {
                Some(self@[(u, l)])
            } else {
                None::<u32>
            }),
    {
        proof {
            use_type_invariant(self);
        }
        match self.find(u, l) {
            Some(t) => {
                proof {
                    lemma_entries_map_at(self.entries@, t as int);
                }
                Some(self.entries[t].2)
            },
            None => None,
        }
    }

    /// Counts one more co-activation of `(u, l)`. When the count reaches
    /// `threshold` the counter is cleared and `true` is returned; otherwise
    /// the raised count is kept and `false` is returned.
    pub fn record(&mut self, u: usize, l: usize, threshold: u32) -> (reached: bool)
        requires
            threshold != u32::MAX,
        ensures
            ({
                let c: int = if old(self)@.contains_key((u, l)) {
                    old(self)@[(u, l)] + 1
                } else {
                    1
                };
                &&& reached == (c >= threshold)
                &&& reached ==> final(self)@ == old(self)@.remove((u, l))
                &&& !reached ==> final(self)@ == old(self)@.insert((u, l), c as u32)
            }),
    {
        proof {
            use_type_invariant(&*self);
        }
        let ghost s = self.entries@;
        let ghost m = self@;
        let found = self.find(u, l);
        let mut entries: Vec<(usize, usize, u32)> = Vec::new();
        std::mem::swap(&mut entries, &mut self.entries);
        let reached = match found {
            Some(t) => {
                proof {
                    lemma_entries_map_at(s, t as int);
                }
                let c = entries[t].2 + 1;
                if c >= threshold {
                    entries.remove(t);
                    proof {
                        let s2 = entries@;
                        assert(keys_distinct(s2)) by {
                            assert forall|a: int, b: int|
                                0 <= a < s2.len() && 0 <= b < s2.len() && a != b implies entry_key(
                                #[trigger] s2[a],
                            ) != entry_key(#[trigger] s2[b]) by {
                                let a0 = if a < t { a } else { a + 1 };
                                let b0 = if b < t { b } else { b + 1 };
                                assert(s2[a] == s[a0]);
                                assert(s2[b] == s[b0]);
                            }
                        }
                        assert forall|q: int| 0 <= q < s2.len() implies #[trigger] m.remove((u, l)).contains_key(
                            entry_key(s2[q]),
                        ) && m.remove((u, l))[entry_key(s2[q])] == s2[q].2 by {
                            let q0 = if q < t { q } else { q + 1 };
                            assert(s2[q] == s[q0]);
                            lemma_entries_map_at(s, q0);
                            assert(q0 != t);
                        }
                        assert forall|k: (usize, usize)| #[trigger] m.remove((u, l)).contains_key(k) implies has_key(
                            s2,
                            k,
                        ) by {
                            let w = choose|w: int| 0 <= w < s.len() && entry_key(#[trigger] s[w]) == k;
                            assert(w != t);
                            let w2 = if w < t { w } else { w - 1 };
                            assert(s2[w2] == s[w]);
                        }
                        lemma_entries_map_ext(s2, m.remove((u, l)));
                    }
                    true
                } else {
                    entries.set(t, (u, l, c));
                    proof {
                        let s2 = entries@;
                        let m2 = m.insert((u, l), c);
                        assert(keys_distinct(s2)) by {
                            assert forall|a: int, b: int|
                                0 <= a < s2.len() && 0 <= b < s2.len() && a != b implies entry_key(
                                #[trigger] s2[a],
                            ) != entry_key(#[trigger] s2[b]) by {
                                assert(entry_key(s2[a]) == entry_key(s[a]));
                                assert(entry_key(s2[b]) == entry_key(s[b]));
                            }
                        }
                        assert forall|q: int| 0 <= q < s2.len() implies #[trigger] m2.contains_key(
                            entry_key(s2[q]),
                        ) && m2[entry_key(s2[q])] == s2[q].2 by {
                            if q != t {
                                lemma_entries_map_at(s, q);
                            }
                        }
                        assert forall|k: (usize, usize)| #[trigger] m2.contains_key(k) implies has_key(s2, k) by {
                            if k == (u, l) {
                                assert(entry_key(s2[t as int]) == k);
                            } else {
                                let w = choose|w: int| 0 <= w < s.len() && entry_key(#[trigger] s[w]) == k;
                                assert(entry_key(s2[w]) == k);
                            }
                        }
                        lemma_entries_map_ext(s2, m2);
                    }
                    false
                }
            },
            None => {
                if 1 >= threshold {
                    proof {
                        assert(m.remove((u, l)) =~= m);
                    }
                    true
                } else {
                    entries.push((u, l, 1));
                    proof {
                        let s2 = entries@;
                        let m2 = m.insert((u, l), 1);
                        assert(keys_distinct(s2)) by {
                            assert forall|a: int, b: int|
                                0 <= a < s2.len() && 0 <= b < s2.len() && a != b implies entry_key(
                                #[trigger] s2[a],
                            ) != entry_key(#[trigger] s2[b]) by {
                                if a < s.len() && b < s.len() {
                                    assert(s2[a] == s[a] && s2[b] == s[b]);
                                } else if a < s.len() {
                                    assert(s2[a] == s[a]);
                                    assert(!has_key(s, (u, l)));
                                } else {
                                    assert(s2[b] == s[b]);
                                    assert(!has_key(s, (u, l)));
                                }
                            }
                        }
                        assert forall|q: int| 0 <= q < s2.len() implies #[trigger] m2.contains_key(
                            entry_key(s2[q]),
                        ) && m2[entry_key(s2[q])] == s2[q].2 by {
                            if q < s.len() {
                                assert(s2[q] == s[q]);
                                lemma_entries_map_at(s, q);
                            }
                        }
                        assert forall|k: (usize, usize)| #[trigger] m2.contains_key(k) implies has_key(s2, k) by {
                            if k == (u, l) {
                                assert(entry_key(s2[s.len() as int]) == k);
                            } else {
                                let w = choose|w: int| 0 <= w < s.len() && entry_key(#[trigger] s[w]) == k;
                                assert(s2[w] == s[w]);
                            }
                        }
                        lemma_entries_map_ext(s2, m2);
                    }
                    false
                }
            },
        };
        self.entries = entries;
        reached
    }

    /// Carries every counter through the compaction map `map` (both kernels
    /// of a pair must survive; other counters are dropped).
    pub fn reindex(&mut self, map: &[Option<usize>])
        requires
            injective_on_survivors(map@),
        ensures
            forall|k: (usize, usize)|
                #[trigger] old(self)@.contains_key(k) && remap_pair_spec(map@, k) is Some ==> {
                    let nk = remap_pair_spec(map@, k)->0;
                    final(self)@.contains_key(nk) && final(self)@[nk] == old(self)@[k]
                },
            forall|nk: (usize, usize)|
                #[trigger] final(self)@.contains_key(nk) ==> exists|k: (usize, usize)|
                    #[trigger] old(self)@.contains_key(k) && remap_pair_spec(map@, k) == Some(nk),
    {
        proof {
            use_type_invariant(&*self);
        }
        let ghost s = self.entries@;
        let mut out: Vec<(usize, usize, u32)> = Vec::new();
        let mut t: usize = 0;
        while t < self.entries.len()
            invariant
                self.entries@ == s,
                keys_distinct(s),
                forall|q: int| 0 <= q < s.len() ==> (#[trigger] s[q]).2 < u32::MAX,
                injective_on_survivors(map@),
                t <= s.len(),
                keys_distinct(out@),
                forall|q: int| 0 <= q < out@.len() ==> (#[trigger] out@[q]).2 < u32::MAX,
                forall|q: int|
                    0 <= q < t && remap_pair_spec(map@, entry_key(#[trigger] s[q])) is Some ==> exists|r: int|
                        0 <= r < out@.len() && out@[r] == (
                            remap_entry(map@, s[q])->0
                        ),
                forall|r: int|
                    0 <= r < out@.len() ==> exists|q: int|
                        0 <= q < t && remap_pair_spec(map@, entry_key(#[trigger] s[q])) == Some(
                            entry_key(#[trigger] out@[r]),
                        ) && s[q].2 == out@[r].2,
            decreases s.len() - t,
        {
            let e = self.entries[t];
            match (remap_index(map, e.0), remap_index(map, e.1)) {
                (Some(a), Some(b)) => {
                    proof {
                        assert forall|r: int| 0 <= r < out@.len() implies entry_key(
                            #[trigger] out@[r],
                        ) != (a, b) by {
                            let q = choose|q: int|
                                0 <= q < t && remap_pair_spec(map@, entry_key(#[trigger] s[q])) == Some(
                                    entry_key(#[trigger] out@[r]),
                                ) && s[q].2 == out@[r].2;
                            if entry_key(out@[r]) == (a, b) {
                                assert(q != t);
                                assert(entry_key(s[q]) != entry_key(s[t as int]));
                                if s[q].0 != e.0 {
                                    assert(map@[s[q].0 as int] == map@[e.0 as int]);
                                } else {
                                    assert(map@[s[q].1 as int] == map@[e.1 as int]);
                                }
                            }
                        }
                    }
                    let ghost before = out@;
                    out.push((a, b, e.2));
                    proof {
                        assert forall|q: int|
                            0 <= q < t + 1 && remap_pair_spec(map@, entry_key(#[trigger] s[q])) is Some implies exists|r: int|
                            0 <= r < out@.len() && out@[r] == remap_entry(map@, s[q])->0 by {
                            if q < t {
                                let r = choose|r: int|
                                    0 <= r < before.len() && before[r] == remap_entry(map@, s[q])->0;
                                assert(out@[r] == before[r]);
                            } else {
                                assert(out@[before.len() as int] == (a, b, e.2));
                            }
                        }
                        assert forall|r: int| 0 <= r < out@.len() implies exists|q: int|
                            0 <= q < t + 1 && remap_pair_spec(map@, entry_key(#[trigger] s[q])) == Some(
                                entry_key(#[trigger] out@[r]),
                            ) && s[q].2 == out@[r].2 by {
                            if r < before.len() {
                                assert(out@[r] == before[r]);
                                let q = choose|q: int|
                                    0 <= q < t && remap_pair_spec(map@, entry_key(#[trigger] s[q])) == Some(
                                        entry_key(#[trigger] before[r]),
                                    ) && s[q].2 == before[r].2;
                                assert(remap_pair_spec(map@, entry_key(s[q])) == Some(entry_key(out@[r])));
                            } else {
                                assert(remap_pair_spec(map@, entry_key(s[t as int])) == Some(entry_key(out@[r])));
                            }
                        }
                        assert(keys_distinct(out@)) by {
                            assert forall|x: int, y: int|
                                0 <= x < out@.len() && 0 <= y < out@.len() && x != y implies entry_key(
                                #[trigger] out@[x],
                            ) != entry_key(#[trigger] out@[y]) by {
                                if x < before.len() && y < before.len() {
                                    assert(out@[x] == before[x] && out@[y] == before[y]);
                                } else if x < before.len() {
                                    assert(out@[x] == before[x]);
                                } else {
                                    assert(out@[y] == before[y]);
                                }
                            }
                        }
                    }
                },
                _ => {},
            }
            t = t + 1;
        }
        proof {
            let s2 = out@;
            assert forall|k: (usize, usize)|
                #[trigger] entries_map(s).contains_key(k) && remap_pair_spec(map@, k) is Some implies {
                    let nk = remap_pair_spec(map@, k)->0;
                    entries_map(s2).contains_key(nk) && entries_map(s2)[nk] == entries_map(s)[k]
                } by {
                let q = choose|q: int| 0 <= q < s.len() && entry_key(#[trigger] s[q]) == k;
                lemma_entries_map_at(s, q);
                let r = choose|r: int|
                    0 <= r < s2.len() && s2[r] == remap_entry(map@, s[q])->0;
                lemma_entries_map_at(s2, r);
            }
            assert forall|nk: (usize, usize)| #[trigger] entries_map(s2).contains_key(nk) implies exists|k: (usize, usize)|
                #[trigger] entries_map(s).contains_key(k) && remap_pair_spec(map@, k) == Some(nk) by {
                let r = choose|r: int| 0 <= r < s2.len() && entry_key(#[trigger] s2[r]) == nk;
                let q = choose|q: int|
                    0 <= q < s.len() && remap_pair_spec(map@, entry_key(#[trigger] s[q])) == Some(
                        entry_key(#[trigger] s2[r]),
                    ) && s[q].2 == s2[r].2;
                lemma_entries_map_at(s, q);
                let k = entry_key(s[q]);
                assert(entries_map(s).contains_key(k) && remap_pair_spec(map@, k) == Some(nk));
            }
        }
        self.entries = out;
        proof {
            assert(old(self)@ == entries_map(s));
            assert(self@ == entries_map(out@));
        }
    }
}

} // verus!
