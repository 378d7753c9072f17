//! Compressed-sparse-row layout of a set of edge keys: row pointers, column
//! indices, and the slot each key lands in.
use vstd::prelude::*;
use std::collections::HashMap;

verus! {

/// Number of keys in row `r`.
pub open spec fn row_count(keys: Seq<(usize, usize)>, r: int) -> nat
    decreases keys.len(),
{
    if keys.len() == 0 {
        0
    } else {
        row_count(keys.drop_last(), r) + if keys.last().0 == r {
            1nat
        } else {
            0nat
        }
    }
}

/// Number of keys in rows below `r`.
pub open spec fn rows_below(keys: Seq<(usize, usize)>, r: int) -> nat
    decreases keys.len(),
{
    if keys.len() == 0 {
        0
    } else {
        rows_below(keys.drop_last(), r) + if keys.last().0 < r {
            1nat
        } else {
            0nat
        }
    }
}

/// Slot of key `k`: after every key of a lower row, and after the keys of
/// its own row that come before it.
pub open spec fn slot_spec(keys: Seq<(usize, usize)>, k: int) -> int {
    (rows_below(keys, keys[k].0 as int) + row_count(keys.take(k), keys[k].0 as int)) as int
}

proof fn lemma_row_counts_bounded(keys: Seq<(usize, usize)>, r: int)
    ensures
        row_count(keys, r) <= keys.len(),
        rows_below(keys, r) <= keys.len(),
        rows_below(keys, r) + row_count(keys, r) <= keys.len(),
    decreases keys.len(),
{
    if keys.len() > 0 {
        lemma_row_counts_bounded(keys.drop_last(), r);
    }
}

proof fn lemma_rows_below_step(keys: Seq<(usize, usize)>, r: int)
    ensures
        rows_below(keys, r + 1) == rows_below(keys, r) + row_count(keys, r),
    decreases keys.len(),
{
    if keys.len() > 0 {
        lemma_rows_below_step(keys.drop_last(), r);
    }
}

proof fn lemma_rows_below_monotone(keys: Seq<(usize, usize)>, r: int, s: int)
    requires
        r <= s,
    ensures
        rows_below(keys, r) + row_count(keys, r) <= rows_below(keys, s) || r == s,
        rows_below(keys, r) <= rows_below(keys, s),
    decreases s - r,
{
    if r < s {
        lemma_rows_below_step(keys, r);
        lemma_rows_below_monotone(keys, r + 1, s);
    }
}

proof fn lemma_rows_below_all(keys: Seq<(usize, usize)>, n: int)
    requires
        forall|k: int| 0 <= k < keys.len() ==> (#[trigger] keys[k]).0 < n,
    ensures
        rows_below(keys, n) == keys.len(),
        rows_below(keys, 0) == 0,
    decreases keys.len(),
{
    if keys.len() > 0 {
        assert forall|k: int| 0 <= k < keys.drop_last().len() implies (
        #[trigger] keys.drop_last()[k]).0 < n by {
            assert(keys.drop_last()[k] == keys[k]);
        }
        lemma_rows_below_all(keys.drop_last(), n);
    }
}

proof fn lemma_row_count_prefix(keys: Seq<(usize, usize)>, k: int, r: int)
    requires
        0 <= k < keys.len(),
    ensures
        row_count(keys.take(k + 1), r) == row_count(keys.take(k), r) + if keys[k].0 == r {
            1nat
        } else {
            0nat
        },
{
    assert(keys.take(k + 1).drop_last() =~= keys.take(k));
}

proof fn lemma_row_count_prefix_le(keys: Seq<(usize, usize)>, k: int, r: int)
    requires
        0 <= k <= keys.len(),
    ensures
        row_count(keys.take(k), r) <= row_count(keys, r),
    decreases keys.len() - k,
{
    if k < keys.len() {
        lemma_row_count_prefix(keys, k, r);
        lemma_row_count_prefix_le(keys, k + 1, r);
    } else {
        assert(keys.take(k) =~= keys);
    }
}

/// The keys are ordered by row (rows never decrease).
pub open spec fn sorted_rows(keys: Seq<(usize, usize)>) -> bool {
    forall|i: int, j: int| 0 <= i <= j < keys.len() ==> (#[trigger] keys[i]).0 <= (#[trigger] keys[j]).0
}

proof fn lemma_rows_below_concat(a: Seq<(usize, usize)>, b: Seq<(usize, usize)>, r: int)
    ensures
        rows_below(a + b, r) == rows_below(a, r) + rows_below(b, r),
    decreases b.len(),
{
    if b.len() > 0 {
        lemma_rows_below_concat(a, b.drop_last(), r);
        assert((a + b).drop_last() =~= a + b.drop_last());
    } else {
        assert(a + b =~= a);
    }
}

proof fn lemma_none_below(keys: Seq<(usize, usize)>, r: int)
    requires
        forall|k: int| 0 <= k < keys.len() ==> (#[trigger] keys[k]).0 >= r,
    ensures
        rows_below(keys, r) == 0,
    decreases keys.len(),
{
    if keys.len() > 0 {
        assert forall|k: int| 0 <= k < keys.drop_last().len() implies (
        #[trigger] keys.drop_last()[k]).0 >= r by {
            assert(keys.drop_last()[k] == keys[k]);
        }
        lemma_none_below(keys.drop_last(), r);
    }
}

proof fn lemma_all_up_to(keys: Seq<(usize, usize)>, r: int)
    requires
        forall|k: int| 0 <= k < keys.len() ==> (#[trigger] keys[k]).0 <= r,
    ensures
        rows_below(keys, r) + row_count(keys, r) == keys.len(),
    decreases keys.len(),
{
    if keys.len() > 0 {
        assert forall|k: int| 0 <= k < keys.drop_last().len() implies (
        #[trigger] keys.drop_last()[k]).0 <= r by {
            assert(keys.drop_last()[k] == keys[k]);
        }
        lemma_all_up_to(keys.drop_last(), r);
    }
}

/// With keys ordered by row, every key's slot is its own position.
proof fn lemma_sorted_slot(keys: Seq<(usize, usize)>, k: int)
    requires
        sorted_rows(keys),
        0 <= k < keys.len(),
    ensures
        slot_spec(keys, k) == k,
{
    let r = keys[k].0 as int;
    let a = keys.take(k);
    let b = keys.skip(k);
    assert(a + b =~= keys);
    lemma_rows_below_concat(a, b, r);
    assert forall|j: int| 0 <= j < b.len() implies (#[trigger] b[j]).0 >= r by {
        assert(b[j] == keys[k + j]);
    }
    lemma_none_below(b, r);
    assert forall|j: int| 0 <= j < a.len() implies (#[trigger] a[j]).0 <= r by {
        assert(a[j] == keys[j]);
    }
    lemma_all_up_to(a, r);
}

/// Row pointers, column indices, and the slot of every input key.
pub struct CsrLayout {
    /// `rows[r]..rows[r + 1]` is the slot range of row `r`.
    pub rows: Vec<usize>,
    /// Column index stored at each slot.
    pub cols: Vec<usize>,
    /// Slot at which each input key (by position) was placed.
    pub slots: Vec<usize>,
}

/// Lays out `keys` (row, column) in CSR order for `num_nodes` rows. Keys of
/// one row keep their relative input order, so keys given in row order
/// (sorted keys among them) land at their own position (`slots[k] == k`).
pub fn build_csr(num_nodes: usize, keys: &[(usize, usize)]) -> (l: CsrLayout)
    requires
        num_nodes < usize::MAX,
        forall|k: int| 0 <= k < keys@.len() ==> (#[trigger] keys@[k]).0 < num_nodes,
    ensures
        l.rows@.len() == num_nodes + 1,
        forall|r: int| 0 <= r <= num_nodes ==> #[trigger] l.rows@[r] == rows_below(keys@, r),
        l.rows@[0] == 0,
        l.rows@[num_nodes as int] == keys@.len(),
        valid_row_pointers(l.rows@, keys@.len() as int),
        l.cols@.len() == keys@.len(),
        l.slots@.len() == keys@.len(),
        forall|k: int| 0 <= k < keys@.len() ==> #[trigger] l.slots@[k] == slot_spec(keys@, k),
        forall|k: int|
            0 <= k < keys@.len() ==> l.rows@[keys@[k].0 as int] <= #[trigger] l.slots@[k] < l.rows@[keys@[k].0
                + 1],
        forall|k: int| 0 <= k < keys@.len() ==> l.cols@[#[trigger] l.slots@[k] as int] == keys@[k].1,
        forall|k: int, q: int| 0 <= k < q < keys@.len() ==> l.slots@[k] != l.slots@[q],
        sorted_rows(keys@) ==> forall|k: int| 0 <= k < keys@.len() ==> #[trigger] l.slots@[k] == k,
{
    let ghost ks = keys@;
    let n = num_nodes;
    let nnz = keys.len();
    proof {
        lemma_rows_below_all(ks, n as int);
    }
    // 1. per-row counts, shifted by one
    let mut rows: Vec<usize> = Vec::with_capacity(n + 1);
    let mut i: usize = 0;
    while i <= n
        invariant
            i <= n + 1,
            n < usize::MAX,
            rows@.len() == i,
            forall|r: int| 0 <= r < i ==> rows@[r] == 0,
        decreases n + 1 - i,
    {
        rows.push(0);
        i = i + 1;
    }
    let mut k: usize = 0;
    while k < nnz
        invariant
            nnz == ks.len(),
            ks == keys@,
            k <= nnz,
            rows@.len() == n + 1,
            forall|q: int| 0 <= q < ks.len() ==> (#[trigger] ks[q]).0 < n,
            rows@[0] == 0,
            forall|r: int| 0 <= r < n ==> #[trigger] rows@[r + 1] == row_count(ks.take(k as int), r),
        decreases nnz - k,
    {
        let r = keys[k].0;
        proof {
            lemma_row_count_prefix(ks, k as int, r as int);
            lemma_row_count_prefix_le(ks, k as int + 1, r as int);
            lemma_row_counts_bounded(ks, r as int);
            assert forall|s: int| 0 <= s < n implies #[trigger] row_count(ks.take(k as int + 1), s)
                == row_count(ks.take(k as int), s) + if ks[k as int].0 == s {
                1nat
            } else {
                0nat
            } by {
                lemma_row_count_prefix(ks, k as int, s);
            }
        }
        let c = rows[r + 1];
        rows.set(r + 1, c + 1);
        k = k + 1;
    }
    proof {
        assert(ks.take(nnz as int) =~= ks);
        assert forall|r: int| 1 <= r <= n implies #[trigger] rows@[r] == row_count(ks, r - 1) by {
            assert(rows@[(r - 1) + 1] == row_count(ks.take(nnz as int), r - 1));
        }
    }
    // 2. prefix sums
    let mut i: usize = 1;
    while i <= n
        invariant
            nnz == ks.len(),
            ks == keys@,
            1 <= i <= n + 1,
            n < usize::MAX,
            rows@.len() == n + 1,
            forall|q: int| 0 <= q < ks.len() ==> (#[trigger] ks[q]).0 < n,
            forall|r: int| 0 <= r < i ==> #[trigger] rows@[r] == rows_below(ks, r),
            forall|r: int| i <= r <= n ==> #[trigger] rows@[r] == row_count(ks, r - 1),
        decreases n + 1 - i,
    {
        proof {
            lemma_rows_below_step(ks, i as int - 1);
            lemma_row_counts_bounded(ks, i as int - 1);
        }
        let s = rows[i] + rows[i - 1];
        rows.set(i, s);
        i = i + 1;
    }
    // 3. place every key in its row, in input order
    let mut pos: Vec<usize> = Vec::with_capacity(n);
    let mut i: usize = 0;
    while i < n
        invariant
            i <= n,
            rows@.len() == n + 1,
            pos@.len() == i,
            forall|r: int| 0 <= r < i ==> #[trigger] pos@[r] == rows@[r],
        decreases n - i,
    {
        pos.push(rows[i]);
        i = i + 1;
    }
    let mut cols: Vec<usize> = Vec::with_capacity(nnz);
    let mut i: usize = 0;
    while i < nnz
        invariant
            i <= nnz,
            cols@.len() == i,
        decreases nnz - i,
    {
        cols.push(0);
        i = i + 1;
    }
    let mut slots: Vec<usize> = Vec::with_capacity(nnz);
    let mut k: usize = 0;
    while k < nnz
        invariant
            nnz == ks.len(),
            ks == keys@,
            k <= nnz,
            n < usize::MAX,
            rows@.len() == n + 1,
            pos@.len() == n,
            cols@.len() == nnz,
            slots@.len() == k,
            rows_below(ks, n as int) == nnz,
            forall|q: int| 0 <= q < ks.len() ==> (#[trigger] ks[q]).0 < n,
            forall|r: int| 0 <= r <= n ==> #[trigger] rows@[r] == rows_below(ks, r),
            forall|r: int|
                0 <= r < n ==> #[trigger] pos@[r] == rows_below(ks, r) + row_count(
                    ks.take(k as int),
                    r,
                ),
            forall|q: int| 0 <= q < k ==> #[trigger] slots@[q] == slot_spec(ks, q),
            forall|q: int| 0 <= q < k ==> #[trigger] slots@[q] < nnz,
            forall|q: int| 0 <= q < k ==> cols@[#[trigger] slots@[q] as int] == ks[q].1,
        decreases nnz - k,
    {
        let (r, c) = keys[k];
        let idx = pos[r];
        proof {
            lemma_row_count_prefix(ks, k as int, r as int);
            lemma_row_count_prefix_le(ks, k as int + 1, r as int);
            lemma_rows_below_step(ks, r as int);
            lemma_rows_below_monotone(ks, r as int + 1, n as int);
            assert(idx < nnz);
            assert forall|q: int| 0 <= q < k implies slots@[q] != idx by {
                let rq = ks[q].0 as int;
                lemma_row_count_prefix_le(ks, q + 1, rq);
                lemma_row_count_prefix(ks, q, rq);
                lemma_rows_below_step(ks, rq);
                if rq < r {
                    lemma_rows_below_monotone(ks, rq + 1, r as int);
                } else if rq > r {
                    lemma_rows_below_monotone(ks, r as int + 1, rq);
                } else {
                    lemma_row_count_prefix_le(ks.take(k as int), q + 1, rq);
                    assert(ks.take(k as int).take(q + 1) =~= ks.take(q + 1));
                }
            }
        }
        let ghost cols0 = cols@;
        let ghost slots0 = slots@;
        cols.set(idx, c);
        slots.push(idx);
        pos.set(r, idx + 1);
        proof {
            assert forall|q: int| 0 <= q < k + 1 implies cols@[#[trigger] slots@[q] as int] == ks[q].1 by {
                if q < k {
                    assert(slots@[q] == slots0[q]);
                    assert(slots0[q] != idx);
                    assert(cols@[slots0[q] as int] == cols0[slots0[q] as int]);
                }
            }
            assert forall|s: int| 0 <= s < n implies #[trigger] pos@[s] == rows_below(ks, s)
                + row_count(ks.take(k as int + 1), s) by {
                lemma_row_count_prefix(ks, k as int, s);
            }
        }
        k = k + 1;
    }
    proof {
        assert forall|q: int| 0 <= q < ks.len() implies rows@[ks[q].0 as int] <= #[trigger] slots@[q]
            < rows@[ks[q].0 + 1] by {
            let rq = ks[q].0 as int;
            lemma_row_count_prefix_le(ks, q + 1, rq);
            lemma_row_count_prefix(ks, q, rq);
            lemma_rows_below_step(ks, rq);
        }
        assert forall|i: int, j: int| 0 <= i <= j < rows@.len() implies rows@[i] <= rows@[j] by {
            lemma_rows_below_monotone(ks, i, j);
        }
        assert forall|a: int, b: int| 0 <= a < b < ks.len() implies slots@[a] != slots@[b] by {
            let ra = ks[a].0 as int;
            let rb = ks[b].0 as int;
            lemma_row_count_prefix_le(ks, a + 1, ra);
            lemma_row_count_prefix(ks, a, ra);
            lemma_rows_below_step(ks, ra);
            lemma_row_count_prefix_le(ks, b + 1, rb);
            lemma_row_count_prefix(ks, b, rb);
            lemma_rows_below_step(ks, rb);
            if ra < rb {
                lemma_rows_below_monotone(ks, ra + 1, rb);
            } else if ra > rb {
                lemma_rows_below_monotone(ks, rb + 1, ra);
            } else {
                lemma_row_count_prefix_le(ks.take(b), a + 1, ra);
                assert(ks.take(b).take(a + 1) =~= ks.take(a + 1));
            }
        }
    }
    proof {
        if sorted_rows(keys@) {
            assert forall|k: int| 0 <= k < keys@.len() implies #[trigger] slots@[k] == k by {
                lemma_sorted_slot(keys@, k);
            }
        }
    }
    CsrLayout { rows, cols, slots }
}

/// Row pointers `rows` describe `nnz` slots: they start at 0, never
/// decrease, and end at `nnz`.
pub open spec fn valid_row_pointers(rows: Seq<usize>, nnz: int) -> bool {
    &&& rows.len() >= 1
    &&& rows[0] == 0
    &&& rows.last() == nnz
    &&& forall|i: int, j: int| 0 <= i <= j < rows.len() ==> rows[i] <= rows[j]
}

/// Entry `(r, off)` of the column index: slot `off` holds column `c` and
/// lies in row `r`.
pub open spec fn column_entry_ok(rows: Seq<usize>, cols: Seq<usize>, c: usize, e: (usize, usize)) -> bool {
    &&& e.0 + 1 < rows.len()
    &&& e.1 < cols.len()
    &&& cols[e.1 as int] == c
    &&& rows[e.0 as int] <= e.1 < rows[e.0 + 1]
}

/// The column index `ci` lists slot `off` under column `c`.
pub open spec fn lists_slot(ci: Map<usize, Vec<(usize, usize)>>, c: usize, off: int) -> bool {
    &&& ci.contains_key(c)
    &&& exists|t: int| 0 <= t < ci[c]@.len() && (#[trigger] ci[c]@[t]).1 == off
}

/// Builds the reverse (column) index of a CSR layout: for every column `c`
/// that occurs, and for no other, the `(row, slot)` pairs of its slots in
/// increasing slot order.
pub fn column_index(rows: &[usize], cols: &[usize]) -> (ci: HashMap<usize, Vec<(usize, usize)>>)
    requires
        valid_row_pointers(rows@, cols@.len() as int),
    ensures
        forall|c: usize, t: int|
            #[trigger] ci@.contains_key(c) && 0 <= t < ci@[c]@.len() ==> column_entry_ok(
                rows@,
                cols@,
                c,
                #[trigger] ci@[c]@[t],
            ),
        forall|c: usize, t: int, u: int|
            #[trigger] ci@.contains_key(c) && 0 <= t < u < ci@[c]@.len() ==> (#[trigger] ci@[c]@[t]).1
                < (#[trigger] ci@[c]@[u]).1,
        forall|off: int| 0 <= off < cols@.len() ==> #[trigger] lists_slot(ci@, cols@[off], off),
        forall|c: usize| #[trigger] ci@.contains_key(c) ==> ci@[c]@.len() > 0,
{
    broadcast use vstd::std_specs::hash::group_hash_axioms;

    let n = rows.len() - 1;
    let mut ci: HashMap<usize, Vec<(usize, usize)>> = HashMap::new();
    let mut r: usize = 0;
    while r < n
        invariant
            n + 1 == rows@.len(),
            valid_row_pointers(rows@, cols@.len() as int),
            r <= n,
            forall|c: usize, t: int|
                #[trigger] ci@.contains_key(c) && 0 <= t < ci@[c]@.len() ==> column_entry_ok(
                    rows@,
                    cols@,
                    c,
                    #[trigger] ci@[c]@[t],
                ) && ci@[c]@[t].1 < rows@[r as int],
            forall|c: usize, t: int, u: int|
                #[trigger] ci@.contains_key(c) && 0 <= t < u < ci@[c]@.len() ==> (
                #[trigger] ci@[c]@[t]).1 < (#[trigger] ci@[c]@[u]).1,
            forall|o: int| 0 <= o < rows@[r as int] ==> #[trigger] lists_slot(ci@, cols@[o], o),
            forall|c: usize| #[trigger] ci@.contains_key(c) ==> ci@[c]@.len() > 0,
        decreases n - r,
    {
        let mut off: usize = rows[r];
        let end = rows[r + 1];
        while off < end
            invariant
                n + 1 == rows@.len(),
                valid_row_pointers(rows@, cols@.len() as int),
                r < n,
                end == rows@[r + 1],
                rows@[r as int] <= off <= end,
                forall|c: usize, t: int|
                    #[trigger] ci@.contains_key(c) && 0 <= t < ci@[c]@.len() ==> column_entry_ok(
                        rows@,
                        cols@,
                        c,
                        #[trigger] ci@[c]@[t],
                    ) && ci@[c]@[t].1 < off,
                forall|c: usize, t: int, u: int|
                    #[trigger] ci@.contains_key(c) && 0 <= t < u < ci@[c]@.len() ==> (
                    #[trigger] ci@[c]@[t]).1 < (#[trigger] ci@[c]@[u]).1,
                forall|o: int| 0 <= o < off ==> #[trigger] lists_slot(ci@, cols@[o], o),
                forall|c: usize| #[trigger] ci@.contains_key(c) ==> ci@[c]@.len() > 0,
            decreases end - off,
        {
            proof {
                assert(rows@[r + 1] <= rows@.last());
            }
            let c = cols[off];
            let ghost before = ci@;
            let mut list = match ci.remove(&c) {
                Some(v) => v,
                None => Vec::new(),
            };
            let ghost old_list = list@;
            proof {
                if before.contains_key(c) {
                    assert(old_list == before[c]@);
                } else {
                    assert(old_list.len() == 0);
                }
            }
            list.push((r, off));
            ci.insert(c, list);
            proof {
                assert(ci@ == before.insert(c, list));
                assert forall|d: usize, t: int|
                    #[trigger] ci@.contains_key(d) && 0 <= t < ci@[d]@.len() implies column_entry_ok(
                    rows@,
                    cols@,
                    d,
                    #[trigger] ci@[d]@[t],
                ) && ci@[d]@[t].1 < off + 1 by {
                    if d == c && t == old_list.len() {
                        assert(ci@[d]@[t] == (r, off));
                    } else if d == c {
                        assert(ci@[d]@[t] == old_list[t]);
                        assert(before.contains_key(c));
                        assert(before[c]@[t] == old_list[t]);
                    } else {
                        assert(ci@[d] == before[d]);
                    }
                }
                assert forall|d: usize, t: int, u: int|
                    #[trigger] ci@.contains_key(d) && 0 <= t < u < ci@[d]@.len() implies (
                    #[trigger] ci@[d]@[t]).1 < (#[trigger] ci@[d]@[u]).1 by {
                    if d == c {
                        assert(before.contains_key(c) || old_list.len() == 0);
                        if u == old_list.len() {
                            assert(ci@[d]@[t] == old_list[t]);
                            assert(before[c]@[t] == old_list[t]);
                        } else {
                            assert(ci@[d]@[t] == old_list[t]);
                            assert(ci@[d]@[u] == old_list[u]);
                            assert(before[c]@[t] == old_list[t]);
                            assert(before[c]@[u] == old_list[u]);
                        }
                    } else {
                        assert(ci@[d] == before[d]);
                    }
                }
                assert forall|o: int| 0 <= o < off + 1 implies #[trigger] lists_slot(ci@, cols@[o], o) by {
                    if o == off {
                        assert(ci@[c]@[old_list.len() as int] == (r, off));
                    } else {
                        let d = cols@[o];
                        assert(lists_slot(before, d, o));
                        let t = choose|t: int| 0 <= t < before[d]@.len() && (#[trigger] before[d]@[t]).1 == o;
                        if d == c {
                            assert(before[c]@[t] == old_list[t]);
                            assert(ci@[d]@[t] == old_list[t]);
                        } else {
                            assert(ci@[d] == before[d]);
                        }
                    }
                }
            }
            proof {
                assert forall|d: usize| #[trigger] ci@.contains_key(d) implies ci@[d]@.len() > 0 by {
                    if d != c {
                        assert(ci@[d] == before[d]);
                    }
                }
            }
            off = off + 1;
        }
        r = r + 1;
    }
    proof {
        assert(rows@[n as int] == rows@.last());
    }
    ci
}

/// Value of the last row pointer (0 for an empty pointer list).
pub open spec fn last_pointer(rows: Seq<usize>) -> usize {
    if rows.len() == 0 {
        0
    } else {
        rows.last()
    }
}

/// Extends the row pointers of a CSR layout to `new_num_nodes` rows; the
/// added rows are empty (they repeat the last pointer). Returns false, and
/// changes nothing, when the layout already has that many rows.
pub fn grow_rows(rows: &mut Vec<usize>, new_num_nodes: usize) -> (grew: bool)
    requires
        new_num_nodes < usize::MAX,
    ensures
        grew == (new_num_nodes + 1 > old(rows)@.len()),
        !grew ==> final(rows)@ == old(rows)@,
        grew ==> final(rows)@.len() == new_num_nodes + 1 && final(rows)@.take(old(rows)@.len() as int)
            == old(rows)@ && forall|r: int|
            old(rows)@.len() <= r <= new_num_nodes ==> #[trigger] final(rows)@[r] == last_pointer(
                old(rows)@,
            ),
{
    let len = rows.len();
    if new_num_nodes + 1 <= len {
        return false;
    }
    let last: usize = if len == 0 {
        0
    } else {
        rows[len - 1]
    };
    let ghost before = rows@;
    while rows.len() < new_num_nodes + 1
        invariant
            new_num_nodes < usize::MAX,
            before.len() <= rows@.len() <= new_num_nodes + 1,
            rows@.take(before.len() as int) == before,
            last == last_pointer(before),
            forall|r: int| before.len() <= r < rows@.len() ==> #[trigger] rows@[r] == last,
        decreases new_num_nodes + 1 - rows.len(),
    {
        rows.push(last);
        proof {
            assert(rows@.take(before.len() as int) =~= before);
        }
    }
    true
}

} // verus!
