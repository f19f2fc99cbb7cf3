use vstd::prelude::*;

verus! {

/// The sum of the lengths of all adjacency rows: twice the number of
/// undirected edges of the multigraph the rows represent.
pub open spec fn deg_sum(rows: Seq<Vec<usize>>) -> int
    decreases rows.len(),
{
    if rows.len() == 0 {
        0
    } else {
        deg_sum(rows.drop_last()) + rows.last()@.len()
    }
}

/// How many entries of `row` equal `b`: the number of arcs to `b`
/// recorded at the row's vertex.
pub open spec fn row_count(row: Seq<usize>, b: usize) -> int
    decreases row.len(),
{
    if row.len() == 0 {
        0
    } else {
        row_count(row.drop_last(), b) + (if row.last() == b {
            1int
        } else {
            0int
        })
    }
}

/// How many consecutive pairs of `w` step from `a` to `b`.
pub open spec fn step_count(w: Seq<usize>, a: usize, b: usize) -> int
    decreases w.len(),
{
    if w.len() <= 1 {
        0
    } else {
        step_count(w.drop_last(), a, b) + (if w[w.len() - 2] == a && w.last() == b {
            1int
        } else {
            0int
        })
    }
}

/// Removing entry `i` lowers by one the count of the value it held and
/// leaves every other count alone.
pub proof fn lemma_row_count_remove(row: Seq<usize>, i: int, b: usize)
    requires
        0 <= i < row.len(),
    ensures
        row_count(row.remove(i), b) == row_count(row, b) - (if row[i] == b {
            1int
        } else {
            0int
        }),
    decreases row.len(),
{
    if i == row.len() - 1 {
        assert(row.remove(i) =~= row.drop_last());
    } else {
        assert(row.remove(i).drop_last() =~= row.drop_last().remove(i));
        assert(row.remove(i).last() == row.last());
        lemma_row_count_remove(row.drop_last(), i, b);
    }
}

/// Appending an entry raises only that value's count.
pub proof fn lemma_row_count_push(row: Seq<usize>, w: usize, b: usize)
    ensures
        row_count(row.push(w), b) == row_count(row, b) + (if w == b {
            1int
        } else {
            0int
        }),
{
    assert(row.push(w).drop_last() =~= row);
}

/// How many entries of a boolean sequence are set.
pub open spec fn num_true(s: Seq<bool>) -> int
    decreases s.len(),
{
    if s.len() == 0 {
        0
    } else {
        num_true(s.drop_last()) + (if s.last() {
            1int
        } else {
            0int
        })
    }
}

pub proof fn lemma_deg_sum_nonneg(rows: Seq<Vec<usize>>)
    ensures
        deg_sum(rows) >= 0,
    decreases rows.len(),
{
    if rows.len() > 0 {
        lemma_deg_sum_nonneg(rows.drop_last());
    }
}

pub proof fn lemma_deg_sum_congruence(s1: Seq<Vec<usize>>, s2: Seq<Vec<usize>>)
    requires
        s1.len() == s2.len(),
        forall|u: int| 0 <= u < s1.len() ==> s1[u]@.len() == s2[u]@.len(),
    ensures
        deg_sum(s1) == deg_sum(s2),
    decreases s1.len(),
{
    if s1.len() > 0 {
        lemma_deg_sum_congruence(s1.drop_last(), s2.drop_last());
    }
}

/// Changing one row's length by `delta` changes the row sum by `delta`.
pub proof fn lemma_deg_sum_change(s1: Seq<Vec<usize>>, s2: Seq<Vec<usize>>, v: int, delta: int)
    requires
        s1.len() == s2.len(),
        0 <= v < s1.len(),
        s2[v]@.len() == s1[v]@.len() + delta,
        forall|u: int| 0 <= u < s1.len() && u != v ==> s1[u]@.len() == s2[u]@.len(),
    ensures
        deg_sum(s2) == deg_sum(s1) + delta,
    decreases s1.len(),
{
    if v == s1.len() - 1 {
        lemma_deg_sum_congruence(s1.drop_last(), s2.drop_last());
    } else {
        lemma_deg_sum_change(s1.drop_last(), s2.drop_last(), v, delta);
    }
}

/// The row sum dominates every single row's length.
pub proof fn lemma_deg_sum_row_le(rows: Seq<Vec<usize>>, v: int)
    requires
        0 <= v < rows.len(),
    ensures
        deg_sum(rows) >= rows[v]@.len(),
    decreases rows.len(),
{
    if v == rows.len() - 1 {
        lemma_deg_sum_nonneg(rows.drop_last());
    } else {
        lemma_deg_sum_row_le(rows.drop_last(), v);
    }
}

/// A zero row sum means every row is empty.
pub proof fn lemma_deg_sum_zero(rows: Seq<Vec<usize>>)
    requires
        deg_sum(rows) == 0,
    ensures
        forall|v: int| 0 <= v < rows.len() ==> rows[v]@.len() == 0,
    decreases rows.len(),
{
    if rows.len() > 0 {
        lemma_deg_sum_nonneg(rows.drop_last());
        lemma_deg_sum_zero(rows.drop_last());
        assert forall|v: int| 0 <= v < rows.len() implies rows[v]@.len() == 0 by {
            if v < rows.len() - 1 {
                assert(rows.drop_last()[v]@.len() == 0);
            }
        }
    }
}

/// A pointwise-equal prefix of a row sequence has a smaller row sum.
pub proof fn lemma_deg_sum_prefix_le(s1: Seq<Vec<usize>>, s2: Seq<Vec<usize>>)
    requires
        s1.len() <= s2.len(),
        forall|u: int| 0 <= u < s1.len() ==> s1[u]@.len() == s2[u]@.len(),
    ensures
        deg_sum(s1) <= deg_sum(s2),
    decreases s2.len(),
{
    if s1.len() == s2.len() {
        lemma_deg_sum_congruence(s1, s2);
    } else {
        lemma_deg_sum_prefix_le(s1, s2.drop_last());
    }
}

/// If no row grows by more than one entry, the row sum grows by at most
/// one entry per row.
pub proof fn lemma_deg_sum_pointwise_le(s1: Seq<Vec<usize>>, s2: Seq<Vec<usize>>)
    requires
        s1.len() == s2.len(),
        forall|u: int| 0 <= u < s1.len() ==> s2[u]@.len() <= s1[u]@.len() + 1,
    ensures
        deg_sum(s2) <= deg_sum(s1) + s1.len(),
    decreases s1.len(),
{
    if s1.len() > 0 {
        lemma_deg_sum_pointwise_le(s1.drop_last(), s2.drop_last());
    }
}

/// All rows empty means a zero row sum.
pub proof fn lemma_deg_sum_all_empty(rows: Seq<Vec<usize>>)
    requires
        forall|v: int| 0 <= v < rows.len() ==> rows[v]@.len() == 0,
    ensures
        deg_sum(rows) == 0,
    decreases rows.len(),
{
    if rows.len() > 0 {
        lemma_deg_sum_all_empty(rows.drop_last());
    }
}

/// How many rows have odd length.
pub open spec fn num_odd(rows: Seq<Vec<usize>>) -> int
    decreases rows.len(),
{
    if rows.len() == 0 {
        0
    } else {
        num_odd(rows.drop_last()) + (if rows.last()@.len() % 2 == 1 {
            1int
        } else {
            0int
        })
    }
}

/// The handshake property: the number of odd rows has the parity of
/// the row sum.
pub proof fn lemma_num_odd_parity(rows: Seq<Vec<usize>>)
    ensures
        num_odd(rows) % 2 == deg_sum(rows) % 2,
    decreases rows.len(),
{
    if rows.len() > 0 {
        lemma_num_odd_parity(rows.drop_last());
    }
}

pub proof fn lemma_num_true_nonneg(s: Seq<bool>)
    ensures
        0 <= num_true(s) <= s.len(),
    decreases s.len(),
{
    if s.len() > 0 {
        lemma_num_true_nonneg(s.drop_last());
    }
}

/// Setting a clear entry raises the count by one.
pub proof fn lemma_num_true_set(s: Seq<bool>, v: int)
    requires
        0 <= v < s.len(),
        !s[v],
    ensures
        num_true(s.update(v, true)) == num_true(s) + 1,
    decreases s.len(),
{
    let s2 = s.update(v, true);
    if v == s.len() - 1 {
        assert(s2.drop_last() =~= s.drop_last());
    } else {
        assert(s2.drop_last() =~= s.drop_last().update(v, true));
        lemma_num_true_set(s.drop_last(), v);
    }
}

/// A full count means every entry is set, and conversely.
pub proof fn lemma_num_true_full(s: Seq<bool>)
    requires
        forall|v: int| 0 <= v < s.len() ==> s[v],
    ensures
        num_true(s) == s.len(),
    decreases s.len(),
{
    if s.len() > 0 {
        assert forall|v: int| 0 <= v < s.len() - 1 implies s.drop_last()[v] by {
            assert(s[v]);
        }
        lemma_num_true_full(s.drop_last());
    }
}

/// No entry set means a zero count.
pub proof fn lemma_num_true_none(s: Seq<bool>)
    requires
        forall|v: int| 0 <= v < s.len() ==> !s[v],
    ensures
        num_true(s) == 0,
    decreases s.len(),
{
    if s.len() > 0 {
        assert forall|v: int| 0 <= v < s.len() - 1 implies !s.drop_last()[v] by {
            assert(!s[v]);
        }
        lemma_num_true_none(s.drop_last());
    }
}

/// All entries but one set means a count one short of full.
pub proof fn lemma_num_true_except(s: Seq<bool>, v: int)
    requires
        0 <= v < s.len(),
        !s[v],
        forall|u: int| 0 <= u < s.len() && u != v ==> s[u],
    ensures
        num_true(s) == s.len() - 1,
    decreases s.len(),
{
    if v == s.len() - 1 {
        assert forall|u: int| 0 <= u < s.len() - 1 implies s.drop_last()[u] by {
            assert(s[u]);
        }
        lemma_num_true_full(s.drop_last());
    } else {
        lemma_num_true_except(s.drop_last(), v);
        assert(s[s.len() - 1]);
    }
}

/// A partial count means some entry is clear.
pub proof fn lemma_num_true_partial(s: Seq<bool>)
    requires
        num_true(s) < s.len(),
    ensures
        exists|v: int| 0 <= v < s.len() && !s[v],
    decreases s.len(),
{
    if s.len() > 0 {
        if s.last() {
            lemma_num_true_partial(s.drop_last());
            let v = choose|v: int| 0 <= v < s.drop_last().len() && !s.drop_last()[v];
            assert(!s[v]);
        } else {
            assert(!s[s.len() - 1]);
        }
    }
}

/// Copies a full set of adjacency rows.
pub fn copy_rows(rows: &Vec<Vec<usize>>) -> (r: Vec<Vec<usize>>)
    ensures
        r@.len() == rows@.len(),
        forall|u: int| 0 <= u < rows@.len() ==> #[trigger] r@[u]@ == rows@[u]@,
{
    let n: usize = rows.len();
    let mut r: Vec<Vec<usize>> = Vec::new();
    let mut v: usize = 0;
    while v < n
        invariant
            v <= n,
            n == rows@.len(),
            r@.len() == v,
            forall|u: int| 0 <= u < v ==> #[trigger] r@[u]@ == rows@[u]@,
        decreases n - v,
    {
        let mut row: Vec<usize> = Vec::new();
        let row_len: usize = rows[v].len();
        let mut k: usize = 0;
        while k < row_len
            invariant
                k <= row_len,
                v < n,
                n == rows@.len(),
                row_len == rows@[v as int]@.len(),
                row@ == rows@[v as int]@.subrange(0, k as int),
            decreases row_len - k,
        {
            let e: usize = rows[v][k];
            row.push(e);
            proof {
                assert(row@ =~= rows@[v as int]@.subrange(0, k + 1));
            }
            k = k + 1;
        }
        proof {
            assert(row@ =~= rows@[v as int]@);
        }
        r.push(row);
        v = v + 1;
    }
    r
}

/// Appends `w` to row `v`.
pub fn row_push(rows: &mut Vec<Vec<usize>>, v: usize, w: usize)
    requires
        v < old(rows)@.len(),
    ensures
        final(rows)@.len() == old(rows)@.len(),
        final(rows)@[v as int]@ == old(rows)@[v as int]@.push(w),
        forall|u: int|
            0 <= u < old(rows)@.len() && u != v ==> final(rows)@[u]@ == old(rows)@[u]@,
        deg_sum(final(rows)@) == deg_sum(old(rows)@) + 1,
{
    let ghost rows0 = rows@;
    let mut row: Vec<usize> = rows.remove(v);
    row.push(w);
    rows.insert(v, row);
    proof {
        assert(rows@ =~= rows0.update(v as int, rows@[v as int]));
        lemma_deg_sum_change(rows0, rows@, v as int, 1);
    }
}

/// Removes and returns the last entry of row `v`.
pub fn row_pop(rows: &mut Vec<Vec<usize>>, v: usize) -> (w: usize)
    requires
        v < old(rows)@.len(),
        old(rows)@[v as int]@.len() > 0,
    ensures
        final(rows)@.len() == old(rows)@.len(),
        w == old(rows)@[v as int]@.last(),
        final(rows)@[v as int]@ == old(rows)@[v as int]@.drop_last(),
        forall|u: int|
            0 <= u < old(rows)@.len() && u != v ==> final(rows)@[u]@ == old(rows)@[u]@,
        deg_sum(final(rows)@) == deg_sum(old(rows)@) - 1,
{
    let ghost rows0 = rows@;
    let mut row: Vec<usize> = rows.remove(v);
    let w: usize = row.pop().unwrap();
    rows.insert(v, row);
    proof {
        assert(rows@ =~= rows0.update(v as int, rows@[v as int]));
        lemma_deg_sum_change(rows0, rows@, v as int, -1);
    }
    w
}

/// Removes the first occurrence of `w` from row `v`; reports whether
/// one was there.
pub fn row_remove_first(rows: &mut Vec<Vec<usize>>, v: usize, w: usize) -> (found: bool)
    requires
        v < old(rows)@.len(),
    ensures
        final(rows)@.len() == old(rows)@.len(),
        forall|u: int|
            0 <= u < old(rows)@.len() && u != v ==> final(rows)@[u]@ == old(rows)@[u]@,
        !found ==> final(rows)@[v as int]@ == old(rows)@[v as int]@ && !old(rows)@[v as int]@.contains(
            w,
        ),
        found ==> final(rows)@[v as int]@.len() == old(rows)@[v as int]@.len() - 1,
        found ==> exists|i: int|
            0 <= i < old(rows)@[v as int]@.len() && old(rows)@[v as int]@[i] == w
                && final(rows)@[v as int]@ == old(rows)@[v as int]@.remove(i),
        found ==> deg_sum(final(rows)@) == deg_sum(old(rows)@) - 1,
        !found ==> deg_sum(final(rows)@) == deg_sum(old(rows)@),
        forall|k: int|
            0 <= k < final(rows)@[v as int]@.len() ==> old(rows)@[v as int]@.contains(
                #[trigger] final(rows)@[v as int]@[k],
            ),
{
    let ghost rows0 = rows@;
    let mut row: Vec<usize> = rows.remove(v);
    let ghost row0 = row@;
    let len: usize = row.len();
    let mut i: usize = 0;
    let mut pos: usize = len;
    while i < len
        invariant
            i <= len,
            len == row@.len(),
            row@ == row0,
            pos == len || (pos < i && row@[pos as int] == w),
            pos == len ==> forall|k: int| 0 <= k < i ==> row@[k] != w,
        decreases len - i,
    {
        if pos == len && row[i] == w {
            pos = i;
        }
        i = i + 1;
    }
    let found: bool = pos < len;
    if found {
        row.remove(pos);
        proof {
            assert forall|k: int| 0 <= k < row@.len() implies row0.contains(#[trigger] row@[k]) by {
                if k < pos {
                    assert(row@[k] == row0[k]);
                } else {
                    assert(row@[k] == row0[k + 1]);
                }
            }
        }
    } else {
        proof {
            assert forall|k: int| 0 <= k < row@.len() implies row0.contains(#[trigger] row@[k]) by {
                assert(row@[k] == row0[k]);
            }
            if row0.contains(w) {
                let k = choose|k: int| 0 <= k < row0.len() && row0[k] == w;
                assert(false);
            }
        }
    }
    rows.insert(v, row);
    proof {
        assert(rows@ =~= rows0.update(v as int, rows@[v as int]));
        if found {
            lemma_deg_sum_change(rows0, rows@, v as int, -1);
        } else {
            lemma_deg_sum_change(rows0, rows@, v as int, 0);
        }
    }
    found
}

} // verus!
