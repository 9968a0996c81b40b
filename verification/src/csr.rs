//! The compressed sparse row structure and its builder.
//!
//! `row_pointer[r]` counts the triples whose row index is below `r`, so for
//! every row the slice `column_index[row_pointer[r]..row_pointer[r + 1]]`
//! holds exactly that row's columns, in non-decreasing order; `values` holds
//! the value tokens in the same order.

use vstd::prelude::*;
use crate::entry::RawEntry;
use crate::entry::SpecEntry;
use crate::sort::key_le;
use crate::sort::sorted_by_key;

verus! {

/// Number of triples with row index below `r`.
pub open spec fn count_rows_lt(s: Seq<SpecEntry>, r: int) -> int
    decreases s.len(),
{
    if s.len() == 0 {
        0
    } else {
        count_rows_lt(s.drop_last(), r) + if s.last().row < r {
            1int
        } else {
            0int
        }
    }
}

/// All row indices lie in `[0, rc)`.
pub open spec fn rows_within(s: Seq<SpecEntry>, rc: int) -> bool {
    forall|i: int| 0 <= i < s.len() ==> 0 <= #[trigger] s[i].row < rc
}

pub proof fn lemma_count_bounds(s: Seq<SpecEntry>, r: int)
    ensures
        0 <= count_rows_lt(s, r) <= s.len(),
    decreases s.len(),
{
    if s.len() > 0 {
        lemma_count_bounds(s.drop_last(), r);
    }
}

pub proof fn lemma_count_mono(s: Seq<SpecEntry>, r1: int, r2: int)
    requires
        r1 <= r2,
    ensures
        count_rows_lt(s, r1) <= count_rows_lt(s, r2),
    decreases s.len(),
{
    if s.len() > 0 {
        lemma_count_mono(s.drop_last(), r1, r2);
    }
}

pub proof fn lemma_count_zero(s: Seq<SpecEntry>, rc: int)
    requires
        rows_within(s, rc),
    ensures
        count_rows_lt(s, 0) == 0,
    decreases s.len(),
{
    if s.len() > 0 {
        assert(forall|i: int| 0 <= i < s.drop_last().len() ==> 0 <= #[trigger] s.drop_last()[i].row
            < rc);
        lemma_count_zero(s.drop_last(), rc);
    }
}

pub proof fn lemma_count_all(s: Seq<SpecEntry>, rc: int)
    requires
        forall|i: int| 0 <= i < s.len() ==> #[trigger] s[i].row < rc,
    ensures
        count_rows_lt(s, rc) == s.len(),
    decreases s.len(),
{
    if s.len() > 0 {
        assert(forall|i: int| 0 <= i < s.drop_last().len() ==> #[trigger] s.drop_last()[i].row
            < rc);
        lemma_count_all(s.drop_last(), rc);
    }
}

/// In a sorted sequence, position `i` holds a row below `r` exactly when `i`
/// is below the count of such rows.
pub proof fn lemma_count_char(s: Seq<SpecEntry>, r: int)
    requires
        sorted_by_key(s),
    ensures
        forall|i: int| 0 <= i < s.len() ==> (#[trigger] s[i].row < r <==> i < count_rows_lt(s, r)),
    decreases s.len(),
{
    if s.len() > 0 {
        let d = s.drop_last();
        assert(forall|i: int, j: int|
            0 <= i < j < d.len() ==> #[trigger] key_le(d[i], d[j])) by {
            assert(forall|i: int, j: int|
                0 <= i < j < d.len() ==> d[i] == s[i] && d[j] == s[j]);
        }
        lemma_count_char(d, r);
        lemma_count_bounds(d, r);
        if s.last().row < r {
            assert forall|i: int| 0 <= i < d.len() implies #[trigger] d[i].row < r by {
                assert(key_le(s[i], s[s.len() - 1]));
                assert(d[i] == s[i]);
            }
            lemma_count_all(d, r);
            assert(count_rows_lt(s, r) == s.len());
        } else {
            assert(count_rows_lt(s, r) == count_rows_lt(d, r));
            assert(count_rows_lt(s, r) <= s.len() - 1);
        }
        assert forall|i: int| 0 <= i < s.len() implies (#[trigger] s[i].row < r <==> i
            < count_rows_lt(s, r)) by {
            if i < s.len() - 1 {
                assert(d[i] == s[i]);
                assert(d[i].row < r <==> i < count_rows_lt(d, r));
                if s.last().row < r {
                    assert(d[i].row < r);
                } else {
                    assert(count_rows_lt(s, r) == count_rows_lt(d, r));
                }
            }
        }
    }
}

/// In a sorted, in-bounds sequence, the positions between the counts for `k`
/// and `k + 1` hold exactly the triples of row `k`.
pub proof fn lemma_row_slice(s: Seq<SpecEntry>, rc: int, k: int, i: int)
    requires
        sorted_by_key(s),
        rows_within(s, rc),
        0 <= k < rc,
        count_rows_lt(s, k) <= i < count_rows_lt(s, k + 1),
    ensures
        0 <= i < s.len(),
        s[i].row == k,
{
    lemma_count_bounds(s, k + 1);
    lemma_count_bounds(s, k);
    lemma_count_char(s, k);
    lemma_count_char(s, k + 1);
}

/// The compressed sparse row form of the matrix.  The value tokens are the
/// validated source spellings of the 64-bit float values, in the same order
/// as `column_index`; turning them into numbers is the caller's concern.
pub struct SparseMatrixCSR {
    pub row_count: usize,
    pub col_count: usize,
    pub row_pointer: Vec<usize>,
    pub column_index: Vec<usize>,
    pub values: Vec<Vec<u8>>,
}

/// Well-formedness of the compressed layout: the pointer array has one slot
/// per row plus one, starts at zero, never decreases, ends at the entry
/// count, and every row's columns are in range and non-decreasing.
pub open spec fn csr_wf(c: SparseMatrixCSR) -> bool {
    &&& c.row_pointer@.len() == c.row_count + 1
    &&& c.row_pointer@[0] == 0
    &&& forall|k: int| 0 <= k < c.row_count ==> #[trigger] c.row_pointer@[k] <= c.row_pointer@[k
        + 1]
    &&& c.row_pointer@[c.row_count as int] == c.column_index@.len()
    &&& c.values@.len() == c.column_index@.len()
    &&& forall|i: int| 0 <= i < c.column_index@.len() ==> #[trigger] c.column_index@[i]
        < c.col_count
    &&& forall|k: int, i: int, j: int|
        0 <= k < c.row_count && #[trigger] c.row_pointer@[k] <= i < j < c.row_pointer@[k + 1]
            ==> #[trigger] c.column_index@[i] <= #[trigger] c.column_index@[j]
}

/// Builds the row pointer array: slot `k` is the count of triples with row
/// index below `k`, with skipped rows backfilled at the running count.
pub fn build_row_pointer(entries: &Vec<RawEntry>, row_count: usize) -> (r: Vec<usize>)
    requires
        sorted_by_key(entries.deep_view()),
        rows_within(entries.deep_view(), row_count as int),
        row_count < usize::MAX,
    ensures
        r@.len() == row_count + 1,
        forall|k: int| 0 <= k <= row_count ==> #[trigger] r@[k] == count_rows_lt(
            entries.deep_view(),
            k,
        ),
{
    let ghost s = entries.deep_view();
    let mut r: Vec<usize> = Vec::new();
    r.push(0);
    proof {
        lemma_count_zero(s, row_count as int);
    }
    let mut j: usize = 0;
    let mut k: usize = 0;
    while k < row_count
        invariant
            s == entries.deep_view(),
            sorted_by_key(s),
            rows_within(s, row_count as int),
            entries@.len() == s.len(),
            k <= row_count < usize::MAX,
            r@.len() == k + 1,
            j <= s.len(),
            j as int == count_rows_lt(s, k as int),
            forall|q: int| 0 <= q <= k ==> #[trigger] r@[q] == count_rows_lt(s, q),
            forall|i: int| 0 <= i < j ==> (#[trigger] s[i].row) < k + 1,
        decreases row_count - k,
    {
        proof {
            lemma_count_char(s, k + 1);
            lemma_count_bounds(s, k + 1);
            lemma_count_mono(s, k as int, k + 1);
        }
        while j < entries.len() && entries[j].row <= k
            invariant
                s == entries.deep_view(),
                sorted_by_key(s),
                entries@.len() == s.len(),
                k < row_count,
                j <= s.len(),
                forall|i: int| 0 <= i < j ==> (#[trigger] s[i].row) < k + 1,
                forall|i: int| 0 <= i < s.len() ==> (#[trigger] s[i].row < k + 1 <==> i
                    < count_rows_lt(s, k + 1)),
                count_rows_lt(s, k + 1) <= s.len(),
            decreases s.len() - j,
        {
            proof {
                assert(entries@[j as int].deep_view() == s[j as int]);
            }
            j = j + 1;
        }
        proof {
            if j < s.len() {
                assert(entries@[j as int].deep_view() == s[j as int]);
                assert(s[j as int].row >= k + 1);
            }
            assert(j as int == count_rows_lt(s, k + 1)) by {
                if (j as int) < count_rows_lt(s, k + 1) {
                    assert(s[j as int].row < k + 1);
                }
                if (j as int) > count_rows_lt(s, k + 1) {
                    assert(s[j - 1].row < k + 1);
                    assert(j - 1 < count_rows_lt(s, k + 1));
                }
            }
        }
        r.push(j);
        k = k + 1;
    }
    r
}

/// The row that position `i` of the entry arrays belongs to: the first slot
/// `k` at or after `from` with `i` below `rp[k + 1]`.
pub open spec fn expand_row(rp: Seq<usize>, i: int, from: int) -> int
    decreases rp.len() - from,
{
    if from + 1 >= rp.len() {
        from
    } else if i < rp[from + 1] {
        from
    } else {
        expand_row(rp, i, from + 1)
    }
}

/// The triples that a compressed matrix lists, re-expanded in storage order:
/// each position's row is read off the pointer array, its column and value
/// from the parallel arrays.
pub open spec fn spec_expanded(c: SparseMatrixCSR) -> Seq<SpecEntry> {
    Seq::new(
        c.column_index@.len(),
        |i: int|
            SpecEntry {
                row: expand_row(c.row_pointer@, i, 0),
                col: c.column_index@[i] as int,
                value: c.values@[i]@,
            },
    )
}

/// Walking the pointer array finds exactly the row of the triple stored at
/// position `i`, when the pointers are the row counts of a sorted sequence.
proof fn lemma_expand_row_finds(
    rp: Seq<usize>,
    s: Seq<SpecEntry>,
    rc: int,
    i: int,
    from: int,
)
    requires
        sorted_by_key(s),
        rows_within(s, rc),
        rp.len() == rc + 1,
        forall|q: int| 0 <= q <= rc ==> #[trigger] rp[q] == count_rows_lt(s, q),
        0 <= i < s.len(),
        0 <= from <= s[i].row,
    ensures
        expand_row(rp, i, from) == s[i].row,
    decreases rp.len() - from,
{
    let r = s[i].row;
    lemma_count_char(s, r);
    lemma_count_char(s, r + 1);
    lemma_count_bounds(s, r);
    assert(count_rows_lt(s, r) <= i) by {
        assert(!(s[i].row < r));
    }
    assert(i < count_rows_lt(s, r + 1));
    if from + 1 >= rp.len() {
        assert(from >= rc);
        assert(r < rc);
        assert(false);
    } else if i < rp[from + 1] {
        assert(count_rows_lt(s, from + 1) > i);
        if from < r {
            lemma_count_mono(s, from + 1, r);
            assert(count_rows_lt(s, from + 1) <= count_rows_lt(s, r));
            assert(false);
        }
    } else {
        assert(count_rows_lt(s, from + 1) <= i);
        if from == r {
            assert(false);
        }
        lemma_expand_row_finds(rp, s, rc, i, from + 1);
    }
}

/// Round trip: a well-formed load lists its sorted triples exactly, so
/// re-expanding the three arrays gives back the canonical triple sequence,
/// and the same multiset as the unsorted parse.
pub proof fn lemma_expanded_matches(c: SparseMatrixCSR, s: Seq<SpecEntry>)
    requires
        sorted_by_key(s),
        rows_within(s, c.row_count as int),
        c.row_pointer@.len() == c.row_count + 1,
        forall|q: int| 0 <= q <= c.row_count ==> #[trigger] c.row_pointer@[q] == count_rows_lt(
            s,
            q,
        ),
        c.column_index@.len() == s.len(),
        forall|i: int| 0 <= i < s.len() ==> #[trigger] c.column_index@[i] == s[i].col,
        c.values@.len() == s.len(),
        forall|i: int| 0 <= i < s.len() ==> (#[trigger] c.values@[i])@ == s[i].value,
    ensures
        spec_expanded(c) == s,
{
    assert forall|i: int| 0 <= i < s.len() implies spec_expanded(c)[i] == s[i] by {
        lemma_expand_row_finds(c.row_pointer@, s, c.row_count as int, i, 0);
    }
    assert(spec_expanded(c) =~~= s);
}

} // verus!
