//! The loading pipeline: banner validation, dimension reading, windowed
//! tokenization, canonical sorting, and assembly of the compressed matrix.

use vstd::prelude::*;
use crate::bytes::spec_find;
use crate::bytes::spec_contains_seq;
use crate::bytes::lemma_find_props;
use crate::bytes::find_from;
use crate::bytes::split_bytes;
use crate::bytes::contains_sequence;
use crate::numbers::is_digits;
use crate::numbers::dec_val;
use crate::numbers::parse_uint;
use crate::bytes::spec_split;
use crate::entry::RawEntry;
use crate::entry::entry_bounds;
use crate::chunk::body_entries;
use crate::chunk::body_ok;
use crate::chunk::body_first_bad;
use crate::chunk::lemma_body_cut;
use crate::chunk::lemma_body_empty;
use crate::chunk::window_lo;
use crate::chunk::window_bound;
use crate::chunk::lemma_window_lo_props;
use crate::chunk::lemma_window_lo_mono;
use crate::chunk::process_chunk;
use crate::sort::spec_sort;
use crate::sort::sort_entries;
use crate::sort::key_le;
use crate::sort::lemma_sort_sorted;
use crate::sort::lemma_sort_multiset;
use crate::sort::lemma_sort_within;
use crate::sort::lemma_sort_len;
use crate::csr::SparseMatrixCSR;
use crate::csr::csr_wf;
use crate::csr::count_rows_lt;
use crate::csr::rows_within;
use crate::csr::build_row_pointer;
use crate::csr::lemma_count_zero;
use crate::csr::lemma_count_mono;
use crate::csr::lemma_count_all;
use crate::csr::lemma_row_slice;
use crate::csr::spec_expanded;
use crate::csr::lemma_expanded_matches;

verus! {

/// A failed load, carrying enough of the offending text to diagnose it.
#[derive(Debug)]
pub enum MmError {
    /// The first line holds no recognizable format marker.
    InvalidBanner,
    /// The marker is present but the banner does not declare a real-valued
    /// coordinate matrix; carries the banner line.
    UnsupportedFormat(Vec<u8>),
    /// The line after the banner is not three unsigned decimal counts that
    /// the machine can hold.
    MalformedDimensions,
    /// A body line with three tokens whose indices or value do not parse;
    /// carries that line.
    MalformedEntry(Vec<u8>),
    /// The underlying resource could not be read.  Never produced here: the
    /// caller that does the reading maps its failures to this variant.
    IoFailure,
}

/// The declared shape: rows, columns, and the announced number of entries.
/// The announced count is carried along but not enforced.
#[derive(Clone, Copy, PartialEq, Eq, Structural, Debug)]
pub struct MatrixShape {
    pub row_count: usize,
    pub col_count: usize,
    pub declared_nnz: usize,
}

pub open spec fn banner_marker() -> Seq<u8> {
    seq![37u8, 37u8, 77u8, 97u8, 116u8, 114u8, 105u8, 120u8, 77u8, 97u8, 114u8, 107u8, 101u8,
        116u8]
}

pub open spec fn kw_matrix() -> Seq<u8> {
    seq![109u8, 97u8, 116u8, 114u8, 105u8, 120u8]
}

pub open spec fn kw_coordinate() -> Seq<u8> {
    seq![99u8, 111u8, 111u8, 114u8, 100u8, 105u8, 110u8, 97u8, 116u8, 101u8]
}

pub open spec fn kw_real() -> Seq<u8> {
    seq![114u8, 101u8, 97u8, 108u8]
}

/// The banner line: everything before the first newline.
pub open spec fn spec_header(s: Seq<u8>) -> Seq<u8> {
    s.take(spec_find(s, 0, 10))
}

/// Everything after the banner line.
pub open spec fn spec_after_header(s: Seq<u8>) -> Seq<u8> {
    if spec_find(s, 0, 10) < s.len() {
        s.skip(spec_find(s, 0, 10) + 1)
    } else {
        Seq::<u8>::empty()
    }
}

/// The dimension line: the first line after the banner.
pub open spec fn spec_dims_line(s: Seq<u8>) -> Seq<u8> {
    spec_after_header(s).take(spec_find(spec_after_header(s), 0, 10))
}

/// The coordinate body: everything after the dimension line.
pub open spec fn spec_body(s: Seq<u8>) -> Seq<u8> {
    let r = spec_after_header(s);
    if spec_find(r, 0, 10) < r.len() {
        r.skip(spec_find(r, 0, 10) + 1)
    } else {
        Seq::<u8>::empty()
    }
}

/// The banner holds the format marker.
pub open spec fn banner_ok(s: Seq<u8>) -> bool {
    spec_contains_seq(spec_header(s), banner_marker())
}

/// The banner declares a real-valued coordinate matrix (substring checks,
/// matching the format's loose word order).
pub open spec fn banner_supported(s: Seq<u8>) -> bool {
    &&& spec_contains_seq(spec_header(s), kw_matrix())
    &&& spec_contains_seq(spec_header(s), kw_coordinate())
    &&& spec_contains_seq(spec_header(s), kw_real())
}

/// The shape declared by a dimension line: exactly three unsigned decimal
/// tokens, each within machine range; the row count must leave room for the
/// pointer array's extra slot.
pub open spec fn spec_shape_of(line: Seq<u8>) -> Option<(int, int, int)> {
    let tks = spec_split(line, 32);
    if tks.len() == 3 && is_digits(tks[0]) && is_digits(tks[1]) && is_digits(tks[2]) && dec_val(
        tks[0],
    ) < usize::MAX as int && dec_val(tks[1]) <= usize::MAX as int && dec_val(tks[2])
        <= usize::MAX as int {
        Some((dec_val(tks[0]), dec_val(tks[1]), dec_val(tks[2])))
    } else {
        None
    }
}

pub open spec fn spec_shape_m(s: Seq<u8>) -> int {
    match spec_shape_of(spec_dims_line(s)) {
        Some(t) => t.0,
        None => 0,
    }
}

pub open spec fn spec_shape_n(s: Seq<u8>) -> int {
    match spec_shape_of(spec_dims_line(s)) {
        Some(t) => t.1,
        None => 0,
    }
}

/// The triples of the body, in canonical (row, column) order.
pub open spec fn spec_sorted_entries(s: Seq<u8>) -> Seq<crate::entry::SpecEntry> {
    spec_sort(body_entries(spec_body(s), spec_shape_m(s), spec_shape_n(s)))
}

/// What a successfully loaded matrix holds: the declared shape, the row
/// pointer counting rows below each index, and the column and value arrays
/// listing the sorted triples in order.
pub open spec fn spec_loaded(s: Seq<u8>, c: SparseMatrixCSR) -> bool {
    let sorted = spec_sorted_entries(s);
    &&& banner_ok(s)
    &&& banner_supported(s)
    &&& spec_shape_of(spec_dims_line(s)) is Some
    &&& body_ok(spec_body(s), spec_shape_m(s), spec_shape_n(s))
    &&& c.row_count == spec_shape_m(s)
    &&& c.col_count == spec_shape_n(s)
    &&& c.row_pointer@.len() == c.row_count + 1
    &&& forall|k: int| 0 <= k <= c.row_count ==> #[trigger] c.row_pointer@[k] == count_rows_lt(
        sorted,
        k,
    )
    &&& c.column_index@.len() == sorted.len()
    &&& forall|i: int| 0 <= i < sorted.len() ==> #[trigger] c.column_index@[i] == sorted[i].col
    &&& c.values@.len() == sorted.len()
    &&& forall|i: int| 0 <= i < sorted.len() ==> (#[trigger] c.values@[i])@ == sorted[i].value
}

/// Validates the banner line: the marker must be present, and the declared
/// kind must be a real-valued coordinate matrix.
pub fn validate_banner(header: &[u8]) -> (r: Result<(), MmError>)
    ensures
        match r {
            Ok(()) => spec_contains_seq(header@, banner_marker()) && spec_contains_seq(
                header@,
                kw_matrix(),
            ) && spec_contains_seq(header@, kw_coordinate()) && spec_contains_seq(
                header@,
                kw_real(),
            ),
            Err(MmError::InvalidBanner) => !spec_contains_seq(header@, banner_marker()),
            Err(MmError::UnsupportedFormat(b)) => spec_contains_seq(header@, banner_marker())
                && !(spec_contains_seq(header@, kw_matrix()) && spec_contains_seq(
                header@,
                kw_coordinate(),
            ) && spec_contains_seq(header@, kw_real())) && b@ == header@,
            _ => false,
        },
{
    let marker: Vec<u8> = vec![37u8, 37u8, 77u8, 97u8, 116u8, 114u8, 105u8, 120u8, 77u8, 97u8,
        114u8, 107u8, 101u8, 116u8];
    proof {
        assert(marker@ =~~= banner_marker());
    }
    if !contains_sequence(header, marker.as_slice()) {
        return Err(MmError::InvalidBanner);
    }
    let w_matrix: Vec<u8> = vec![109u8, 97u8, 116u8, 114u8, 105u8, 120u8];
    let w_coordinate: Vec<u8> = vec![99u8, 111u8, 111u8, 114u8, 100u8, 105u8, 110u8, 97u8, 116u8,
        101u8];
    let w_real: Vec<u8> = vec![114u8, 101u8, 97u8, 108u8];
    proof {
        assert(w_matrix@ =~~= kw_matrix());
        assert(w_coordinate@ =~~= kw_coordinate());
        assert(w_real@ =~~= kw_real());
    }
    if !contains_sequence(header, w_matrix.as_slice()) || !contains_sequence(
        header,
        w_coordinate.as_slice(),
    ) || !contains_sequence(header, w_real.as_slice()) {
        return Err(MmError::UnsupportedFormat(vstd::slice::slice_to_vec(header)));
    }
    Ok(())
}

/// Reads the declared shape from the dimension line, as `spec_shape_of`
/// describes.
pub fn parse_dimensions(line: &[u8]) -> (r: Option<MatrixShape>)
    ensures
        match r {
            Some(sh) => spec_shape_of(line@) == Some(
                (sh.row_count as int, sh.col_count as int, sh.declared_nnz as int),
            ),
            None => spec_shape_of(line@) is None,
        },
{
    let ghost tks = spec_split(line@, 32);
    let mut parts = split_bytes(line, 32);
    if parts.len() != 3 {
        return None;
    }
    proof {
        assert(parts@[0].deep_view() == tks[0]);
        assert(parts@[1].deep_view() == tks[1]);
        assert(parts@[2].deep_view() == tks[2]);
        assert(parts@[0].deep_view() =~~= parts@[0]@);
        assert(parts@[1].deep_view() =~~= parts@[1]@);
        assert(parts@[2].deep_view() =~~= parts@[2]@);
    }
    let nnz = match parse_uint(parts[2].as_slice()) {
        Some(v) => v,
        None => {
            return None;
        },
    };
    let cols = match parse_uint(parts[1].as_slice()) {
        Some(v) => v,
        None => {
            return None;
        },
    };
    let rows = match parse_uint(parts[0].as_slice()) {
        Some(v) => v,
        None => {
            return None;
        },
    };
    if rows == usize::MAX {
        return None;
    }
    Some(MatrixShape { row_count: rows, col_count: cols, declared_nnz: nnz })
}

/// Loads a whole in-memory file in the coordinate text format into its
/// compressed sparse row form.  The body is tokenized in `workers`
/// newline-aligned windows; the result does not depend on `workers`.
pub fn load_matrix_market(buffer: &[u8], workers: usize) -> (r: Result<SparseMatrixCSR, MmError>)
    requires
        workers >= 1,
    ensures
        match r {
            Ok(c) => spec_loaded(buffer@, c) && csr_wf(c),
            Err(MmError::InvalidBanner) => !banner_ok(buffer@),
            Err(MmError::UnsupportedFormat(b)) => banner_ok(buffer@) && !banner_supported(buffer@)
                && b@ == spec_header(buffer@),
            Err(MmError::MalformedDimensions) => banner_ok(buffer@) && banner_supported(buffer@)
                && spec_shape_of(spec_dims_line(buffer@)) is None,
            Err(MmError::MalformedEntry(l)) => banner_ok(buffer@) && banner_supported(buffer@)
                && spec_shape_of(spec_dims_line(buffer@)) is Some && !body_ok(
                spec_body(buffer@),
                spec_shape_m(buffer@),
                spec_shape_n(buffer@),
            ) && l@ == body_first_bad(spec_body(buffer@), spec_shape_m(buffer@), spec_shape_n(
                buffer@,
            )),
            Err(MmError::IoFailure) => false,
        },
{
    let ghost s = buffer@;
    // Banner line.
    let hend = find_from(buffer, 0, 10);
    proof {
        lemma_find_props(s, 0, 10);
    }
    let header = &buffer[0..hend];
    proof {
        assert(header@ =~~= spec_header(s));
    }
    match validate_banner(header) {
        Ok(()) => {},
        Err(e) => {
            return Err(e);
        },
    }
    // Dimension line.
    let rest_start = if hend < buffer.len() {
        hend + 1
    } else {
        buffer.len()
    };
    let rest = &buffer[rest_start..buffer.len()];
    proof {
        assert(rest@ =~~= spec_after_header(s));
    }
    let dend = find_from(rest, 0, 10);
    proof {
        lemma_find_props(rest@, 0, 10);
    }
    let dline = &rest[0..dend];
    proof {
        assert(dline@ =~~= spec_dims_line(s));
    }
    let shape = match parse_dimensions(dline) {
        Some(sh) => sh,
        None => {
            return Err(MmError::MalformedDimensions);
        },
    };
    let m = shape.row_count;
    let n = shape.col_count;
    proof {
        assert(m as int == spec_shape_m(s));
        assert(n as int == spec_shape_n(s));
    }
    // Coordinate body, tokenized window by window.
    let body_start = if dend < rest.len() {
        dend + 1
    } else {
        rest.len()
    };
    let body = &rest[body_start..rest.len()];
    let ghost b = spec_body(s);
    proof {
        assert(body@ =~~= b);
    }
    let mut all: Vec<RawEntry> = Vec::new();
    let mut i: usize = 0;
    let mut lo: usize = 0;
    proof {
        lemma_window_lo_props(b, workers as int, 0);
        assert(b.take(0) =~~= Seq::<u8>::empty());
        lemma_body_empty(m as int, n as int);
    }
    while i < workers
        invariant
            s == buffer@,
            b == spec_body(s),
            body@ == b,
            workers >= 1,
            i <= workers,
            banner_ok(s),
            banner_supported(s),
            spec_shape_of(spec_dims_line(s)) is Some,
            m as int == spec_shape_m(s),
            n as int == spec_shape_n(s),
            lo as int == window_lo(b, workers as int, i as int),
            body_ok(b.take(lo as int), m as int, n as int),
            all.deep_view() == body_entries(b.take(lo as int), m as int, n as int),
        decreases workers - i,
    {
        let hi = window_bound(body, workers, i + 1);
        proof {
            lemma_window_lo_props(b, workers as int, i as int);
            lemma_window_lo_props(b, workers as int, i + 1);
            lemma_window_lo_mono(b, workers as int, i as int, i + 1);
        }
        let chunk = &body[lo..hi];
        let ghost t = b.take(hi as int);
        proof {
            if lo as int == b.len() {
                assert(lo == hi);
            }
            lemma_body_cut(t, lo as int, m as int, n as int);
            assert(t.take(lo as int) =~~= b.take(lo as int));
            assert(t.skip(lo as int) =~~= chunk@);
        }
        match process_chunk(chunk, m, n) {
            Ok(mut es) => {
                let ghost pre = all.deep_view();
                let ghost ges = es.deep_view();
                all.append(&mut es);
                proof {
                    assert(all.deep_view() =~~= pre + ges);
                    assert(all.deep_view() == body_entries(t, m as int, n as int));
                }
            },
            Err(l) => {
                proof {
                    lemma_body_cut(b, hi as int, m as int, n as int);
                    assert(b.take(hi as int) =~~= t);
                    assert(!body_ok(b, m as int, n as int));
                    assert(body_first_bad(b, m as int, n as int) == body_first_bad(
                        t,
                        m as int,
                        n as int,
                    ));
                    assert(body_first_bad(t, m as int, n as int) == l@);
                }
                return Err(MmError::MalformedEntry(l));
            },
        }
        lo = hi;
        i = i + 1;
    }
    proof {
        assert(lo as int == window_lo(b, workers as int, workers as int));
        assert(b.take(b.len() as int) =~~= b);
    }
    // Canonical order.
    let ghost parsed = body_entries(b, m as int, n as int);
    sort_entries(&mut all);
    let ghost sorted = spec_sort(parsed);
    proof {
        lemma_sort_sorted(parsed);
        lemma_sort_len(parsed);
        crate::chunk::lemma_lines_entries_within(spec_split(b, 10), m as int, n as int);
        lemma_sort_within(parsed, m as int, n as int);
        assert(rows_within(sorted, m as int)) by {
            assert(forall|q: int| 0 <= q < sorted.len() ==> entry_bounds(#[trigger] sorted[q], m as int, n as int));
        }
    }
    // Compressed layout.
    let row_pointer = build_row_pointer(&all, m);
    let mut column_index: Vec<usize> = Vec::new();
    let mut values: Vec<Vec<u8>> = Vec::new();
    let total = all.len();
    let mut k: usize = 0;
    while all.len() > 0
        invariant
            sorted.len() == total,
            k + all@.len() == total,
            forall|j: int| 0 <= j < all@.len() ==> all@[j].deep_view() == sorted[k + j],
            column_index@.len() == k,
            values@.len() == k,
            forall|q: int| 0 <= q < k ==> #[trigger] column_index@[q] == sorted[q].col,
            forall|q: int| 0 <= q < k ==> (#[trigger] values@[q])@ == sorted[q].value,
        decreases all@.len(),
    {
        let e = all.remove(0);
        proof {
            assert(e.deep_view() == sorted[k as int]);
        }
        column_index.push(e.col);
        values.push(e.value);
        k = k + 1;
    }
    let c = SparseMatrixCSR { row_count: m, col_count: n, row_pointer, column_index, values };
    proof {
        lemma_count_zero(sorted, m as int);
        lemma_count_all(sorted, m as int);
        assert forall|q: int| 0 <= q < c.row_count implies #[trigger] c.row_pointer@[q]
            <= c.row_pointer@[q + 1] by {
            lemma_count_mono(sorted, q, q + 1);
        }
        assert forall|kk: int, ii: int, jj: int|
            0 <= kk < c.row_count && #[trigger] c.row_pointer@[kk] <= ii < jj < c.row_pointer@[kk
                + 1] implies #[trigger] c.column_index@[ii] <= #[trigger] c.column_index@[jj] by {
            lemma_count_mono(sorted, kk, kk + 1);
            lemma_row_slice(sorted, m as int, kk, ii);
            lemma_row_slice(sorted, m as int, kk, jj);
            assert(key_le(sorted[ii], sorted[jj]));
        }
        assert(csr_wf(c));
    }
    Ok(c)
}

/// Round trip: the arrays of a loaded matrix list the body's triples in
/// canonical (row, column) order, so re-expanding them gives back exactly
/// the sorted triple sequence, and the same multiset of triples that the
/// unsorted parse produced — duplicates included, in encounter order.
pub proof fn lemma_load_round_trip(s: Seq<u8>, c: SparseMatrixCSR)
    requires
        spec_loaded(s, c),
    ensures
        spec_expanded(c) == spec_sorted_entries(s),
        spec_expanded(c).to_multiset() == body_entries(
            spec_body(s),
            spec_shape_m(s),
            spec_shape_n(s),
        ).to_multiset(),
{
    let m = spec_shape_m(s);
    let n = spec_shape_n(s);
    let parsed = body_entries(spec_body(s), m, n);
    let sorted = spec_sorted_entries(s);
    lemma_sort_sorted(parsed);
    crate::chunk::lemma_lines_entries_within(spec_split(spec_body(s), 10), m, n);
    lemma_sort_within(parsed, m, n);
    assert(rows_within(sorted, m)) by {
        assert(forall|q: int| 0 <= q < sorted.len() ==> entry_bounds(#[trigger] sorted[q], m, n));
    }
    lemma_expanded_matches(c, sorted);
    lemma_sort_multiset(parsed);
}

} // verus!
