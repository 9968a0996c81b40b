//! Coordinate entries and per-line classification.
//!
//! A body line either yields a triple, is silently skipped (it does not have
//! exactly three space-separated tokens, which tolerates blank or stray
//! lines), or is malformed.  Row and column tokens must be 1-based decimal
//! indices within the declared shape — they are stored 0-based — and the
//! value token must be a well-formed float literal; it is carried through
//! as bytes.

use vstd::prelude::*;
use crate::bytes::spec_split;
use crate::bytes::split_bytes;
use crate::numbers::is_digits;
use crate::numbers::dec_val;
use crate::numbers::parse_uint;
use crate::float::is_float_token;
use crate::float::check_float_token;

verus! {

/// One coordinate triple, 0-based, with the value kept as its source token.
#[derive(Debug)]
pub struct RawEntry {
    pub row: usize,
    pub col: usize,
    pub value: Vec<u8>,
}

/// Mathematical image of a `RawEntry`.
pub struct SpecEntry {
    pub row: int,
    pub col: int,
    pub value: Seq<u8>,
}

impl View for RawEntry {
    type V = SpecEntry;

    open spec fn view(&self) -> SpecEntry {
        SpecEntry { row: self.row as int, col: self.col as int, value: self.value@ }
    }
}

impl DeepView for RawEntry {
    type V = SpecEntry;

    open spec fn deep_view(&self) -> SpecEntry {
        self.view()
    }
}

/// What one body line contributes.
pub enum LineParse {
    Skip,
    Entry(RawEntry),
    Bad,
}

pub enum SpecLine {
    Skip,
    Entry(SpecEntry),
    Bad,
}

/// A 1-based index token for a dimension of extent `bound`.
pub open spec fn valid_index(t: Seq<u8>, bound: int) -> bool {
    is_digits(t) && 1 <= dec_val(t) <= bound
}

/// Classification of one body line against the declared shape `m` by `n`.
pub open spec fn spec_classify(line: Seq<u8>, m: int, n: int) -> SpecLine {
    let tks = spec_split(line, 32);
    if tks.len() != 3 {
        SpecLine::Skip
    } else if valid_index(tks[0], m) && valid_index(tks[1], n) && is_float_token(tks[2]) {
        SpecLine::Entry(
            SpecEntry { row: dec_val(tks[0]) - 1, col: dec_val(tks[1]) - 1, value: tks[2] },
        )
    } else {
        SpecLine::Bad
    }
}

/// Classifies one body line, as `spec_classify` describes.
pub fn classify_line(line: &[u8], m: usize, n: usize) -> (r: LineParse)
    ensures
        match r {
            LineParse::Skip => spec_classify(line@, m as int, n as int) == SpecLine::Skip,
            LineParse::Entry(e) => spec_classify(line@, m as int, n as int) == SpecLine::Entry(
                e@,
            ),
            LineParse::Bad => spec_classify(line@, m as int, n as int) == SpecLine::Bad,
        },
{
    let ghost tks = spec_split(line@, 32);
    let mut parts = split_bytes(line, 32);
    if parts.len() != 3 {
        return LineParse::Skip;
    }
    proof {
        assert(parts@[0].deep_view() == tks[0]);
        assert(parts@[1].deep_view() == tks[1]);
        assert(parts@[2].deep_view() == tks[2]);
    }
    let t2 = match parts.pop() {
        Some(t) => t,
        None => {
            return LineParse::Bad;
        },
    };
    let t1 = match parts.pop() {
        Some(t) => t,
        None => {
            return LineParse::Bad;
        },
    };
    let t0 = match parts.pop() {
        Some(t) => t,
        None => {
            return LineParse::Bad;
        },
    };
    proof {
        assert(t0@ == tks[0] && t1@ == tks[1] && t2@ == tks[2]);
    }
    let row1 = match parse_uint(t0.as_slice()) {
        Some(v) => v,
        None => {
            return LineParse::Bad;
        },
    };
    if row1 < 1 || row1 > m {
        return LineParse::Bad;
    }
    let col1 = match parse_uint(t1.as_slice()) {
        Some(v) => v,
        None => {
            return LineParse::Bad;
        },
    };
    if col1 < 1 || col1 > n {
        return LineParse::Bad;
    }
    if !check_float_token(t2.as_slice()) {
        return LineParse::Bad;
    }
    LineParse::Entry(RawEntry { row: row1 - 1, col: col1 - 1, value: t2 })
}

/// Both indices of a triple lie within the declared shape.
pub open spec fn entry_bounds(e: SpecEntry, m: int, n: int) -> bool {
    0 <= e.row < m && 0 <= e.col < n
}

/// Every triple lies within the declared shape.
pub open spec fn entries_within(s: Seq<SpecEntry>, m: int, n: int) -> bool {
    forall|i: int| 0 <= i < s.len() ==> entry_bounds(#[trigger] s[i], m, n)
}

/// A classified triple is always within the declared shape.
pub proof fn lemma_classify_bounds(line: Seq<u8>, m: int, n: int)
    ensures
        match spec_classify(line, m, n) {
            SpecLine::Entry(e) => entry_bounds(e, m, n),
            _ => true,
        },
{
}

} // verus!
