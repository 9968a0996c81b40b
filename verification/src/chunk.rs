//! Tokenizing the body and splitting it into newline-aligned windows.
//!
//! The body is cut into one window per worker.  Window boundaries start at
//! even byte offsets but are pushed forward to the first newline at or after
//! the offset, so the windows tile the body exactly and every complete line
//! falls to exactly one window.  Tokenizing the windows one by one therefore
//! gives the same entries, in the same order, as tokenizing the whole body —
//! however many workers there are.

use vstd::prelude::*;
use crate::bytes::spec_split;
use crate::bytes::spec_find;
use crate::bytes::lemma_split_len;
use crate::bytes::lemma_find_props;
use crate::bytes::lemma_find_mono;
use crate::bytes::find_from;
use crate::bytes::split_bytes;
use crate::entry::SpecEntry;
use crate::entry::SpecLine;
use crate::entry::spec_classify;
use crate::entry::classify_line;
use crate::entry::RawEntry;
use crate::entry::LineParse;

verus! {

/// Entries contributed by one line.
pub open spec fn line_entries(l: Seq<u8>, m: int, n: int) -> Seq<SpecEntry> {
    match spec_classify(l, m, n) {
        SpecLine::Entry(e) => seq![e],
        _ => Seq::<SpecEntry>::empty(),
    }
}

/// Entries contributed by a sequence of lines, in order.
pub open spec fn lines_entries(ls: Seq<Seq<u8>>, m: int, n: int) -> Seq<SpecEntry>
    decreases ls.len(),
{
    if ls.len() == 0 {
        Seq::<SpecEntry>::empty()
    } else {
        lines_entries(ls.drop_last(), m, n) + line_entries(ls.last(), m, n)
    }
}

/// No line is malformed.
pub open spec fn lines_ok(ls: Seq<Seq<u8>>, m: int, n: int) -> bool {
    forall|i: int| 0 <= i < ls.len() ==> !((#[trigger] spec_classify(ls[i], m, n)) is Bad)
}

/// The first malformed line, if any; empty otherwise.
pub open spec fn first_bad(ls: Seq<Seq<u8>>, m: int, n: int) -> Seq<u8>
    decreases ls.len(),
{
    if ls.len() == 0 {
        Seq::<u8>::empty()
    } else if spec_classify(ls.first(), m, n) is Bad {
        ls.first()
    } else {
        first_bad(ls.drop_first(), m, n)
    }
}

pub proof fn lemma_lines_entries_append(a: Seq<Seq<u8>>, b: Seq<Seq<u8>>, m: int, n: int)
    ensures
        lines_entries(a + b, m, n) == lines_entries(a, m, n) + lines_entries(b, m, n),
    decreases b.len(),
{
    if b.len() == 0 {
        assert(a + b =~~= a);
        assert(lines_entries(a, m, n) + lines_entries(b, m, n) =~~= lines_entries(a, m, n));
    } else {
        assert((a + b).drop_last() =~~= a + b.drop_last());
        assert((a + b).last() == b.last());
        lemma_lines_entries_append(a, b.drop_last(), m, n);
        assert(lines_entries(a + b, m, n) =~~= lines_entries(a, m, n) + lines_entries(b, m, n));
    }
}

pub proof fn lemma_lines_ok_append(a: Seq<Seq<u8>>, b: Seq<Seq<u8>>, m: int, n: int)
    ensures
        lines_ok(a + b, m, n) <==> (lines_ok(a, m, n) && lines_ok(b, m, n)),
{
    if lines_ok(a + b, m, n) {
        assert forall|i: int| 0 <= i < a.len() implies !((#[trigger] spec_classify(
            a[i],
            m,
            n,
        )) is Bad) by {
            assert((a + b)[i] == a[i]);
        }
        assert forall|i: int| 0 <= i < b.len() implies !((#[trigger] spec_classify(
            b[i],
            m,
            n,
        )) is Bad) by {
            assert((a + b)[a.len() + i] == b[i]);
        }
    }
    if lines_ok(a, m, n) && lines_ok(b, m, n) {
        assert forall|i: int| 0 <= i < (a + b).len() implies !((#[trigger] spec_classify(
            (a + b)[i],
            m,
            n,
        )) is Bad) by {
            if i < a.len() {
                assert((a + b)[i] == a[i]);
            } else {
                assert((a + b)[i] == b[i - a.len()]);
            }
        }
    }
}

pub proof fn lemma_first_bad_append_ok(a: Seq<Seq<u8>>, b: Seq<Seq<u8>>, m: int, n: int)
    requires
        lines_ok(a, m, n),
    ensures
        first_bad(a + b, m, n) == first_bad(b, m, n),
    decreases a.len(),
{
    if a.len() == 0 {
        assert(a + b =~~= b);
    } else {
        assert((a + b).first() == a[0]);
        assert(!(spec_classify(a[0], m, n) is Bad));
        assert((a + b).drop_first() =~~= a.drop_first() + b);
        assert forall|i: int| 0 <= i < a.drop_first().len() implies !((#[trigger] spec_classify(
            a.drop_first()[i],
            m,
            n,
        )) is Bad) by {
            assert(a.drop_first()[i] == a[i + 1]);
        }
        lemma_first_bad_append_ok(a.drop_first(), b, m, n);
    }
}

pub proof fn lemma_first_bad_append_bad(a: Seq<Seq<u8>>, b: Seq<Seq<u8>>, m: int, n: int)
    requires
        !lines_ok(a, m, n),
    ensures
        first_bad(a + b, m, n) == first_bad(a, m, n),
    decreases a.len(),
{
    assert(a.len() > 0);
    assert((a + b).first() == a[0]);
    if spec_classify(a[0], m, n) is Bad {
    } else {
        assert((a + b).drop_first() =~~= a.drop_first() + b);
        assert(!lines_ok(a.drop_first(), m, n)) by {
            if lines_ok(a.drop_first(), m, n) {
                assert forall|i: int| 0 <= i < a.len() implies !((#[trigger] spec_classify(
                    a[i],
                    m,
                    n,
                )) is Bad) by {
                    if i > 0 {
                        assert(a.drop_first()[i - 1] == a[i]);
                    }
                }
            }
        }
        lemma_first_bad_append_bad(a.drop_first(), b, m, n);
    }
}

/// `first_bad` is the line at the first bad index.
pub proof fn lemma_first_bad_at(ls: Seq<Seq<u8>>, i: int, m: int, n: int)
    requires
        0 <= i < ls.len(),
        forall|k: int| 0 <= k < i ==> !((#[trigger] spec_classify(ls[k], m, n)) is Bad),
        spec_classify(ls[i], m, n) is Bad,
    ensures
        !lines_ok(ls, m, n),
        first_bad(ls, m, n) == ls[i],
    decreases i,
{
    if i == 0 {
    } else {
        assert(!(spec_classify(ls.first(), m, n) is Bad));
        assert(ls.drop_first()[i - 1] == ls[i]);
        assert forall|k: int| 0 <= k < i - 1 implies !((#[trigger] spec_classify(
            ls.drop_first()[k],
            m,
            n,
        )) is Bad) by {
            assert(ls.drop_first()[k] == ls[k + 1]);
        }
        lemma_first_bad_at(ls.drop_first(), i - 1, m, n);
    }
}

/// A classified empty line is skipped.
pub proof fn lemma_empty_line_skip(m: int, n: int)
    ensures
        spec_classify(Seq::<u8>::empty(), m, n) == SpecLine::Skip,
{
    assert(spec_split(Seq::<u8>::empty(), 32) == seq![Seq::<u8>::empty()]);
}

/// A non-empty prefix ending in a separator splits into its own segments,
/// minus the trailing empty one, followed by the suffix's segments.
pub proof fn lemma_split_last_sep(a: Seq<u8>, sep: u8)
    requires
        a.len() > 0,
        a.last() == sep,
    ensures
        spec_split(a, sep).len() >= 2,
        spec_split(a, sep).last() == Seq::<u8>::empty(),
    decreases a.len(),
{
    if a.len() == 1 {
        assert(a[0] == sep);
        assert(a.drop_first() =~~= Seq::<u8>::empty());
        assert(spec_split(Seq::<u8>::empty(), sep) == seq![Seq::<u8>::empty()]);
    } else {
        let t = a.drop_first();
        assert(t.last() == a.last());
        lemma_split_last_sep(t, sep);
        lemma_split_len(t, sep);
        if a[0] != sep {
            let rest = spec_split(t, sep);
            assert(spec_split(a, sep).last() == rest.drop_first().last());
            assert(rest.drop_first().last() == rest.last());
        }
    }
}

pub proof fn lemma_split_append_at_sep(a: Seq<u8>, b: Seq<u8>, sep: u8)
    requires
        a.len() > 0,
        a.last() == sep,
    ensures
        spec_split(a + b, sep) == spec_split(a, sep).drop_last() + spec_split(b, sep),
    decreases a.len(),
{
    lemma_split_last_sep(a, sep);
    if a.len() == 1 {
        assert((a + b)[0] == sep);
        assert((a + b).drop_first() =~~= b);
        assert(a.drop_first() =~~= Seq::<u8>::empty());
        assert(spec_split(Seq::<u8>::empty(), sep) == seq![Seq::<u8>::empty()]);
        assert(spec_split(a, sep).drop_last() =~~= seq![Seq::<u8>::empty()]);
        assert(spec_split(a + b, sep) =~~= spec_split(a, sep).drop_last() + spec_split(b, sep));
    } else {
        let t = a.drop_first();
        assert(t.len() > 0 && t.last() == sep);
        lemma_split_append_at_sep(t, b, sep);
        lemma_split_last_sep(t, sep);
        lemma_split_len(t, sep);
        assert((a + b).drop_first() =~~= t + b);
        if a[0] == sep {
            assert(spec_split(a, sep).drop_last() =~~= seq![Seq::<u8>::empty()] + spec_split(
                t,
                sep,
            ).drop_last());
            assert(spec_split(a + b, sep) =~~= spec_split(a, sep).drop_last() + spec_split(
                b,
                sep,
            ));
        } else {
            let rest = spec_split(t, sep);
            assert(spec_split(t + b, sep)[0] == rest.drop_last()[0]);
            assert(rest.drop_last()[0] == rest[0]);
            assert(spec_split(t + b, sep).drop_first() =~~= rest.drop_last().drop_first()
                + spec_split(b, sep));
            assert(rest.drop_first().drop_last() =~~= rest.drop_last().drop_first());
            assert(spec_split(a, sep).drop_last() =~~= seq![seq![a[0]] + rest[0]]
                + rest.drop_first().drop_last());
            assert(spec_split(a + b, sep) =~~= spec_split(a, sep).drop_last() + spec_split(
                b,
                sep,
            ));
        }
    }
}

/// Entries extracted from a body of bytes.
pub open spec fn body_entries(s: Seq<u8>, m: int, n: int) -> Seq<SpecEntry> {
    lines_entries(spec_split(s, 10), m, n)
}

/// No line of the body is malformed.
pub open spec fn body_ok(s: Seq<u8>, m: int, n: int) -> bool {
    lines_ok(spec_split(s, 10), m, n)
}

/// The first malformed line of the body.
pub open spec fn body_first_bad(s: Seq<u8>, m: int, n: int) -> Seq<u8> {
    first_bad(spec_split(s, 10), m, n)
}

/// Cutting the body right after a newline (or at either end) tokenizes each
/// part independently: the entries concatenate, well-formedness splits, and
/// the first malformed line is found in the part that holds it.
pub proof fn lemma_body_cut(s: Seq<u8>, cut: int, m: int, n: int)
    requires
        0 <= cut <= s.len(),
        cut == 0 || cut == s.len() || s[cut - 1] == 10,
    ensures
        body_entries(s, m, n) == body_entries(s.take(cut), m, n) + body_entries(
            s.skip(cut),
            m,
            n,
        ),
        body_ok(s, m, n) <==> (body_ok(s.take(cut), m, n) && body_ok(s.skip(cut), m, n)),
        !body_ok(s.take(cut), m, n) ==> body_first_bad(s, m, n) == body_first_bad(
            s.take(cut),
            m,
            n,
        ),
        (body_ok(s.take(cut), m, n) && !body_ok(s.skip(cut), m, n)) ==> body_first_bad(s, m, n)
            == body_first_bad(s.skip(cut), m, n),
{
    let a = s.take(cut);
    let b = s.skip(cut);
    lemma_empty_line_skip(m, n);
    if cut == 0 {
        assert(a =~~= Seq::<u8>::empty());
        assert(b =~~= s);
        assert(spec_split(a, 10) == seq![Seq::<u8>::empty()]);
        let la = spec_split(a, 10);
        assert(la.drop_last() =~~= Seq::<Seq<u8>>::empty());
        assert(lines_entries(Seq::<Seq<u8>>::empty(), m, n) == Seq::<SpecEntry>::empty());
        assert(la.last() == Seq::<u8>::empty());
        assert(line_entries(Seq::<u8>::empty(), m, n) =~~= Seq::<SpecEntry>::empty());
        assert(lines_entries(la, m, n) =~~= Seq::<SpecEntry>::empty());
        assert(body_entries(s, m, n) =~~= body_entries(a, m, n) + body_entries(b, m, n));
        assert(lines_ok(la, m, n));
    } else if cut == s.len() {
        assert(a =~~= s);
        assert(b =~~= Seq::<u8>::empty());
        assert(spec_split(b, 10) == seq![Seq::<u8>::empty()]);
        let lb = spec_split(b, 10);
        assert(lb.drop_last() =~~= Seq::<Seq<u8>>::empty());
        assert(lines_entries(Seq::<Seq<u8>>::empty(), m, n) == Seq::<SpecEntry>::empty());
        assert(lb.last() == Seq::<u8>::empty());
        assert(line_entries(Seq::<u8>::empty(), m, n) =~~= Seq::<SpecEntry>::empty());
        assert(lines_entries(lb, m, n) =~~= Seq::<SpecEntry>::empty());
        assert(body_entries(s, m, n) =~~= body_entries(a, m, n) + body_entries(b, m, n));
        assert(lines_ok(lb, m, n)) by {
            assert(forall|i: int| 0 <= i < lb.len() ==> lb[i] == Seq::<u8>::empty());
        }
    } else {
        assert(s =~~= a + b);
        assert(a.last() == s[cut - 1]);
        lemma_split_append_at_sep(a, b, 10);
        lemma_split_last_sep(a, 10);
        let la = spec_split(a, 10);
        let lb = spec_split(b, 10);
        lemma_split_len(b, 10);
        assert(spec_split(s, 10) == la.drop_last() + lb);
        lemma_lines_entries_append(la.drop_last(), lb, m, n);
        assert(lines_entries(la, m, n) == lines_entries(la.drop_last(), m, n)) by {
            assert(line_entries(la.last(), m, n) == Seq::<SpecEntry>::empty());
            assert(lines_entries(la.drop_last(), m, n) + Seq::<SpecEntry>::empty()
                =~~= lines_entries(la.drop_last(), m, n));
        }
        lemma_lines_ok_append(la.drop_last(), lb, m, n);
        assert(lines_ok(la, m, n) <==> lines_ok(la.drop_last(), m, n)) by {
            if lines_ok(la.drop_last(), m, n) {
                assert forall|i: int| 0 <= i < la.len() implies !((#[trigger] spec_classify(
                    la[i],
                    m,
                    n,
                )) is Bad) by {
                    if i < la.len() - 1 {
                        assert(la.drop_last()[i] == la[i]);
                    } else {
                        assert(la[i] == la.last());
                    }
                }
            }
            if lines_ok(la, m, n) {
                assert forall|i: int| 0 <= i < la.drop_last().len() implies !((
                #[trigger] spec_classify(la.drop_last()[i], m, n)) is Bad) by {
                    assert(la.drop_last()[i] == la[i]);
                }
            }
        }
        if !lines_ok(la.drop_last(), m, n) {
            lemma_first_bad_append_bad(la.drop_last(), lb, m, n);
            assert(la =~~= la.drop_last() + seq![la.last()]);
            lemma_first_bad_append_bad(la.drop_last(), seq![la.last()], m, n);
        } else if !lines_ok(lb, m, n) {
            lemma_first_bad_append_ok(la.drop_last(), lb, m, n);
        }
    }
}

/// Tokenizes one window of the body against the declared shape: every
/// complete line either yields a triple or is skipped; the first malformed
/// line aborts the window and is returned.
pub fn process_chunk(chunk: &[u8], m: usize, n: usize) -> (r: Result<Vec<RawEntry>, Vec<u8>>)
    ensures
        match r {
            Ok(es) => body_ok(chunk@, m as int, n as int) && es.deep_view() == body_entries(
                chunk@,
                m as int,
                n as int,
            ),
            Err(l) => !body_ok(chunk@, m as int, n as int) && l@ == body_first_bad(
                chunk@,
                m as int,
                n as int,
            ),
        },
{
    let ghost ls = spec_split(chunk@, 10);
    let mut lines = split_bytes(chunk, 10);
    let mut out: Vec<RawEntry> = Vec::new();
    let mut i: usize = 0;
    proof {
        assert(ls.take(0) =~~= Seq::<Seq<u8>>::empty());
    }
    while i < lines.len()
        invariant
            lines.deep_view() == ls,
            ls == spec_split(chunk@, 10),
            i <= ls.len(),
            lines@.len() == ls.len(),
            forall|k: int| 0 <= k < i ==> !((#[trigger] spec_classify(ls[k], m as int, n as int)) is Bad),
            out.deep_view() == lines_entries(ls.take(i as int), m as int, n as int),
        decreases ls.len() - i,
    {
        proof {
            assert(lines@[i as int].deep_view() == ls[i as int]);
            assert(lines@[i as int].deep_view() =~~= lines@[i as int]@);
            assert(ls.take(i + 1).drop_last() =~~= ls.take(i as int));
            assert(ls.take(i + 1).last() == ls[i as int]);
        }
        let lp = classify_line(lines[i].as_slice(), m, n);
        match lp {
            LineParse::Skip => {
                proof {
                    assert(out.deep_view() =~~= lines_entries(
                        ls.take(i + 1),
                        m as int,
                        n as int,
                    ));
                }
            },
            LineParse::Entry(e) => {
                let ghost pre = out.deep_view();
                out.push(e);
                proof {
                    assert(out.deep_view() =~~= pre.push(e@));
                    assert(pre.push(e@) =~~= lines_entries(ls.take(i + 1), m as int, n as int));
                }
            },
            LineParse::Bad => {
                proof {
                    lemma_first_bad_at(ls, i as int, m as int, n as int);
                }
                let l = lines.swap_remove(i);
                return Err(l);
            },
        }
        i = i + 1;
    }
    proof {
        assert(ls.take(ls.len() as int) =~~= ls);
    }
    Ok(out)
}

/// One past the first newline at or after `x`, or the end of the body.
pub open spec fn nl_cut(s: Seq<u8>, x: int) -> int {
    let f = spec_find(s, x, 10);
    if f < s.len() {
        f + 1
    } else {
        s.len() as int
    }
}

/// Start of window `i` of `p`: the first newline-aligned position at or
/// after the i-th even cut; window `p` starts at the end.
pub open spec fn window_lo(s: Seq<u8>, p: int, i: int) -> int {
    if i <= 0 {
        0
    } else if i >= p {
        s.len() as int
    } else {
        nl_cut(s, i * (s.len() as int / p))
    }
}

pub proof fn lemma_even_cut_bound(len: int, p: int, j: int)
    requires
        0 <= len,
        1 <= p,
        0 <= j <= p,
    ensures
        0 <= j * (len / p) <= len,
{
    vstd::arithmetic::div_mod::lemma_fundamental_div_mod(len, p);
    vstd::arithmetic::div_mod::lemma_mod_bound(len, p);
    vstd::arithmetic::div_mod::lemma_div_pos_is_pos(len, p);
    let c = len / p;
    assert(p * c <= len);
    assert(0 <= j * c <= p * c) by (nonlinear_arith)
        requires
            0 <= j <= p,
            0 <= c,
    ;
}

/// Each window boundary is in range and sits right after a newline, or at
/// an end of the body.
pub proof fn lemma_window_lo_props(s: Seq<u8>, p: int, i: int)
    requires
        1 <= p,
        0 <= i <= p,
    ensures
        0 <= window_lo(s, p, i) <= s.len(),
        window_lo(s, p, i) == 0 || window_lo(s, p, i) == s.len() || s[window_lo(s, p, i) - 1]
            == 10,
{
    if 0 < i < p {
        let x = i * (s.len() as int / p);
        lemma_even_cut_bound(s.len() as int, p, i);
        lemma_find_props(s, x, 10);
    }
}

pub proof fn lemma_window_lo_mono(s: Seq<u8>, p: int, i: int, j: int)
    requires
        1 <= p,
        0 <= i <= j <= p,
    ensures
        window_lo(s, p, i) <= window_lo(s, p, j),
{
    lemma_window_lo_props(s, p, i);
    lemma_window_lo_props(s, p, j);
    if 0 < i && j < p && i < j {
        let c = s.len() as int / p;
        lemma_even_cut_bound(s.len() as int, p, i);
        lemma_even_cut_bound(s.len() as int, p, j);
        assert(i * c <= j * c) by (nonlinear_arith)
            requires
                i <= j,
                0 <= c,
        ;
        lemma_find_mono(s, i * c, j * c, 10);
    }
}

/// Entries of the first `i` windows, in window order.
pub open spec fn windows_entries(s: Seq<u8>, p: int, m: int, n: int, i: int) -> Seq<SpecEntry>
    decreases i,
{
    if i <= 0 {
        Seq::<SpecEntry>::empty()
    } else {
        windows_entries(s, p, m, n, i - 1) + body_entries(
            s.subrange(window_lo(s, p, i - 1), window_lo(s, p, i)),
            m,
            n,
        )
    }
}

/// No line of the first `i` windows is malformed.
pub open spec fn windows_ok(s: Seq<u8>, p: int, m: int, n: int, i: int) -> bool
    decreases i,
{
    if i <= 0 {
        true
    } else {
        windows_ok(s, p, m, n, i - 1) && body_ok(
            s.subrange(window_lo(s, p, i - 1), window_lo(s, p, i)),
            m,
            n,
        )
    }
}

pub proof fn lemma_body_empty(m: int, n: int)
    ensures
        body_entries(Seq::<u8>::empty(), m, n) == Seq::<SpecEntry>::empty(),
        body_ok(Seq::<u8>::empty(), m, n),
{
    lemma_empty_line_skip(m, n);
    let ls = spec_split(Seq::<u8>::empty(), 10);
    assert(ls == seq![Seq::<u8>::empty()]);
    assert(ls.drop_last() =~~= Seq::<Seq<u8>>::empty());
    assert(lines_entries(Seq::<Seq<u8>>::empty(), m, n) == Seq::<SpecEntry>::empty());
    assert(ls.last() == Seq::<u8>::empty());
    assert(line_entries(Seq::<u8>::empty(), m, n) =~~= Seq::<SpecEntry>::empty());
    assert(lines_entries(ls, m, n) =~~= Seq::<SpecEntry>::empty());
    assert(forall|k: int| 0 <= k < ls.len() ==> ls[k] == Seq::<u8>::empty());
}

/// The first `i` windows together tokenize exactly the body up to the i-th
/// window boundary.
pub proof fn lemma_windows_prefix(s: Seq<u8>, p: int, m: int, n: int, i: int)
    requires
        1 <= p,
        0 <= i <= p,
    ensures
        windows_entries(s, p, m, n, i) == body_entries(s.take(window_lo(s, p, i)), m, n),
        windows_ok(s, p, m, n, i) <==> body_ok(s.take(window_lo(s, p, i)), m, n),
    decreases i,
{
    if i == 0 {
        assert(s.take(0) =~~= Seq::<u8>::empty());
        lemma_body_empty(m, n);
    } else {
        lemma_windows_prefix(s, p, m, n, i - 1);
        let lo = window_lo(s, p, i - 1);
        let hi = window_lo(s, p, i);
        lemma_window_lo_props(s, p, i - 1);
        lemma_window_lo_props(s, p, i);
        lemma_window_lo_mono(s, p, i - 1, i);
        let t = s.take(hi);
        if lo == s.len() {
            assert(lo == hi);
        }
        lemma_body_cut(t, lo, m, n);
        assert(t.take(lo) =~~= s.take(lo));
        assert(t.skip(lo) =~~= s.subrange(lo, hi));
    }
}

/// Chunking invariance: tokenizing the body window by window gives the same
/// entries, and accepts the same bodies, as tokenizing it whole — for any
/// number of workers.
pub proof fn lemma_chunking_invariance(s: Seq<u8>, p1: int, p2: int, m: int, n: int)
    requires
        1 <= p1,
        1 <= p2,
    ensures
        windows_entries(s, p1, m, n, p1) == body_entries(s, m, n),
        windows_entries(s, p1, m, n, p1) == windows_entries(s, p2, m, n, p2),
        windows_ok(s, p1, m, n, p1) <==> body_ok(s, m, n),
        windows_ok(s, p1, m, n, p1) <==> windows_ok(s, p2, m, n, p2),
{
    lemma_windows_prefix(s, p1, m, n, p1);
    lemma_windows_prefix(s, p2, m, n, p2);
    assert(s.take(window_lo(s, p1, p1)) =~~= s);
    assert(s.take(window_lo(s, p2, p2)) =~~= s);
}

/// The i-th window boundary for `p` workers, as `window_lo` describes.
pub fn window_bound(s: &[u8], p: usize, i: usize) -> (r: usize)
    requires
        1 <= p,
        i <= p,
    ensures
        r as int == window_lo(s@, p as int, i as int),
{
    if i == 0 {
        return 0;
    }
    if i == p {
        return s.len();
    }
    let chunk: usize = s.len() / p;
    proof {
        lemma_even_cut_bound(s@.len() as int, p as int, i as int);
    }
    let x: usize = i * chunk;
    let f = find_from(s, x, 10);
    if f < s.len() {
        f + 1
    } else {
        s.len()
    }
}

/// Every extracted triple lies within the declared shape.
pub proof fn lemma_lines_entries_within(ls: Seq<Seq<u8>>, m: int, n: int)
    ensures
        crate::entry::entries_within(lines_entries(ls, m, n), m, n),
    decreases ls.len(),
{
    if ls.len() > 0 {
        lemma_lines_entries_within(ls.drop_last(), m, n);
        crate::entry::lemma_classify_bounds(ls.last(), m, n);
        let pre = lines_entries(ls.drop_last(), m, n);
        let e = line_entries(ls.last(), m, n);
        assert forall|i: int| 0 <= i < lines_entries(ls, m, n).len() implies crate::entry::entry_bounds(
            #[trigger] lines_entries(ls, m, n)[i],
            m,
            n,
        ) by {
            if i < pre.len() {
                assert(lines_entries(ls, m, n)[i] == pre[i]);
            } else {
                assert(lines_entries(ls, m, n)[i] == e[i - pre.len()]);
            }
        }
    }
}

} // verus!
