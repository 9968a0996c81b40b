//! Byte-level primitives: splitting a buffer at a separator byte, finding a
//! byte from an offset, and substring search.

use vstd::prelude::*;

verus! {

/// Splits `s` at every occurrence of `sep`.  The separators are dropped; a
/// separator at the very end yields a trailing empty segment, and the result
/// always has at least one segment.
pub open spec fn spec_split(s: Seq<u8>, sep: u8) -> Seq<Seq<u8>>
    decreases s.len(),
{
    if s.len() == 0 {
        seq![Seq::<u8>::empty()]
    } else if s[0] == sep {
        seq![Seq::<u8>::empty()] + spec_split(s.drop_first(), sep)
    } else {
        let rest = spec_split(s.drop_first(), sep);
        seq![seq![s[0]] + rest[0]] + rest.drop_first()
    }
}

pub proof fn lemma_split_len(s: Seq<u8>, sep: u8)
    ensures
        spec_split(s, sep).len() >= 1,
    decreases s.len(),
{
    if s.len() > 0 && s[0] != sep {
        lemma_split_len(s.drop_first(), sep);
    }
}

/// Appending one byte extends the last segment, or opens a new empty one.
pub proof fn lemma_split_push(s: Seq<u8>, sep: u8, b: u8)
    ensures
        b == sep ==> spec_split(s.push(b), sep) == spec_split(s, sep).push(Seq::<u8>::empty()),
        b != sep ==> spec_split(s.push(b), sep) == spec_split(s, sep).update(
            spec_split(s, sep).len() - 1,
            spec_split(s, sep).last().push(b),
        ),
    decreases s.len(),
{
    lemma_split_len(s, sep);
    if s.len() == 0 {
        assert(s =~~= Seq::<u8>::empty());
        assert(spec_split(Seq::<u8>::empty(), sep) == seq![Seq::<u8>::empty()]);
        assert(s.push(b).drop_first() =~~= Seq::<u8>::empty());
        assert(s.push(b)[0] == b);
        if b == sep {
            assert(spec_split(s.push(b), sep) =~~= spec_split(s, sep).push(Seq::<u8>::empty()));
        } else {
            assert(seq![s.push(b)[0]] + spec_split(Seq::<u8>::empty(), sep)[0] =~~= seq![b]);
            assert(spec_split(s.push(b), sep) =~~= spec_split(s, sep).update(
                0,
                spec_split(s, sep).last().push(b),
            ));
        }
    } else {
        let t = s.drop_first();
        assert(s.push(b).drop_first() =~~= t.push(b));
        lemma_split_push(t, sep, b);
        lemma_split_len(t, sep);
        if s[0] == sep {
            if b == sep {
                assert(spec_split(s.push(b), sep) =~~= spec_split(s, sep).push(
                    Seq::<u8>::empty(),
                ));
            } else {
                assert(spec_split(s.push(b), sep) =~~= spec_split(s, sep).update(
                    spec_split(s, sep).len() - 1,
                    spec_split(s, sep).last().push(b),
                ));
            }
        } else {
            let rest = spec_split(t, sep);
            let restb = spec_split(t.push(b), sep);
            if b == sep {
                assert(restb == rest.push(Seq::<u8>::empty()));
                assert(restb[0] == rest[0]);
                assert(restb.drop_first() =~~= rest.drop_first().push(Seq::<u8>::empty()));
                assert(spec_split(s.push(b), sep) =~~= spec_split(s, sep).push(
                    Seq::<u8>::empty(),
                ));
            } else {
                assert(restb == rest.update(rest.len() - 1, rest.last().push(b)));
                if rest.len() == 1 {
                    assert(restb[0] == rest[0].push(b));
                    assert(restb.drop_first() =~~= rest.drop_first());
                    assert(seq![s[0]] + rest[0].push(b) =~~= (seq![s[0]] + rest[0]).push(b));
                    assert(spec_split(s.push(b), sep) =~~= spec_split(s, sep).update(
                        spec_split(s, sep).len() - 1,
                        spec_split(s, sep).last().push(b),
                    ));
                } else {
                    assert(restb[0] == rest[0]);
                    assert(restb.drop_first() =~~= rest.drop_first().update(
                        rest.drop_first().len() - 1,
                        rest.drop_first().last().push(b),
                    ));
                    assert(spec_split(s.push(b), sep) =~~= spec_split(s, sep).update(
                        spec_split(s, sep).len() - 1,
                        spec_split(s, sep).last().push(b),
                    ));
                }
            }
        }
    }
}

/// Index of the first occurrence of `b` in `s` at or after `x`, or `s.len()`.
pub open spec fn spec_find(s: Seq<u8>, x: int, b: u8) -> int
    decreases s.len() - x,
{
    if x < 0 || x >= s.len() {
        s.len() as int
    } else if s[x] == b {
        x
    } else {
        spec_find(s, x + 1, b)
    }
}

pub proof fn lemma_find_props(s: Seq<u8>, x: int, b: u8)
    requires
        0 <= x <= s.len(),
    ensures
        x <= spec_find(s, x, b) <= s.len(),
        spec_find(s, x, b) < s.len() ==> s[spec_find(s, x, b)] == b,
        forall|j: int| x <= j < spec_find(s, x, b) ==> s[j] != b,
    decreases s.len() - x,
{
    if x < s.len() && s[x] != b {
        lemma_find_props(s, x + 1, b);
    }
}

pub proof fn lemma_find_mono(s: Seq<u8>, x: int, y: int, b: u8)
    requires
        0 <= x <= y <= s.len(),
    ensures
        spec_find(s, x, b) <= spec_find(s, y, b),
    decreases y - x,
{
    if x < y {
        lemma_find_props(s, x, b);
        lemma_find_props(s, y, b);
        if s[x] != b {
            lemma_find_mono(s, x + 1, y, b);
        }
    }
}

/// First occurrence of `b` in `s` at or after `x`, or `s.len()` if none.
pub fn find_from(s: &[u8], x: usize, b: u8) -> (r: usize)
    requires
        x <= s@.len(),
    ensures
        r == spec_find(s@, x as int, b),
{
    let mut i: usize = x;
    while i < s.len()
        invariant
            x <= i <= s@.len(),
            spec_find(s@, x as int, b) == spec_find(s@, i as int, b),
        decreases s@.len() - i,
    {
        if s[i] == b {
            return i;
        }
        i = i + 1;
    }
    i
}

/// Splits `s` at every occurrence of `sep`, as `spec_split` describes.
pub fn split_bytes(s: &[u8], sep: u8) -> (r: Vec<Vec<u8>>)
    ensures
        r.deep_view() == spec_split(s@, sep),
{
    let mut r: Vec<Vec<u8>> = Vec::new();
    let mut cur: Vec<u8> = Vec::new();
    let mut i: usize = 0;
    proof {
        assert(s@.take(0) =~~= Seq::<u8>::empty());
        assert(r.deep_view().push(cur@) =~~= spec_split(s@.take(0), sep));
    }
    while i < s.len()
        invariant
            i <= s@.len(),
            r.deep_view().push(cur@) == spec_split(s@.take(i as int), sep),
        decreases s@.len() - i,
    {
        let ghost pre = s@.take(i as int);
        let b = s[i];
        proof {
            assert(s@.take(i + 1) =~~= pre.push(b));
            lemma_split_push(pre, sep, b);
            lemma_split_len(pre, sep);
        }
        if b == sep {
            r.push(cur);
            cur = Vec::new();
            proof {
                assert(r.deep_view().push(cur@) =~~= spec_split(s@.take(i + 1), sep));
            }
        } else {
            cur.push(b);
            proof {
                assert(r.deep_view().push(cur@) =~~= spec_split(s@.take(i + 1), sep));
            }
        }
        i = i + 1;
    }
    proof {
        assert(s@.take(s@.len() as int) =~~= s@);
    }
    r.push(cur);
    proof {
        assert(r.deep_view() =~~= spec_split(s@, sep));
    }
    r
}

/// Whether `n` occurs contiguously inside `h`.
pub open spec fn spec_contains_seq(h: Seq<u8>, n: Seq<u8>) -> bool {
    exists|i: int|
        0 <= i && i + n.len() <= h.len() && #[trigger] h.subrange(i, i + n.len()) == n
}

/// Substring search: whether the byte sequence `needle` occurs contiguously
/// inside `haystack`.
pub fn contains_sequence(haystack: &[u8], needle: &[u8]) -> (r: bool)
    ensures
        r == spec_contains_seq(haystack@, needle@),
{
    let hn = haystack.len();
    let nn = needle.len();
    if nn > hn {
        proof {
            if spec_contains_seq(haystack@, needle@) {
                let i = choose|i: int|
                    0 <= i && i + needle@.len() <= haystack@.len()
                        && #[trigger] haystack@.subrange(i, i + needle@.len()) == needle@;
                assert(false);
            }
        }
        return false;
    }
    let mut i: usize = 0;
    while i <= hn - nn
        invariant
            nn == needle@.len(),
            hn == haystack@.len(),
            nn <= hn,
            i <= hn - nn + 1,
            forall|k: int|
                0 <= k < i ==> #[trigger] haystack@.subrange(k, k + needle@.len()) != needle@,
        decreases hn - nn + 1 - i,
    {
        let mut j: usize = 0;
        let mut all_eq = true;
        let ghost mut bad_k: int = 0;
        while j < nn && all_eq
            invariant
                nn == needle@.len(),
                hn == haystack@.len(),
                nn <= hn,
                i <= hn - nn,
                j <= nn,
                all_eq ==> (forall|k: int|
                    0 <= k < j ==> haystack@[i + k] == needle@[k]),
                !all_eq ==> 0 <= bad_k < needle@.len() && haystack@[i + bad_k]
                    != needle@[bad_k],
            decreases nn - j + (if all_eq { 1int } else { 0int }),
        {
            if haystack[i + j] != needle[j] {
                all_eq = false;
                proof {
                    bad_k = j as int;
                }
            } else {
                j = j + 1;
            }
        }
        if all_eq {
            proof {
                assert(haystack@.subrange(i as int, i + needle@.len()) =~~= needle@);
            }
            return true;
        }
        proof {
            if haystack@.subrange(i as int, i + needle@.len()) == needle@ {
                assert(needle@[bad_k] == haystack@.subrange(i as int, i + needle@.len())[bad_k]);
                assert(false);
            }
        }
        i = i + 1;
    }
    proof {
        assert(forall|k: int|
            0 <= k && k + needle@.len() <= haystack@.len() ==> #[trigger] haystack@.subrange(
                k,
                k + needle@.len(),
            ) != needle@);
    }
    false
}

} // verus!
