//! Recognizer for 64-bit float literals, following the grammar that the
//! standard library documents for parsing `f64` from a string:
//!
//! ```text
//! Float  ::= Sign? ( 'inf' | 'infinity' | 'nan' | Number )
//! Number ::= ( Digits | Digits '.' Digits? | '.' Digits ) Exp?
//! Exp    ::= 'e' Sign? Digits
//! ```
//!
//! with the keywords and the exponent marker taken case-insensitively.  Every
//! token of this shape converts (overflow gives an infinity, underflow zero),
//! so acceptance alone decides whether a value token is well formed; the
//! numeric conversion itself is left to the caller.

use vstd::prelude::*;
use crate::numbers::is_digits;
use crate::bytes::spec_find;
use crate::bytes::lemma_find_props;
use crate::bytes::find_from;

verus! {

pub open spec fn is_digit(b: u8) -> bool {
    48 <= b <= 57
}

/// ASCII upper-case letters folded to lower case; all else unchanged.
pub open spec fn ascii_lower(b: u8) -> u8 {
    if 65 <= b <= 90 {
        (b + 32) as u8
    } else {
        b
    }
}

pub open spec fn lower_seq(t: Seq<u8>) -> Seq<u8> {
    t.map_values(|b: u8| ascii_lower(b))
}

/// The token with one leading `+` or `-` removed, if present.
pub open spec fn strip_sign(t: Seq<u8>) -> Seq<u8> {
    if t.len() > 0 && (t[0] == 43 || t[0] == 45) {
        t.drop_first()
    } else {
        t
    }
}

/// Mantissa: at least one digit, at most one dot, nothing else.
pub open spec fn is_mantissa(m: Seq<u8>) -> bool {
    &&& m.len() > 0
    &&& exists|i: int| 0 <= i < m.len() && is_digit(#[trigger] m[i])
    &&& forall|i: int| 0 <= i < m.len() ==> is_digit(#[trigger] m[i]) || m[i] == 46
    &&& forall|i: int, j: int| 0 <= i < j < m.len() ==> !(#[trigger] m[i] == 46 && #[trigger] m[j] == 46)
}

/// Exponent body: an optional sign, then at least one digit.
pub open spec fn is_exponent(x: Seq<u8>) -> bool {
    is_digits(strip_sign(x))
}

/// Number part, already case-folded: a mantissa, optionally followed by
/// `e` and an exponent.
pub open spec fn is_number(u: Seq<u8>) -> bool {
    let e = spec_find(u, 0, 101);
    if e == u.len() {
        is_mantissa(u)
    } else {
        is_mantissa(u.take(e)) && is_exponent(u.skip(e + 1))
    }
}

pub open spec fn kw_inf() -> Seq<u8> {
    seq![105u8, 110u8, 102u8]
}

pub open spec fn kw_infinity() -> Seq<u8> {
    seq![105u8, 110u8, 102u8, 105u8, 110u8, 105u8, 116u8, 121u8]
}

pub open spec fn kw_nan() -> Seq<u8> {
    seq![110u8, 97u8, 110u8]
}

/// Whether `t` is a well-formed 64-bit float literal.
pub open spec fn is_float_token(t: Seq<u8>) -> bool {
    let u = lower_seq(strip_sign(t));
    u == kw_inf() || u == kw_infinity() || u == kw_nan() || is_number(u)
}

/// Case-folds, strips one leading sign, and returns the rest.
fn fold_and_strip(t: &[u8]) -> (r: Vec<u8>)
    ensures
        r@ == lower_seq(strip_sign(t@)),
{
    let mut r: Vec<u8> = Vec::new();
    let start: usize = if t.len() > 0 && (t[0] == 43 || t[0] == 45) {
        1
    } else {
        0
    };
    let mut i: usize = start;
    while i < t.len()
        invariant
            start <= i <= t@.len(),
            start == (if t@.len() > 0 && (t@[0] == 43 || t@[0] == 45) {
                1int
            } else {
                0int
            }),
            r@.len() == i - start,
            forall|k: int| 0 <= k < r@.len() ==> r@[k] == ascii_lower(t@[k + start]),
        decreases t@.len() - i,
    {
        let b = t[i];
        if 65 <= b && b <= 90 {
            r.push(b + 32);
        } else {
            r.push(b);
        }
        i = i + 1;
    }
    proof {
        assert(r@ =~= lower_seq(strip_sign(t@)));
    }
    r
}

/// Checks the mantissa shape on `u[from..to]`.
fn check_mantissa(u: &[u8], from: usize, to: usize) -> (r: bool)
    requires
        from <= to <= u@.len(),
    ensures
        r == is_mantissa(u@.subrange(from as int, to as int)),
{
    let ghost m = u@.subrange(from as int, to as int);
    if from == to {
        return false;
    }
    let mut i: usize = from;
    let mut saw_digit = false;
    let ghost mut digit_at: int = 0;
    let mut saw_dot = false;
    let ghost mut dot_at: int = 0;
    while i < to
        invariant
            from <= i <= to <= u@.len(),
            m == u@.subrange(from as int, to as int),
            saw_digit ==> 0 <= digit_at < i - from && is_digit(m[digit_at]),
            !saw_digit ==> forall|k: int| 0 <= k < i - from ==> !is_digit(#[trigger] m[k]),
            saw_dot ==> 0 <= dot_at < i - from && m[dot_at] == 46,
            !saw_dot ==> forall|k: int| 0 <= k < i - from ==> m[k] != 46,
            forall|k: int| 0 <= k < i - from ==> is_digit(#[trigger] m[k]) || m[k] == 46,
            forall|k: int, l: int|
                0 <= k < l < i - from ==> !(#[trigger] m[k] == 46 && #[trigger] m[l] == 46),
        decreases to - i,
    {
        let b = u[i];
        proof {
            assert(m[i - from] == u@[i as int]);
        }
        if 48 <= b && b <= 57 {
            if !saw_digit {
                saw_digit = true;
                proof {
                    digit_at = i - from;
                }
            }
        } else if b == 46 {
            if saw_dot {
                return false;
            }
            saw_dot = true;
            proof {
                dot_at = i - from;
            }
        } else {
            return false;
        }
        i = i + 1;
    }
    if !saw_digit {
        return false;
    }
    true
}

/// Checks the exponent shape on `u[from..]`.
fn check_exponent(u: &[u8], from: usize) -> (r: bool)
    requires
        from <= u@.len(),
    ensures
        r == is_exponent(u@.skip(from as int)),
{
    let ghost x = u@.skip(from as int);
    let start: usize = if from < u.len() && (u[from] == 43 || u[from] == 45) {
        from + 1
    } else {
        from
    };
    proof {
        assert(strip_sign(x) =~= u@.skip(start as int));
    }
    if start == u.len() {
        return false;
    }
    let mut i: usize = start;
    while i < u.len()
        invariant
            start <= i <= u@.len(),
            x == u@.skip(from as int),
            from <= start <= u@.len(),
            strip_sign(x) == u@.skip(start as int),
            start < u@.len(),
            forall|k: int| start <= k < i ==> 48 <= #[trigger] u@[k] <= 57,
        decreases u@.len() - i,
    {
        let b = u[i];
        if b < 48 || b > 57 {
            proof {
                assert(u@.skip(start as int)[i - start] == u@[i as int]);
            }
            return false;
        }
        i = i + 1;
    }
    proof {
        assert(forall|k: int|
            0 <= k < u@.skip(start as int).len() ==> 48 <= #[trigger] u@.skip(start as int)[k]
                <= 57);
    }
    true
}

/// Whether `t` is a well-formed 64-bit float literal, as `is_float_token`
/// describes.
pub fn check_float_token(t: &[u8]) -> (r: bool)
    ensures
        r == is_float_token(t@),
{
    let u = fold_and_strip(t);
    let n = u.len();
    if n == 3 && u[0] == 105 && u[1] == 110 && u[2] == 102 {
        proof {
            assert(u@ =~= kw_inf());
        }
        return true;
    }
    if n == 8 && u[0] == 105 && u[1] == 110 && u[2] == 102 && u[3] == 105 && u[4] == 110
        && u[5] == 105 && u[6] == 116 && u[7] == 121 {
        proof {
            assert(u@ =~= kw_infinity());
        }
        return true;
    }
    if n == 3 && u[0] == 110 && u[1] == 97 && u[2] == 110 {
        proof {
            assert(u@ =~= kw_nan());
        }
        return true;
    }
    proof {
        assert(u@ != kw_inf() && u@ != kw_infinity() && u@ != kw_nan()) by {
            if u@ == kw_inf() || u@ == kw_infinity() || u@ == kw_nan() {
                assert(false);
            }
        }
    }
    let e = find_from(u.as_slice(), 0, 101);
    proof {
        lemma_find_props(u@, 0, 101);
    }
    if e == n {
        proof {
            assert(u@.subrange(0, n as int) =~= u@);
        }
        check_mantissa(u.as_slice(), 0, n)
    } else {
        let man = check_mantissa(u.as_slice(), 0, e);
        if !man {
            return false;
        }
        proof {
            assert(u@.take(e as int) == u@.subrange(0, e as int));
        }
        check_exponent(u.as_slice(), e + 1)
    }
}

} // verus!
