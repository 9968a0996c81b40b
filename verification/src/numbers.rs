//! Unsigned decimal integer tokens: what counts as one, its value, and a
//! checked parser.

use vstd::prelude::*;

verus! {

/// A non-empty run of ASCII decimal digits.
pub open spec fn is_digits(t: Seq<u8>) -> bool {
    t.len() > 0 && forall|i: int| 0 <= i < t.len() ==> 48 <= #[trigger] t[i] <= 57
}

/// Value of a digit string read in base ten.
pub open spec fn dec_val(t: Seq<u8>) -> int
    decreases t.len(),
{
    if t.len() == 0 {
        0
    } else {
        dec_val(t.drop_last()) * 10 + (t.last() - 48)
    }
}

pub proof fn lemma_dec_val_nonneg(t: Seq<u8>)
    requires
        forall|k: int| 0 <= k < t.len() ==> 48 <= #[trigger] t[k] <= 57,
    ensures
        dec_val(t) >= 0,
    decreases t.len(),
{
    if t.len() > 0 {
        lemma_dec_val_nonneg(t.drop_last());
    }
}

/// A digit string is worth at least any of its prefixes.
pub proof fn lemma_dec_val_grow(t: Seq<u8>, j: int)
    requires
        0 <= j <= t.len(),
        forall|k: int| 0 <= k < t.len() ==> 48 <= #[trigger] t[k] <= 57,
    ensures
        dec_val(t) >= dec_val(t.take(j)),
    decreases t.len() - j,
{
    if j < t.len() {
        assert(t.take(j + 1).drop_last() =~= t.take(j));
        assert(t.take(j + 1).last() == t[j]);
        assert(forall|k: int| 0 <= k < t.take(j).len() ==> 48 <= #[trigger] t.take(j)[k] <= 57);
        lemma_dec_val_nonneg(t.take(j));
        assert(dec_val(t.take(j + 1)) >= dec_val(t.take(j)));
        lemma_dec_val_grow(t, j + 1);
    } else {
        assert(t.take(j) =~= t);
    }
}

/// Parses a non-empty all-digit token as a `usize`; `None` on any other
/// shape, and on a value above `usize::MAX`.
pub fn parse_uint(t: &[u8]) -> (r: Option<usize>)
    ensures
        match r {
            Some(v) => is_digits(t@) && v as int == dec_val(t@),
            None => !is_digits(t@) || dec_val(t@) > usize::MAX as int,
        },
{
    if t.len() == 0 {
        return None;
    }
    let mut acc: usize = 0;
    let mut i: usize = 0;
    proof {
        assert(t@.take(0) =~= Seq::<u8>::empty());
    }
    while i < t.len()
        invariant
            i <= t@.len(),
            t@.len() > 0,
            forall|k: int| 0 <= k < i ==> 48 <= #[trigger] t@[k] <= 57,
            acc as int == dec_val(t@.take(i as int)),
        decreases t@.len() - i,
    {
        let b = t[i];
        if b < 48 || b > 57 {
            return None;
        }
        let d = (b - 48) as usize;
        proof {
            assert(t@.take(i + 1).drop_last() =~= t@.take(i as int));
            assert(t@.take(i + 1).last() == t@[i as int]);
        }
        if acc > (usize::MAX - d) / 10 {
            proof {
                let m = usize::MAX as int;
                let di = d as int;
                let a = acc as int;
                vstd::arithmetic::div_mod::lemma_fundamental_div_mod(m - di, 10);
                vstd::arithmetic::div_mod::lemma_mod_bound(m - di, 10);
                assert(a * 10 >= ((m - di) / 10 + 1) * 10) by (nonlinear_arith)
                    requires
                        a >= (m - di) / 10 + 1,
                ;
                assert(dec_val(t@.take(i + 1)) == a * 10 + di);
                assert(dec_val(t@.take(i + 1)) > m);
                if is_digits(t@) {
                    lemma_dec_val_grow(t@, i + 1);
                }
            }
            return None;
        }
        proof {
            let m = usize::MAX as int;
            let di = d as int;
            let a = acc as int;
            vstd::arithmetic::div_mod::lemma_fundamental_div_mod(m - di, 10);
            vstd::arithmetic::div_mod::lemma_mod_bound(m - di, 10);
            assert(a * 10 <= ((m - di) / 10) * 10) by (nonlinear_arith)
                requires
                    0 <= a <= (m - di) / 10,
            ;
            assert(a * 10 + di <= m);
        }
        acc = acc * 10 + d;
        i = i + 1;
    }
    proof {
        assert(t@.take(t@.len() as int) =~= t@);
    }
    Some(acc)
}

} // verus!
