use vstd::prelude::*;
use vstd::string::StrSliceExecFns;

use crate::digits::all_dec_digits;
use crate::digits::dec_digit_val;
use crate::digits::dec_val;
use crate::digits::is_dec_digit;

verus! {

/// The digit characters of a decimal token: everything after an optional
/// leading `+`.
pub open spec fn dec_token_digits(s: Seq<char>) -> Seq<char> {
    if s.len() > 0 && s[0] == '+' {
        s.drop_first()
    } else {
        s
    }
}

/// True when `s` is a well-formed non-negative decimal token: an optional
/// leading `+` followed by one or more decimal digits.
pub open spec fn is_dec_token(s: Seq<char>) -> bool {
    dec_token_digits(s).len() >= 1 && all_dec_digits(dec_token_digits(s))
}

/// What parsing `s` as an unsigned 128-bit decimal integer yields: its value
/// when `s` is a well-formed token whose value fits, nothing otherwise.
pub open spec fn parse_u128_spec(s: Seq<char>) -> Option<u128> {
    if is_dec_token(s) && dec_val(dec_token_digits(s)) <= u128::MAX {
        Some(dec_val(dec_token_digits(s)) as u128)
    } else {
        None
    }
}

/// The value of a digit sequence never falls when more digits follow.
proof fn lemma_dec_val_take_le(s: Seq<char>, i: int)
    requires
        0 <= i <= s.len(),
    ensures
        dec_val(s.take(i)) <= dec_val(s),
    decreases s.len() - i,
{
    if i == s.len() {
        assert(s.take(i) =~= s);
    } else {
        lemma_dec_val_take_le(s.drop_last(), i);
        assert(s.drop_last().take(i) =~= s.take(i));
        assert(dec_val(s.drop_last()) <= dec_val(s.drop_last()) * 10 + dec_digit_val(s.last()))
            by (nonlinear_arith);
    }
}

/// Parses `s` as a non-negative decimal integer, exactly as
/// [`parse_u128_spec`] describes: `None` on a malformed token or on a value
/// that does not fit in 128 unsigned bits.
pub fn parse_u128(s: &str) -> (r: Option<u128>)
    ensures
        r == parse_u128_spec(s@),
{
    let n = s.unicode_len();
    let start: usize = if n > 0 && s.get_char(0) == '+' {
        1
    } else {
        0
    };
    proof {
        assert(dec_token_digits(s@) =~= s@.subrange(start as int, n as int));
    }
    if n == start {
        return None;
    }
    let mut v: u128 = 0;
    let mut i: usize = start;
    while i < n
        invariant
            start <= i <= n,
            n == s@.len(),
            dec_token_digits(s@) =~= s@.subrange(start as int, n as int),
            all_dec_digits(s@.subrange(start as int, i as int)),
            v == dec_val(s@.subrange(start as int, i as int)),
        decreases n - i,
    {
        let c = s.get_char(i);
        let u = c as u32;
        if !(48 <= u && u <= 57) {
            proof {
                assert(!is_dec_digit(s@[i as int]));
                assert(dec_token_digits(s@)[i - start] == s@[i as int]);
            }
            return None;
        }
        let d = (u - 48) as u128;
        let shifted = match v.checked_mul(10) {
            Some(w) => w,
            None => {
                proof {
                    lemma_overflow_means_no_fit(s@, start as int, i as int, v as nat, d as nat);
                }
                return None;
            },
        };
        let next = match shifted.checked_add(d) {
            Some(w) => w,
            None => {
                proof {
                    lemma_overflow_means_no_fit(s@, start as int, i as int, v as nat, d as nat);
                }
                return None;
            },
        };
        proof {
            let pre = s@.subrange(start as int, i as int);
            let post = s@.subrange(start as int, i + 1 as int);
            assert(post.drop_last() =~= pre);
            assert(post.last() == s@[i as int]);
        }
        v = next;
        i = i + 1;
    }
    proof {
        assert(s@.subrange(start as int, n as int) =~= dec_token_digits(s@));
        lemma_dec_val_take_le(dec_token_digits(s@), n - start);
    }
    Some(v)
}

/// When the next accumulation step overflows, the whole token's value is out
/// of range.
proof fn lemma_overflow_means_no_fit(s: Seq<char>, start: int, i: int, v: nat, d: nat)
    requires
        0 <= start <= i < s.len(),
        dec_token_digits(s) =~= s.subrange(start, s.len() as int),
        v == dec_val(s.subrange(start, i)),
        d == dec_digit_val(s[i]),
        v * 10 + d > u128::MAX,
    ensures
        dec_val(dec_token_digits(s)) > u128::MAX,
{
    let toks = dec_token_digits(s);
    let post = s.subrange(start, i + 1);
    assert(post.drop_last() =~= s.subrange(start, i));
    assert(post.last() == s[i]);
    assert(dec_val(post) == v * 10 + d);
    assert(toks.take(i + 1 - start) =~= post);
    lemma_dec_val_take_le(toks, i + 1 - start);
}

} // verus!
