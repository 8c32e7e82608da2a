use vstd::prelude::*;
use vstd::string::StrSliceExecFns;
use vstd::string::StringExecFns;

use crate::digits::base_chars;
use crate::digits::numeral;
use crate::errors::NumeralError;
use crate::parse::parse_u128_spec;
use crate::text::chars_to_string;

verus! {

/// The base used when the argument is empty text.
pub const DEFAULT_BASE: usize = 10;

/// The digits that follow the radix point of the base-`b` Champernowne
/// constant cut off after `limit` integers: the base-`b` numerals of
/// `1, 2, ..., limit`, concatenated in ascending order.
pub open spec fn champernowne_digits(limit: nat, b: nat) -> Seq<char>
    recommends
        2 <= b <= 36,
    decreases limit,
{
    if limit == 0 {
        Seq::empty()
    } else {
        champernowne_digits((limit - 1) as nat, b) + numeral(limit, b)
    }
}

/// The textual base-`b` Champernowne constant with `limit` integers:
/// `"0."` followed by [`champernowne_digits`].
pub open spec fn champernowne_spec(limit: nat, b: nat) -> Seq<char>
    recommends
        2 <= b <= 36,
{
    "0."@ + champernowne_digits(limit, b)
}

/// Converts `n` to its base-`b` numeral, digits `0`-`9` then `A`-`Z`,
/// most significant first; `0` yields `"0"`.
pub fn to_base(n: usize, b: usize) -> (r: String)
    requires
        2 <= b <= 36,
    ensures
        r@ == numeral(n as nat, b as nat),
{
    if n == 0 {
        let mut out = String::new();
        out.append("0");
        proof {
            reveal_strlit("0");
            assert(out@ =~= seq!['0']);
        }
        return out;
    }
    let v = base_chars(n as u128, b as u128);
    chars_to_string(&v)
}

/// An argument usable as a base: either a number or text to parse.
pub trait IntoBase: Sized {
    /// The base this argument stands for, if it is an integer at all;
    /// empty text stands for the default of 10. Range is checked later.
    spec fn base_spec(self) -> Option<usize>;

    /// Resolves the argument, failing on anything that is not an integer.
    fn into_base(self) -> (r: Result<usize, NumeralError>)
        ensures
            match r {
                Ok(b) => self.base_spec() == Some(b),
                Err(e) => self.base_spec() is None && e == NumeralError::InvalidBase,
            },
    ;
}

impl IntoBase for usize {
    open spec fn base_spec(self) -> Option<usize> {
        Some(self)
    }

    fn into_base(self) -> (r: Result<usize, NumeralError>) {
        Ok(self)
    }
}

impl IntoBase for &str {
    open spec fn base_spec(self) -> Option<usize> {
        if self@.len() == 0 {
            Some(DEFAULT_BASE)
        } else {
            match parse_u128_spec(self@) {
                Some(v) => if v <= usize::MAX {
                    Some(v as usize)
                } else {
                    None
                },
                None => None,
            }
        }
    }

    fn into_base(self) -> (r: Result<usize, NumeralError>) {
        if self.is_empty() {
            return Ok(DEFAULT_BASE);
        }
        match crate::parse::parse_u128(self) {
            Some(v) => if v <= usize::MAX as u128 {
                Ok(v as usize)
            } else {
                Err(NumeralError::InvalidBase)
            },
            None => Err(NumeralError::InvalidBase),
        }
    }
}

impl IntoBase for String {
    open spec fn base_spec(self) -> Option<usize> {
        if self@.len() == 0 {
            Some(DEFAULT_BASE)
        } else {
            match parse_u128_spec(self@) {
                Some(v) => if v <= usize::MAX {
                    Some(v as usize)
                } else {
                    None
                },
                None => None,
            }
        }
    }

    fn into_base(self) -> (r: Result<usize, NumeralError>) {
        self.as_str().into_base()
    }
}

/// Computes the base-`b` Champernowne constant text for the first `limit`
/// positive integers, exactly as [`champernowne_spec`] describes. The base
/// argument must be an integer (else `InvalidBase`) within `[2, 36]`
/// (else `BaseOutOfRange`); those are the only failures.
pub fn champernowne<B: IntoBase>(limit: usize, base: B) -> (r: Result<String, NumeralError>)
    ensures
        match r {
            Ok(out) => base.base_spec() matches Some(b) && 2 <= b <= 36 && out@
                == champernowne_spec(limit as nat, b as nat),
            Err(e) => (base.base_spec() is None && e == NumeralError::InvalidBase) || (
            base.base_spec() matches Some(b) && !(2 <= b <= 36) && e
                == NumeralError::BaseOutOfRange),
        },
{
    let b = match base.into_base() {
        Ok(b) => b,
        Err(e) => {
            return Err(e);
        },
    };
    if b < 2 || b > 36 {
        return Err(NumeralError::BaseOutOfRange);
    }
    let mut out = String::new();
    out.append("0.");
    proof {
        assert(out@ =~= "0."@ + champernowne_digits(0, b as nat));
    }
    let mut i: usize = 0;
    while i < limit
        invariant
            2 <= b <= 36,
            i <= limit,
            out@ == "0."@ + champernowne_digits(i as nat, b as nat),
        decreases limit - i,
    {
        i = i + 1;
        let digits = to_base(i, b);
        out.append(digits.as_str());
        proof {
            assert(out@ =~= "0."@ + champernowne_digits(i as nat, b as nat));
        }
    }
    Ok(out)
}

/// Extending the cut-off by one appends exactly the next numeral: the
/// Champernowne text for `limit` integers is a prefix of the text for
/// `limit + 1`, and the extra characters are the base-`b` numeral of
/// `limit + 1`.
pub proof fn lemma_champernowne_step(limit: nat, b: nat)
    requires
        2 <= b <= 36,
    ensures
        champernowne_spec(limit + 1, b) == champernowne_spec(limit, b) + numeral(limit + 1, b),
        champernowne_spec(limit, b).is_prefix_of(champernowne_spec(limit + 1, b)),
{
    assert(champernowne_spec(limit + 1, b) =~= champernowne_spec(limit, b) + numeral(
        limit + 1,
        b,
    ));
    assert(champernowne_spec(limit, b).is_prefix_of(champernowne_spec(limit + 1, b)));
}

} // verus!
