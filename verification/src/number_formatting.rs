use vstd::prelude::*;
use vstd::string::StrSliceExecFns;
use vstd::string::StringExecFns;

use crate::errors::NumeralError;
use crate::grouping::group_fractional;
use crate::grouping::group_integer;
use crate::grouping::grouped_fraction;
use crate::grouping::grouped_integer;
use crate::parse::parse_u128;
use crate::parse::parse_u128_spec;
use crate::text::trim_str;
use crate::text::trimmed;

verus! {

/// The group size used when the argument is empty text.
pub const DEFAULT_GROUP_SIZE: usize = 3;

/// Splits an optional leading sign off `t`: the flag says whether the sign
/// was `-`; a `+` is accepted and dropped without a mark.
pub open spec fn sign_split(t: Seq<char>) -> (bool, Seq<char>) {
    if t.len() > 0 && (t[0] == '+' || t[0] == '-') {
        (t[0] == '-', t.drop_first())
    } else {
        (false, t)
    }
}

/// The index of the first `.` in `u`, if any.
pub open spec fn first_dot(u: Seq<char>) -> Option<int>
    decreases u.len(),
{
    if u.len() == 0 {
        None
    } else if u[0] == '.' {
        Some(0)
    } else {
        match first_dot(u.drop_first()) {
            Some(i) => Some(i + 1),
            None => None,
        }
    }
}

pub proof fn lemma_first_dot_found(u: Seq<char>, i: int)
    requires
        0 <= i < u.len(),
        u[i] == '.',
        forall|m: int| 0 <= m < i ==> u[m] != '.',
    ensures
        first_dot(u) == Some(i),
    decreases i,
{
    if i > 0 {
        lemma_first_dot_found(u.drop_first(), i - 1);
    }
}

pub proof fn lemma_first_dot_none(u: Seq<char>)
    requires
        forall|m: int| 0 <= m < u.len() ==> u[m] != '.',
    ensures
        first_dot(u) is None,
    decreases u.len(),
{
    if u.len() > 0 {
        lemma_first_dot_none(u.drop_first());
    }
}

/// The value of an integer part: an empty run counts as zero, anything else
/// must be a well-formed decimal token fitting 128 unsigned bits.
pub open spec fn parse_int_part(s: Seq<char>) -> Option<u128> {
    if s.len() == 0 {
        Some(0)
    } else {
        parse_u128_spec(s)
    }
}

/// Prefixes the textual mark of a negative value.
pub open spec fn apply_sign(neg: bool, body: Seq<char>) -> Seq<char> {
    if neg {
        "negative_"@ + body
    } else {
        body
    }
}

/// The whole formatting pipeline on a numeral `x` with group size `k`:
/// surrounding whitespace is removed, one leading sign is split off, the
/// numeral is cut at the first `.` into integer and fractional parts, the
/// integer part is read as a non-negative 128-bit value and grouped, the
/// fractional part is grouped as written, and the pieces are joined with
/// the `_decimal_point_` and `negative_` marks. `None` when the integer
/// part is not a non-negative decimal integer within range.
pub open spec fn format_spec(x: Seq<char>, k: nat) -> Option<Seq<char>>
    recommends
        1 <= k,
{
    let t = trimmed(x);
    let neg = sign_split(t).0;
    let u = sign_split(t).1;
    match first_dot(u) {
        Some(p) => match parse_int_part(u.take(p)) {
            Some(v) => Some(
                apply_sign(
                    neg,
                    grouped_integer(v as nat, k) + "_decimal_point_"@ + grouped_fraction(
                        u.skip(p + 1),
                        k,
                    ),
                ),
            ),
            None => None,
        },
        None => match parse_int_part(u) {
            Some(v) => Some(apply_sign(neg, grouped_integer(v as nat, k))),
            None => None,
        },
    }
}

/// Reads an integer part, treating the empty run as zero.
fn parse_int_part_exec(s: &str) -> (r: Option<u128>)
    ensures
        r == parse_int_part(s@),
{
    if s.unicode_len() == 0 {
        Some(0)
    } else {
        parse_u128(s)
    }
}

/// Formats `x` with a resolved group size `k`, exactly as [`format_spec`]
/// describes; the only failure is a malformed or out-of-range integer part.
pub(crate) fn format_number_internal(x: &str, k: usize) -> (r: Result<String, NumeralError>)
    requires
        1 <= k,
    ensures
        match r {
            Ok(s) => format_spec(x@, k as nat) == Some(s@),
            Err(e) => format_spec(x@, k as nat) is None && e == NumeralError::InvalidNumeral,
        },
{
    let t = trim_str(x);
    let n = t.unicode_len();
    let ghost pair = sign_split(trimmed(x@));
    let neg: bool;
    let u: &str;
    if n > 0 && (t.get_char(0) == '+' || t.get_char(0) == '-') {
        neg = t.get_char(0) == '-';
        u = t.substring_char(1, n);
        proof {
            assert(u@ =~= pair.1);
        }
    } else {
        neg = false;
        u = t;
    }
    let un = u.unicode_len();
    let mut di: usize = 0;
    while di < un && u.get_char(di) != '.'
        invariant
            di <= un,
            un == u@.len(),
            forall|m: int| 0 <= m < di ==> u@[m] != '.',
        decreases un - di,
    {
        di = di + 1;
    }
    if di == un {
        proof {
            lemma_first_dot_none(u@);
        }
        match parse_int_part_exec(u) {
            None => Err(NumeralError::InvalidNumeral),
            Some(v) => {
                let body = group_integer(v, k);
                if neg {
                    let mut out = String::new();
                    out.append("negative_");
                    out.append(body.as_str());
                    Ok(out)
                } else {
                    Ok(body)
                }
            },
        }
    } else {
        proof {
            lemma_first_dot_found(u@, di as int);
        }
        let ip = u.substring_char(0, di);
        let fp = u.substring_char(di + 1, un);
        proof {
            assert(ip@ =~= u@.take(di as int));
            assert(fp@ =~= u@.skip(di + 1));
        }
        match parse_int_part_exec(ip) {
            None => Err(NumeralError::InvalidNumeral),
            Some(v) => {
                let mut out = group_integer(v, k);
                let frac = group_fractional(fp, k);
                out.append("_decimal_point_");
                out.append(frac.as_str());
                if neg {
                    let mut signed_out = String::new();
                    signed_out.append("negative_");
                    signed_out.append(out.as_str());
                    Ok(signed_out)
                } else {
                    Ok(out)
                }
            },
        }
    }
}

/// An argument usable as a group size: either a number or text to parse.
pub trait IntoGroupSize: Sized {
    /// The validated positive group size this argument stands for, if any;
    /// empty text stands for the default of 3.
    spec fn group_size_spec(self) -> Option<usize>;

    /// Resolves the argument, failing on anything but a positive integer.
    fn into_group_size(self) -> (r: Result<usize, NumeralError>)
        ensures
            match r {
                Ok(k) => self.group_size_spec() == Some(k) && k >= 1,
                Err(e) => self.group_size_spec() is None && e == NumeralError::InvalidGroupSize,
            },
    ;
}

impl IntoGroupSize for &str {
    open spec fn group_size_spec(self) -> Option<usize> {
        if self@.len() == 0 {
            Some(DEFAULT_GROUP_SIZE)
        } else {
            match parse_u128_spec(self@) {
                Some(v) => if 1 <= v <= usize::MAX {
                    Some(v as usize)
                } else {
                    None
                },
                None => None,
            }
        }
    }

    fn into_group_size(self) -> (r: Result<usize, NumeralError>) {
        if self.is_empty() {
            return Ok(DEFAULT_GROUP_SIZE);
        }
        match parse_u128(self) {
            Some(v) => if 1 <= v && v <= usize::MAX as u128 {
                Ok(v as usize)
            } else {
                Err(NumeralError::InvalidGroupSize)
            },
            None => Err(NumeralError::InvalidGroupSize),
        }
    }
}

impl IntoGroupSize for usize {
    open spec fn group_size_spec(self) -> Option<usize> {
        if self >= 1 {
            Some(self)
        } else {
            None
        }
    }

    fn into_group_size(self) -> (r: Result<usize, NumeralError>) {
        if self == 0 {
            Err(NumeralError::InvalidGroupSize)
        } else {
            Ok(self)
        }
    }
}

/// Rewrites the numeral `x` into fixed-width digit groups, with the group
/// size taken from `group_size` (a number, or text with empty meaning the
/// default of 3). See [`format_spec`] for the exact result.
pub fn format_number<T: IntoGroupSize>(x: &str, group_size: T) -> (r: Result<String, NumeralError>)
    ensures
        match r {
            Ok(out) => group_size.group_size_spec() matches Some(k) && format_spec(x@, k as nat)
                == Some(out@),
            Err(e) => (group_size.group_size_spec() is None && e == NumeralError::InvalidGroupSize)
                || (group_size.group_size_spec() matches Some(k) && format_spec(x@, k as nat)
                is None && e == NumeralError::InvalidNumeral),
        },
{
    match group_size.into_group_size() {
        Ok(k) => format_number_internal(x, k),
        Err(e) => Err(e),
    }
}

} // verus!
