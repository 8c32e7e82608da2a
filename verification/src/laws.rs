use vstd::prelude::*;

use crate::digits::all_dec_digits;
use crate::digits::base_digits;
use crate::digits::dec_val;
use crate::digits::digit_char;
use crate::digits::is_dec_digit;
use crate::digits::lemma_base_digits_are_digits;
use crate::digits::lemma_dec_val_of_base_digits;
use crate::digits::numeral;
use crate::grouping::grouped_fraction;
use crate::grouping::grouped_integer;
use crate::grouping::zeros;
use crate::number_formatting::apply_sign;
use crate::number_formatting::format_spec;
use crate::number_formatting::lemma_first_dot_found;
use crate::number_formatting::lemma_first_dot_none;
use crate::number_formatting::sign_split;
use crate::parse::dec_token_digits;
use crate::text::is_space;
use crate::text::lemma_trimmed_ends;
use crate::text::lemma_trimmed_id;
use crate::text::trim_back;
use crate::text::trim_front;
use crate::text::trimmed;

verus! {

/// A decimal digit character is not whitespace, not a sign, and not a dot.
proof fn lemma_digit_char_plain(c: char)
    requires
        is_dec_digit(c),
    ensures
        !is_space(c),
        c != '+',
        c != '-',
        c != '.',
{
}

/// The plain decimal numeral of `n` consists of decimal digits alone.
proof fn lemma_numeral_digits(n: nat)
    ensures
        all_dec_digits(numeral(n, 10)),
        numeral(n, 10).len() >= 1,
{
    if n == 0 {
        assert(numeral(n, 10) == seq!['0']);
    } else {
        lemma_base_digits_are_digits(n, 10);
        assert(base_digits(n, 10) == base_digits(n / 10, 10).push(digit_char(n % 10)));
    }
}

/// Formatting the plain decimal numeral of any non-negative 128-bit value
/// always succeeds and yields exactly its grouped form, on which
/// [`crate::grouping::lemma_grouped_integer_ungroups`] states the
/// ungrouping round trip: digits and separators only, and removing the
/// separators leaves the zero-padded digits of the value.
pub proof fn lemma_format_of_nonneg(n: u128, k: nat)
    requires
        1 <= k,
    ensures
        format_spec(numeral(n as nat, 10), k) == Some(grouped_integer(n as nat, k)),
{
    let x = numeral(n as nat, 10);
    lemma_numeral_digits(n as nat);
    assert forall|i: int| 0 <= i < x.len() implies !is_space(#[trigger] x[i]) by {
        lemma_digit_char_plain(x[i]);
    }
    lemma_trimmed_id(x);
    lemma_digit_char_plain(x[0]);
    assert(sign_split(x) == (false, x));
    lemma_first_dot_none(x);
    assert(dec_token_digits(x) == x);
    if n == 0 {
        assert(x == seq!['0']);
        assert(x.drop_last() =~= Seq::<char>::empty());
        assert(dec_val(Seq::<char>::empty()) == 0);
        assert(dec_val(x) == dec_val(x.drop_last()) * 10 + crate::digits::dec_digit_val(x.last()));
        assert(dec_val(x) == 0);
    } else {
        lemma_dec_val_of_base_digits(n as nat);
    }
    assert(dec_val(x) == n);
    assert(format_spec(x, k) == Some(apply_sign(false, grouped_integer(n as nat, k))));
}

/// Formatting the numeral `"0"` yields exactly `k` zero characters.
pub proof fn lemma_format_zero(k: nat)
    requires
        1 <= k,
    ensures
        format_spec(seq!['0'], k) == Some(zeros(k)),
{
    lemma_format_of_nonneg(0, k);
    assert(numeral(0, 10) == seq!['0']);
    assert(grouped_integer(0, k) == zeros(k));
}

/// Sign handling: a `+` before a sign-free, surrounding-whitespace-free
/// numeral changes nothing of the result, while a `-` before it marks the
/// very same body with the `negative_` prefix — and fails exactly when the
/// unsigned numeral fails.
pub proof fn lemma_format_sign(x: Seq<char>, k: nat)
    requires
        1 <= k,
        trimmed(x) == x,
        x.len() > 0 ==> (x[0] != '+' && x[0] != '-'),
    ensures
        format_spec(seq!['+'] + x, k) == format_spec(x, k),
        format_spec(seq!['-'] + x, k) == match format_spec(x, k) {
            Some(body) => Some("negative_"@ + body),
            None => None,
        },
{
    let xp = seq!['+'] + x;
    let xm = seq!['-'] + x;
    if x.len() > 0 {
        lemma_trimmed_ends(x);
    }
    assert(xp[0] == '+' && xm[0] == '-');
    assert(!is_space(xp[0]) && !is_space(xm[0]));
    assert(xp.last() == if x.len() == 0 {
        '+'
    } else {
        x.last()
    });
    assert(xm.last() == if x.len() == 0 {
        '-'
    } else {
        x.last()
    });
    assert(trim_front(xp) == xp && trim_back(xp) == xp);
    assert(trim_front(xm) == xm && trim_back(xm) == xm);
    assert(xp.drop_first() =~= x);
    assert(xm.drop_first() =~= x);
    assert(sign_split(xp) == (false, x));
    assert(sign_split(xm) == (true, x));
    assert(sign_split(x) == (false, x));
}

/// Formatting a fixed-point numeral — decimal digits, one dot, then a run
/// of fractional digits — always succeeds and yields the grouped integer
/// part, the `_decimal_point_` mark, and the grouped fractional part, on
/// which [`crate::grouping::lemma_grouped_fraction_ungroups`] states the
/// round trip: ungrouping returns the fractional digits right-padded with
/// zeros, the written digits unchanged in place.
pub proof fn lemma_format_fixed_point(n: u128, f: Seq<char>, k: nat)
    requires
        1 <= k,
        all_dec_digits(f),
    ensures
        format_spec(numeral(n as nat, 10) + seq!['.'] + f, k) == Some(
            grouped_integer(n as nat, k) + "_decimal_point_"@ + grouped_fraction(f, k),
        ),
{
    let ip = numeral(n as nat, 10);
    let x = ip + seq!['.'] + f;
    lemma_numeral_digits(n as nat);
    assert forall|i: int| 0 <= i < x.len() implies !is_space(#[trigger] x[i]) by {
        if i < ip.len() {
            assert(x[i] == ip[i]);
            lemma_digit_char_plain(x[i]);
        } else if i == ip.len() {
            assert(x[i] == '.');
        } else {
            assert(x[i] == f[i - ip.len() - 1]);
            lemma_digit_char_plain(x[i]);
        }
    }
    lemma_trimmed_id(x);
    assert(x[0] == ip[0]);
    lemma_digit_char_plain(ip[0]);
    assert(sign_split(x) == (false, x));
    let p = ip.len() as int;
    assert(x[p] == '.');
    assert forall|m: int| 0 <= m < p implies x[m] != '.' by {
        assert(x[m] == ip[m]);
        lemma_digit_char_plain(ip[m]);
    }
    lemma_first_dot_found(x, p);
    assert(x.take(p) =~= ip);
    assert(x.skip(p + 1) =~= f);
    assert(dec_token_digits(ip) == ip);
    if n == 0 {
        assert(ip == seq!['0']);
        assert(ip.drop_last() =~= Seq::<char>::empty());
        assert(dec_val(Seq::<char>::empty()) == 0);
        assert(dec_val(ip) == dec_val(ip.drop_last()) * 10 + crate::digits::dec_digit_val(
            ip.last(),
        ));
        assert(dec_val(ip) == 0);
    } else {
        lemma_dec_val_of_base_digits(n as nat);
    }
    assert(dec_val(ip) == n);
    assert(format_spec(x, k) == Some(
        apply_sign(
            false,
            grouped_integer(n as nat, k) + "_decimal_point_"@ + grouped_fraction(f, k),
        ),
    ));
}

} // verus!
