use vstd::prelude::*;
use vstd::arithmetic::div_mod::lemma_div_decreases;

verus! {

/// The character standing for digit value `d`: `0`-`9`, then `A`-`Z`.
pub open spec fn digit_char(d: nat) -> char {
    if d < 10 {
        ((d + 48) as u8) as char
    } else {
        ((d + 55) as u8) as char
    }
}

/// True of the ASCII decimal digit characters `'0'..='9'`.
pub open spec fn is_dec_digit(c: char) -> bool {
    48 <= c as u32 && c as u32 <= 57
}

/// The numeric value of a decimal digit character.
pub open spec fn dec_digit_val(c: char) -> nat {
    (c as u32 - 48) as nat
}

/// The base-`b` digit characters of `n`, most significant first.
/// `n == 0` yields the empty sequence (no leading zeros are ever produced).
pub open spec fn base_digits(n: nat, b: nat) -> Seq<char>
    recommends
        2 <= b,
    decreases n,
        when 2 <= b
{
    if n == 0 {
        Seq::empty()
    } else {
        proof {
            lemma_div_decreases(n as int, b as int);
        }
        base_digits(n / b, b).push(digit_char((n % b) as nat))
    }
}

/// The base-`b` numeral of `n`: its digits, or `"0"` for `n == 0`.
pub open spec fn numeral(n: nat, b: nat) -> Seq<char>
    recommends
        2 <= b,
{
    if n == 0 {
        seq!['0']
    } else {
        base_digits(n, b)
    }
}

/// The value of a sequence of decimal digit characters, read most
/// significant first; the empty sequence has value 0.
pub open spec fn dec_val(s: Seq<char>) -> nat
    decreases s.len(),
{
    if s.len() == 0 {
        0
    } else {
        dec_val(s.drop_last()) * 10 + dec_digit_val(s.last())
    }
}

/// True when every character of `s` is a decimal digit.
pub open spec fn all_dec_digits(s: Seq<char>) -> bool {
    forall|i: int| 0 <= i < s.len() ==> is_dec_digit(#[trigger] s[i])
}

/// For bases up to 10, every character `base_digits` produces is a
/// decimal digit.
pub proof fn lemma_base_digits_are_digits(n: nat, b: nat)
    requires
        2 <= b <= 10,
    ensures
        all_dec_digits(base_digits(n, b)),
    decreases n,
{
    if n != 0 {
        lemma_div_decreases(n as int, b as int);
        lemma_base_digits_are_digits(n / b, b);
        assert(n % b < b) by {
            vstd::arithmetic::div_mod::lemma_mod_bound(n as int, b as int);
        }
    }
}

/// Runtime digit character for a digit value below 36.
pub fn digit_char_exec(d: u8) -> (c: char)
    requires
        d < 36,
    ensures
        c == digit_char(d as nat),
{
    if d < 10 {
        (d + 48) as char
    } else {
        (d + 55) as char
    }
}

/// Converts `n` to its base-`b` digit characters, most significant first;
/// the empty vector for `n == 0`.
pub fn base_chars(n: u128, b: u128) -> (v: Vec<char>)
    requires
        2 <= b <= 36,
    ensures
        v@ == base_digits(n as nat, b as nat),
{
    let mut rev: Vec<char> = Vec::new();
    let mut m: u128 = n;
    while m > 0
        invariant
            2 <= b <= 36,
            base_digits(n as nat, b as nat) == base_digits(m as nat, b as nat) + rev@.reverse(),
        decreases m,
    {
        let d: u128 = m % b;
        let c = digit_char_exec(d as u8);
        proof {
            lemma_div_decreases(m as int, b as int);
            assert((rev@.push(c)).reverse() =~= seq![c] + rev@.reverse());
            assert(base_digits(m as nat, b as nat) == base_digits((m / b) as nat, b as nat).push(
                c,
            ));
            assert(base_digits((m / b) as nat, b as nat) + (rev@.push(c)).reverse()
                =~= base_digits(m as nat, b as nat) + rev@.reverse());
        }
        rev.push(c);
        m = m / b;
    }
    proof {
        assert(base_digits(n as nat, b as nat) =~= rev@.reverse());
    }
    let mut v: Vec<char> = Vec::new();
    let mut i: usize = rev.len();
    while i > 0
        invariant
            i <= rev.len(),
            v@.len() == rev@.len() - i,
            forall|j: int| 0 <= j < v@.len() ==> v@[j] == rev@[rev@.len() - 1 - j],
        decreases i,
    {
        i = i - 1;
        let c = rev[i];
        v.push(c);
    }
    proof {
        assert(v@ =~= rev@.reverse());
    }
    v
}

/// Reading the decimal digits of `n` back as a number gives `n` again.
pub proof fn lemma_dec_val_of_base_digits(n: nat)
    ensures
        dec_val(base_digits(n, 10)) == n,
    decreases n,
{
    if n != 0 {
        lemma_div_decreases(n as int, 10);
        lemma_dec_val_of_base_digits(n / 10);
        let s = base_digits(n, 10);
        assert(s.drop_last() == base_digits(n / 10, 10));
        assert(dec_digit_val(digit_char((n % 10) as nat)) == n % 10);
        vstd::arithmetic::div_mod::lemma_fundamental_div_mod(n as int, 10);
    }
}

} // verus!
