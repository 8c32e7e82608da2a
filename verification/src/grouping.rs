use vstd::prelude::*;
use vstd::arithmetic::div_mod::lemma_add_mod_noop;
use vstd::arithmetic::div_mod::lemma_mod_add_multiples_vanish;
use vstd::arithmetic::div_mod::lemma_mod_bound;
use vstd::arithmetic::div_mod::lemma_mod_self_0;
use vstd::arithmetic::div_mod::lemma_small_mod;
use vstd::arithmetic::div_mod::lemma_sub_mod_noop;
use vstd::string::StrSliceExecFns;

use crate::digits::base_chars;
use crate::digits::base_digits;
use crate::digits::dec_val;
use crate::digits::digit_char;
use crate::digits::is_dec_digit;
use crate::digits::lemma_base_digits_are_digits;
use crate::digits::lemma_dec_val_of_base_digits;
use crate::text::push_char;
use crate::text::push_repeated;

verus! {

/// A run of `n` zero characters.
pub open spec fn zeros(n: nat) -> Seq<char> {
    Seq::new(n, |i: int| '0')
}

/// How many characters of padding bring a run of length `len` up to the next
/// multiple of the group size `k` (zero when `len` is already a multiple).
pub open spec fn pad_width(len: nat, k: nat) -> nat
    recommends
        1 <= k,
{
    (((k - (len % k)) % (k as int)) as nat)
}

pub proof fn lemma_pad_width(len: nat, k: nat)
    requires
        1 <= k,
    ensures
        pad_width(len, k) < k,
        ((len + pad_width(len, k)) % (k as nat)) == 0,
{
    let r = len % k;
    lemma_mod_bound(len as int, k as int);
    if r == 0 {
        lemma_mod_self_0(k as int);
    } else {
        lemma_small_mod((k - r) as nat, k);
        lemma_add_mod_noop(len as int, (k - r) as int, k as int);
        lemma_mod_self_0(k as int);
        lemma_small_mod(r, k);
    }
}

/// `s` cut into consecutive groups of `k` characters, the groups joined
/// with a single `_`. A run no longer than `k` stands unchanged.
pub open spec fn sep_join(s: Seq<char>, k: nat) -> Seq<char>
    recommends
        1 <= k,
    decreases s.len(),
        when 1 <= k
{
    if s.len() <= k {
        s
    } else {
        s.take(k as int) + seq!['_'] + sep_join(s.skip(k as int), k)
    }
}

/// The grouped form of the integer part with value `n`: exactly `k` zeros
/// when `n` is zero, otherwise the decimal digits of `n`, left-padded with
/// zeros to a multiple of `k` and joined in `k`-groups with `_`.
pub open spec fn grouped_integer(n: nat, k: nat) -> Seq<char>
    recommends
        1 <= k,
{
    if n == 0 {
        zeros(k)
    } else {
        let d = base_digits(n, 10);
        sep_join(zeros(pad_width(d.len(), k)) + d, k)
    }
}

/// The grouped form of the fractional digit run `f`: an empty run counts as
/// `"0"`, the run is right-padded with zeros to a multiple of `k`, then
/// joined in `k`-groups with `_`.
pub open spec fn grouped_fraction(f: Seq<char>, k: nat) -> Seq<char>
    recommends
        1 <= k,
{
    let f1 = if f.len() == 0 {
        seq!['0']
    } else {
        f
    };
    sep_join(f1 + zeros(pad_width(f1.len(), k)), k)
}

/// The grouped text with every `_` separator removed.
pub open spec fn ungrouped(s: Seq<char>) -> Seq<char> {
    s.filter(|c: char| c != '_')
}

/// Removing separators from a run that has none leaves it unchanged.
proof fn lemma_ungroup_plain(s: Seq<char>)
    requires
        forall|i: int| 0 <= i < s.len() ==> s[i] != '_',
    ensures
        ungrouped(s) == s,
    decreases s.len(),
{
    reveal(Seq::filter);
    if s.len() > 0 {
        lemma_ungroup_plain(s.drop_last());
        assert(s.drop_last().push(s.last()) =~= s);
    }
}

/// Grouping inserts separators and nothing else: removing them restores the
/// run that was grouped.
pub proof fn lemma_sep_join_ungroups(s: Seq<char>, k: nat)
    requires
        1 <= k,
        forall|i: int| 0 <= i < s.len() ==> s[i] != '_',
    ensures
        ungrouped(sep_join(s, k)) == s,
    decreases s.len(),
{
    broadcast use Seq::filter_distributes_over_add;

    if s.len() <= k {
        lemma_ungroup_plain(s);
    } else {
        let head = s.take(k as int);
        let sep = seq!['_'];
        let tail = s.skip(k as int);
        lemma_ungroup_plain(head);
        assert(ungrouped(sep) =~= Seq::<char>::empty()) by {
            reveal_with_fuel(Seq::filter, 2);
            assert(sep.drop_last() =~= Seq::<char>::empty());
        }
        lemma_sep_join_ungroups(tail, k);
        assert(ungrouped(head + sep + tail) == ungrouped(head + sep) + ungrouped(tail));
        assert(ungrouped(head + sep) == ungrouped(head) + ungrouped(sep));
        assert(head + tail =~= s);
    }
}

/// Every character of a grouped run is a character of the run or the `_`
/// separator.
pub proof fn lemma_sep_join_chars(s: Seq<char>, k: nat)
    requires
        1 <= k,
    ensures
        forall|i: int|
            0 <= i < sep_join(s, k).len() ==> (sep_join(s, k)[i] == '_' || s.contains(
                #[trigger] sep_join(s, k)[i],
            )),
    decreases s.len(),
{
    if s.len() > k {
        let tail = s.skip(k as int);
        lemma_sep_join_chars(tail, k);
        assert forall|i: int|
            0 <= i < sep_join(s, k).len() implies (sep_join(s, k)[i] == '_' || s.contains(
            #[trigger] sep_join(s, k)[i],
        )) by {
            let c = sep_join(s, k)[i];
            if i < k {
                assert(c == s[i]);
            } else if i > k {
                let j = i - k - 1;
                assert(c == sep_join(tail, k)[j]);
                if c != '_' {
                    let m = choose|m: int| 0 <= m < tail.len() && tail[m] == c;
                    assert(s[m + k] == c);
                }
            }
        }
    } else {
        assert forall|i: int|
            0 <= i < sep_join(s, k).len() implies (sep_join(s, k)[i] == '_' || s.contains(
            #[trigger] sep_join(s, k)[i],
        )) by {
            assert(sep_join(s, k)[i] == s[i]);
        }
    }
}

/// Joins the characters of `padded`, whose length is a multiple of `k`, into
/// `k`-sized groups separated by `_`.
fn join_groups(padded: &Vec<char>, k: usize) -> (r: String)
    requires
        1 <= k,
        padded@.len() % (k as nat) == 0,
    ensures
        r@ == sep_join(padded@, k as nat),
{
    let mut out = String::new();
    let n = padded.len();
    proof {
        assert(padded@.skip(0) =~= padded@);
        assert(Seq::<char>::empty() + sep_join(padded@, k as nat) =~= sep_join(
            padded@,
            k as nat,
        ));
    }
    let mut i: usize = 0;
    while i < n
        invariant
            1 <= k,
            i <= n,
            n == padded@.len(),
            i as int % k as int == 0,
            n as int % k as int == 0,
            sep_join(padded@, k as nat) == out@ + sep_join(padded@.skip(i as int), k as nat),
        decreases n - i,
    {
        proof {
            lemma_sub_mod_noop(n as int, i as int, k as int);
            lemma_small_mod(0, k as nat);
            assert((n - i) as int % (k as int) == 0);
            if n - i < k {
                lemma_small_mod((n - i) as nat, k as nat);
            }
            assert(i + k <= n);
            assert(padded@.subrange(i as int, i as int) =~= Seq::<char>::empty());
            assert(out@ + Seq::<char>::empty() =~= out@);
        }
        let ghost out0 = out@;
        let mut j: usize = 0;
        while j < k
            invariant
                1 <= k,
                j <= k,
                i + k <= n,
                n == padded@.len(),
                out@ == out0 + padded@.subrange(i as int, i + j),
            decreases k - j,
        {
            push_char(&mut out, padded[i + j]);
            proof {
                assert(padded@.subrange(i as int, i + j + 1) =~= padded@.subrange(
                    i as int,
                    i + j,
                ).push(padded@[i + j]));
            }
            j = j + 1;
        }
        proof {
            assert(padded@.subrange(i as int, i + k) =~= padded@.skip(i as int).take(k as int));
        }
        i = i + k;
        if i < n {
            push_char(&mut out, '_');
        }
        proof {
            lemma_mod_add_multiples_vanish((i - k) as int, k as int);
            let prev = padded@.skip((i - k) as int);
            if i < n {
                assert(prev.skip(k as int) =~= padded@.skip(i as int));
                assert(out@ + sep_join(padded@.skip(i as int), k as nat) =~= out0 + sep_join(
                    prev,
                    k as nat,
                ));
            } else {
                assert(prev.len() == k);
                assert(sep_join(prev, k as nat) == prev);
                assert(prev =~= padded@.subrange((i - k) as int, i as int));
                assert(padded@.skip(i as int) =~= Seq::<char>::empty());
                assert(out@ + sep_join(padded@.skip(i as int), k as nat) =~= out0 + sep_join(
                    prev,
                    k as nat,
                ));
            }
        }
    }
    proof {
        assert(padded@.skip(n as int) =~= Seq::<char>::empty());
        assert(out@ + sep_join(padded@.skip(n as int), k as nat) =~= out@);
    }
    out
}

/// Renders the non-negative integer `n` in grouped decimal form, exactly as
/// [`grouped_integer`] describes.
pub fn group_integer(n: u128, k: usize) -> (r: String)
    requires
        1 <= k,
    ensures
        r@ == grouped_integer(n as nat, k as nat),
{
    if n == 0 {
        let mut out = String::new();
        push_repeated(&mut out, '0', k);
        proof {
            assert(out@ =~= zeros(k as nat));
        }
        return out;
    }
    let digits = base_chars(n, 10);
    let dlen = digits.len();
    let rem = dlen % k;
    let pad = if rem == 0 {
        0
    } else {
        k - rem
    };
    proof {
        if rem == 0 {
            lemma_mod_self_0(k as int);
        } else {
            lemma_small_mod((k - rem) as nat, k as nat);
        }
        assert(pad == pad_width(dlen as nat, k as nat));
        lemma_pad_width(dlen as nat, k as nat);
    }
    let mut padded: Vec<char> = Vec::new();
    let mut p: usize = 0;
    while p < pad
        invariant
            p <= pad,
            padded@ == zeros(p as nat),
        decreases pad - p,
    {
        padded.push('0');
        proof {
            assert(zeros(p as nat).push('0') =~= zeros((p + 1) as nat));
        }
        p = p + 1;
    }
    let mut q: usize = 0;
    while q < dlen
        invariant
            q <= dlen,
            dlen == digits@.len(),
            padded@ == zeros(pad as nat) + digits@.take(q as int),
        decreases dlen - q,
    {
        padded.push(digits[q]);
        proof {
            assert((zeros(pad as nat) + digits@.take(q as int)).push(digits@[q as int]) =~= zeros(
                pad as nat,
            ) + digits@.take((q + 1) as int));
        }
        q = q + 1;
    }
    proof {
        assert(padded@ =~= zeros(pad as nat) + digits@);
    }
    join_groups(&padded, k)
}

/// Renders the fractional digit run `frac` in grouped form, exactly as
/// [`grouped_fraction`] describes.
pub fn group_fractional(frac: &str, k: usize) -> (r: String)
    requires
        1 <= k,
    ensures
        r@ == grouped_fraction(frac@, k as nat),
{
    let n = frac.unicode_len();
    let mut fv: Vec<char> = Vec::new();
    if n == 0 {
        fv.push('0');
    } else {
        let mut q: usize = 0;
        while q < n
            invariant
                q <= n,
                n == frac@.len(),
                fv@ == frac@.take(q as int),
            decreases n - q,
        {
            let c = frac.get_char(q);
            fv.push(c);
            proof {
                assert(frac@.take(q as int).push(frac@[q as int]) =~= frac@.take((q + 1) as int));
            }
            q = q + 1;
        }
        proof {
            assert(frac@.take(n as int) =~= frac@);
        }
    }
    let ghost f1 = fv@;
    proof {
        if n == 0 {
            assert(fv@ =~= seq!['0']);
        }
    }
    let flen = fv.len();
    let rem = flen % k;
    let pad = if rem == 0 {
        0
    } else {
        k - rem
    };
    proof {
        if rem == 0 {
            lemma_mod_self_0(k as int);
        } else {
            lemma_small_mod((k - rem) as nat, k as nat);
        }
        assert(pad == pad_width(flen as nat, k as nat));
        lemma_pad_width(flen as nat, k as nat);
    }
    proof {
        assert(f1 + zeros(0 as nat) =~= f1);
    }
    let mut p: usize = 0;
    while p < pad
        invariant
            p <= pad,
            fv@ == f1 + zeros(p as nat),
        decreases pad - p,
    {
        fv.push('0');
        proof {
            assert((f1 + zeros(p as nat)).push('0') =~= f1 + zeros((p + 1) as nat));
        }
        p = p + 1;
    }
    join_groups(&fv, k)
}

proof fn lemma_dec_val_zeros(p: nat)
    ensures
        dec_val(zeros(p)) == 0,
    decreases p,
{
    if p > 0 {
        lemma_dec_val_zeros((p - 1) as nat);
        assert(zeros(p).drop_last() =~= zeros((p - 1) as nat));
        assert(zeros(p).last() == '0');
    }
}

proof fn lemma_dec_val_left_zeros(p: nat, d: Seq<char>)
    ensures
        dec_val(zeros(p) + d) == dec_val(d),
    decreases d.len(),
{
    if d.len() == 0 {
        assert(zeros(p) + d =~= zeros(p));
        lemma_dec_val_zeros(p);
    } else {
        lemma_dec_val_left_zeros(p, d.drop_last());
        assert((zeros(p) + d).drop_last() =~= zeros(p) + d.drop_last());
        assert((zeros(p) + d).last() == d.last());
    }
}

/// Grouping a non-negative integer value emits decimal digits and `_`
/// separators only; removing the separators leaves exactly the zero-padded
/// decimal digits — a non-empty run whose length is a multiple of `k` — and
/// reading that run back as a decimal number gives the value again.
pub proof fn lemma_grouped_integer_ungroups(n: nat, k: nat)
    requires
        1 <= k,
    ensures
        forall|i: int|
            0 <= i < grouped_integer(n, k).len() ==> (is_dec_digit(
                #[trigger] grouped_integer(n, k)[i],
            ) || grouped_integer(n, k)[i] == '_'),
        ungrouped(grouped_integer(n, k)) == if n == 0 {
            zeros(k)
        } else {
            zeros(pad_width(base_digits(n, 10).len(), k)) + base_digits(n, 10)
        },
        ungrouped(grouped_integer(n, k)).len() % k == 0,
        ungrouped(grouped_integer(n, k)).len() > 0,
        dec_val(ungrouped(grouped_integer(n, k))) == n,
{
    if n == 0 {
        let z = zeros(k);
        assert(forall|i: int| 0 <= i < z.len() ==> #[trigger] z[i] == '0');
        assert(grouped_integer(n, k) == z);
        lemma_sep_join_ungroups(z, k);
        assert(sep_join(z, k) == z);
        lemma_dec_val_zeros(k);
        lemma_mod_self_0(k as int);
    } else {
        let d = base_digits(n, 10);
        assert(d == base_digits(n / 10, 10).push(digit_char(n % 10)));
        assert(d.len() >= 1);
        let p = pad_width(d.len(), k);
        let s = zeros(p) + d;
        lemma_base_digits_are_digits(n, 10);
        assert forall|i: int| 0 <= i < s.len() implies is_dec_digit(#[trigger] s[i]) by {
            if i < p {
                assert(s[i] == '0');
            } else {
                assert(s[i] == d[i - p]);
            }
        }
        assert(forall|i: int| 0 <= i < s.len() ==> #[trigger] s[i] != '_');
        lemma_sep_join_ungroups(s, k);
        lemma_sep_join_chars(s, k);
        assert forall|i: int| 0 <= i < grouped_integer(n, k).len() implies (is_dec_digit(
            #[trigger] grouped_integer(n, k)[i],
        ) || grouped_integer(n, k)[i] == '_') by {
            let c = grouped_integer(n, k)[i];
            if c != '_' {
                assert(s.contains(c));
                let m = choose|m: int| 0 <= m <= s.len() - 1 && s[m] == c;
                assert(is_dec_digit(s[m]));
            }
        }
        lemma_pad_width(d.len(), k);
        lemma_dec_val_left_zeros(p, d);
        lemma_dec_val_of_base_digits(n);
    }
}

/// Grouping a fractional run keeps its characters in place: removing the
/// separators leaves the run itself (an empty run counting as `"0"`),
/// right-padded with zeros to a multiple of `k`; in particular the written
/// digits survive as an unchanged prefix.
pub proof fn lemma_grouped_fraction_ungroups(f: Seq<char>, k: nat)
    requires
        1 <= k,
        forall|i: int| 0 <= i < f.len() ==> #[trigger] f[i] != '_',
    ensures
        ({
            let f1 = if f.len() == 0 {
                seq!['0']
            } else {
                f
            };
            &&& ungrouped(grouped_fraction(f, k)) == f1 + zeros(pad_width(f1.len(), k))
            &&& ungrouped(grouped_fraction(f, k)).take(f1.len() as int) == f1
            &&& ungrouped(grouped_fraction(f, k)).len() % k == 0
        }),
{
    let f1 = if f.len() == 0 {
        seq!['0']
    } else {
        f
    };
    let s = f1 + zeros(pad_width(f1.len(), k));
    assert forall|i: int| 0 <= i < s.len() implies #[trigger] s[i] != '_' by {
        if i < f1.len() {
            assert(s[i] == f1[i]);
        } else {
            assert(s[i] == '0');
        }
    }
    lemma_sep_join_ungroups(s, k);
    lemma_pad_width(f1.len(), k);
    assert(s.take(f1.len() as int) =~= f1);
}

} // verus!
