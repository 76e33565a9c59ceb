//! Facts about the model in `specs`: bounds on magnitudes, uniqueness of the
//! canonical representation, and how canonicalization and comparison relate
//! to the magnitudes they act on.

use crate::constants::{BLOCK_DIVISION_FACTOR, DIGITS_PER_BLOCK};
use crate::specs::{
    all_digits, block_weight, blocks_ok, canon, canonical, dec_digits, digit_char, digit_val,
    digits_value, is_digit, lex_cmp_from_top, mag, mag_cmp, padded_digits, radix, strip_zeros,
};
use vstd::arithmetic::div_mod::{
    lemma_fundamental_div_mod, lemma_fundamental_div_mod_converse_div,
    lemma_fundamental_div_mod_converse_mod,
};
use vstd::arithmetic::power::{lemma_pow0, lemma_pow1, lemma_pow_adds, lemma_pow_positive, pow};
use vstd::prelude::*;

verus! {

/// The plain decimal rendering of a number is made of digits, has no
/// leading zero unless it is the single digit 0, and denotes the number
/// it renders.
pub proof fn lemma_dec_digits(n: nat)
    ensures
        dec_digits(n).len() >= 1,
        all_digits(dec_digits(n)),
        digits_value(dec_digits(n)) == n,
        n >= 1 ==> dec_digits(n)[0] != '0',
        n == 0 ==> dec_digits(n) == seq!['0'],
    decreases n,
{
    if n < 10 {
        let s = seq![digit_char(n as int)];
        assert(s.drop_last() =~= Seq::<char>::empty());
        assert(digits_value(Seq::<char>::empty()) == 0);
        assert(digits_value(s) == digits_value(s.drop_last()) * 10 + crate::specs::digit_val(
            s.last(),
        ));
        if n == 0 {
            assert(dec_digits(n) =~= seq!['0']);
        }
    } else {
        lemma_dec_digits(n / 10);
        lemma_fundamental_div_mod(n as int, 10);
        let s = dec_digits(n);
        assert(s.drop_last() =~= dec_digits(n / 10));
        assert(s.last() == digit_char((n % 10) as int));
        assert(digits_value(s) == (n / 10) * 10 + (n % 10));
        assert forall|i: int| 0 <= i < s.len() implies crate::specs::is_digit(s[i]) by {
            if i < s.len() - 1 {
                assert(s[i] == dec_digits(n / 10)[i]);
            }
        }
        assert(s[0] == dec_digits(n / 10)[0]);
    }
}

/// A digit string splits at its first character.
pub proof fn lemma_digits_value_first(s: Seq<char>)
    requires
        s.len() >= 1,
    ensures
        digits_value(s) == digit_val(s[0]) * pow(10, (s.len() - 1) as nat) + digits_value(
            s.skip(1),
        ),
{
    let head = seq![s[0]];
    assert(s =~= head + s.skip(1));
    lemma_digits_value_concat(head, s.skip(1));
    assert(head.drop_last() =~= Seq::<char>::empty());
    assert(digits_value(Seq::<char>::empty()) == 0);
    assert(digits_value(head) == digit_val(s[0]));
}

/// Removing leading zeros keeps the digits, the value, and at least one
/// character, and leaves no leading zero unless a single digit remains.
pub proof fn lemma_strip_zeros(s: Seq<char>)
    requires
        s.len() >= 1,
    ensures
        strip_zeros(s).len() >= 1,
        digits_value(strip_zeros(s)) == digits_value(s),
        all_digits(s) ==> all_digits(strip_zeros(s)),
        strip_zeros(s).len() > 1 ==> strip_zeros(s)[0] != '0',
    decreases s.len(),
{
    if s.len() == 1 {
    } else if s[0] == '0' {
        lemma_digits_value_first(s);
        lemma_strip_zeros(s.skip(1));
        assert(all_digits(s) ==> all_digits(s.skip(1)));
    }
}

/// A digit string without a leading zero reaches at least ten to one
/// less than its length.
pub proof fn lemma_digits_value_leading(s: Seq<char>)
    requires
        all_digits(s),
        s.len() >= 1,
        s[0] != '0',
    ensures
        digits_value(s) >= pow(10, (s.len() - 1) as nat),
    decreases s.len(),
{
    lemma_pow0(10);
    if s.len() == 1 {
        assert(is_digit(s[0]));
        assert(digits_value(s.drop_last()) == 0);
        assert(digits_value(s) == digit_val(s[0]));
        assert(digit_val(s[0]) >= 1);
    } else {
        assert(all_digits(s.drop_last()));
        assert(s.drop_last()[0] == s[0]);
        lemma_digits_value_leading(s.drop_last());
        lemma_pow_adds(10, (s.len() - 2) as nat, 1);
        lemma_pow1(10);
        assert(is_digit(s.last()));
        assert(digit_val(s.last()) >= 0);
        assert(digits_value(s) == digits_value(s.drop_last()) * 10 + digit_val(s.last()));
        assert(pow(10, (s.len() - 1) as nat) == pow(10, (s.len() - 2) as nat) * 10);
    }
}

/// Rendering is the inverse of reading: the decimal digits of the value
/// of a digit string without leading zeros are that string.
pub proof fn lemma_dec_digits_of_value(d: Seq<char>)
    requires
        all_digits(d),
        d.len() >= 1,
        d.len() > 1 ==> d[0] != '0',
    ensures
        dec_digits(digits_value(d) as nat) == d,
    decreases d.len(),
{
    lemma_digits_value_bound(d);
    if d.len() == 1 {
        assert(is_digit(d[0]));
        assert(d.drop_last() =~= Seq::<char>::empty());
        assert(digits_value(Seq::<char>::empty()) == 0);
        assert(digits_value(d) == digit_val(d[0]));
        assert(dec_digits(digits_value(d) as nat) =~= seq![digit_char(digit_val(d[0]))]);
        assert(seq![digit_char(digit_val(d[0]))] =~= d);
    } else {
        let d_1 = d.drop_last();
        assert(all_digits(d_1));
        assert(d_1[0] == d[0]);
        lemma_dec_digits_of_value(d_1);
        lemma_digits_value_leading(d_1);
        lemma_pow_positive(10, (d_1.len() - 1) as nat);
        lemma_digits_value_bound(d_1);
        let v = digits_value(d);
        assert(is_digit(d.last()));
        assert(v == digits_value(d_1) * 10 + digit_val(d.last()));
        assert(v >= 10);
        lemma_fundamental_div_mod_converse_div(v, 10, digits_value(d_1), digit_val(d.last()));
        lemma_fundamental_div_mod_converse_mod(v, 10, digits_value(d_1), digit_val(d.last()));
        assert(dec_digits(v as nat) == dec_digits(digits_value(d_1) as nat).push(
            digit_char(digit_val(d.last())),
        ));
        assert(digit_char(digit_val(d.last())) == d.last());
        assert(d_1.push(d.last()) =~= d);
    }
}

/// Splitting a number at a power of ten splits its rendering into the
/// plain digits of the high part followed by the padded digits of the
/// low part.
pub proof fn lemma_dec_digits_split(hi: nat, lo: nat, w: nat)
    requires
        hi >= 1,
        lo < pow(10, w),
    ensures
        dec_digits((hi * pow(10, w) + lo) as nat) == dec_digits(hi) + padded_digits(lo, w),
    decreases w,
{
    lemma_pow_positive(10, w);
    if w == 0 {
        lemma_pow0(10);
        assert(dec_digits(hi) + padded_digits(lo, 0) =~= dec_digits(hi));
    } else {
        let p_1 = pow(10, (w - 1) as nat);
        lemma_pow_positive(10, (w - 1) as nat);
        lemma_pow_adds(10, (w - 1) as nat, 1);
        lemma_pow1(10);
        assert(pow(10, w) == p_1 * 10);
        let v: int = hi * pow(10, w) + lo;
        lemma_fundamental_div_mod(lo as int, 10);
        assert(v == (hi * p_1 + lo / 10) * 10 + lo % 10) by (nonlinear_arith)
            requires
                pow(10, w) == p_1 * 10,
                lo == 10 * (lo as int / 10) + lo as int % 10,
                v == hi * pow(10, w) + lo,
        ;
        assert(v >= 10 && hi * p_1 + lo / 10 >= 1 && lo / 10 < p_1) by (nonlinear_arith)
            requires
                hi >= 1,
                p_1 >= 1,
                lo >= 0,
                lo < p_1 * 10,
                lo == 10 * (lo as int / 10) + lo as int % 10,
                0 <= lo as int % 10 < 10,
                v == (hi * p_1 + lo / 10) * 10 + lo % 10,
                0 <= lo as int / 10,
        ;
        lemma_fundamental_div_mod_converse_div(v, 10, hi * p_1 + lo as int / 10, lo as int % 10);
        lemma_fundamental_div_mod_converse_mod(v, 10, hi * p_1 + lo as int / 10, lo as int % 10);
        lemma_dec_digits_split(hi, lo / 10, (w - 1) as nat);
        assert(dec_digits(v as nat) == dec_digits((v / 10) as nat).push(
            digit_char((v % 10) as int),
        ));
        assert((dec_digits(hi) + padded_digits(lo / 10, (w - 1) as nat)).push(
            digit_char((lo % 10) as int),
        ) =~= dec_digits(hi) + padded_digits(lo, w));
    }
}

/// The block radix is ten to the block width.
pub proof fn lemma_pow10_block()
    ensures
        pow(10, DIGITS_PER_BLOCK as nat) == radix(),
{
    reveal_with_fuel(pow, 19);
}

/// A digit string is never negative and stays below ten to its length.
pub proof fn lemma_digits_value_bound(s: Seq<char>)
    ensures
        0 <= digits_value(s) < pow(10, s.len()),
    decreases s.len(),
{
    lemma_pow0(10);
    if s.len() > 0 {
        let p = pow(10, (s.len() - 1) as nat);
        lemma_digits_value_bound(s.drop_last());
        lemma_pow_adds(10, (s.len() - 1) as nat, 1);
        lemma_pow1(10);
        assert(digits_value(s.drop_last()) * 10 + 9 < p * 10) by (nonlinear_arith)
            requires
                digits_value(s.drop_last()) < p,
        ;
    }
}

/// Concatenating digit strings shifts the left part by ten to the length
/// of the right part.
pub proof fn lemma_digits_value_concat(a: Seq<char>, b: Seq<char>)
    ensures
        digits_value(a + b) == digits_value(a) * pow(10, b.len()) + digits_value(b),
    decreases b.len(),
{
    if b.len() == 0 {
        assert(a + b =~= a);
        lemma_pow0(10);
    } else {
        let p = pow(10, (b.len() - 1) as nat);
        lemma_digits_value_concat(a, b.drop_last());
        assert((a + b).drop_last() =~= a + b.drop_last());
        assert((a + b).last() == b.last());
        lemma_pow_adds(10, (b.len() - 1) as nat, 1);
        lemma_pow1(10);
        assert((digits_value(a) * p + digits_value(b.drop_last())) * 10 == digits_value(a) * (p
            * 10) + digits_value(b.drop_last()) * 10) by (nonlinear_arith);
    }
}

/// Block weights are strictly positive.
pub proof fn lemma_block_weight_pos(i: nat)
    ensures
        block_weight(i) >= 1,
{
    lemma_pow_positive(radix(), i);
}

/// The weight of the next block is one radix step up.
pub proof fn lemma_block_weight_succ(i: nat)
    ensures
        block_weight(i + 1) == radix() * block_weight(i),
{
    lemma_pow_adds(radix(), 1, i);
    lemma_pow1(radix());
}

/// Block weights grow with the position.
pub proof fn lemma_block_weight_increases(i: nat, j: nat)
    requires
        i <= j,
    ensures
        block_weight(i) <= block_weight(j),
    decreases j - i,
{
    if i < j {
        lemma_block_weight_increases(i, (j - 1) as nat);
        lemma_block_weight_succ((j - 1) as nat);
        lemma_block_weight_pos((j - 1) as nat);
        assert(radix() * block_weight((j - 1) as nat) >= 1 * block_weight((j - 1) as nat))
            by (nonlinear_arith)
            requires
                block_weight((j - 1) as nat) >= 1,
        ;
    }
}

/// A single block denotes itself.
pub proof fn lemma_mag_single(x: u64)
    ensures
        mag(seq![x]) == x,
{
    let s = seq![x];
    assert(s.drop_last() =~= Seq::<u64>::empty());
    assert(mag(Seq::<u64>::empty()) == 0);
    assert(mag(s.drop_last()) == 0);
    lemma_pow0(radix());
    assert(mag(s) == 0 + x * 1);
}

/// A magnitude is never negative.
pub proof fn lemma_mag_nonneg(s: Seq<u64>)
    ensures
        mag(s) >= 0,
    decreases s.len(),
{
    if s.len() > 0 {
        lemma_mag_nonneg(s.drop_last());
        lemma_block_weight_pos((s.len() - 1) as nat);
        assert(s.last() * block_weight((s.len() - 1) as nat) >= 0) by (nonlinear_arith)
            requires
                s.last() >= 0,
                block_weight((s.len() - 1) as nat) >= 1,
        ;
    }
}

/// A sequence of well-formed blocks stays below the weight of the position
/// just past its end.
pub proof fn lemma_mag_bound(s: Seq<u64>)
    requires
        blocks_ok(s),
    ensures
        mag(s) < block_weight(s.len()),
    decreases s.len(),
{
    lemma_block_weight_pos(s.len());
    if s.len() > 0 {
        let n = (s.len() - 1) as nat;
        assert(blocks_ok(s.drop_last()));
        lemma_mag_bound(s.drop_last());
        lemma_block_weight_succ(n);
        assert(mag(s.drop_last()) + s.last() * block_weight(n) < radix() * block_weight(n))
            by (nonlinear_arith)
            requires
                mag(s.drop_last()) < block_weight(n),
                s.last() < BLOCK_DIVISION_FACTOR,
                radix() == BLOCK_DIVISION_FACTOR as int,
                block_weight(n) >= 1,
        ;
    }
}

/// A sequence whose most-significant block is nonzero reaches at least the
/// weight of that block.
pub proof fn lemma_mag_lower(s: Seq<u64>)
    requires
        s.len() >= 1,
        s.last() >= 1,
    ensures
        mag(s) >= block_weight((s.len() - 1) as nat),
{
    let n = (s.len() - 1) as nat;
    lemma_mag_nonneg(s.drop_last());
    lemma_block_weight_pos(n);
    assert(s.last() * block_weight(n) >= 1 * block_weight(n)) by (nonlinear_arith)
        requires
            s.last() >= 1,
            block_weight(n) >= 1,
    ;
}

/// Extending a prefix by one block adds that block at its weight.
pub proof fn lemma_mag_take_succ(s: Seq<u64>, t: int)
    requires
        0 <= t < s.len(),
    ensures
        mag(s.take(t + 1)) == mag(s.take(t)) + s[t] * block_weight(t as nat),
{
    assert(s.take(t + 1).drop_last() =~= s.take(t));
    assert(s.take(t + 1).last() == s[t]);
}

/// The whole sequence is its own full prefix.
pub proof fn lemma_mag_take_full(s: Seq<u64>)
    ensures
        mag(s.take(s.len() as int)) == mag(s),
{
    assert(s.take(s.len() as int) =~= s);
}

/// A magnitude splits at the least-significant block.
pub proof fn lemma_mag_first(s: Seq<u64>)
    requires
        s.len() >= 1,
    ensures
        mag(s) == s[0] + radix() * mag(s.skip(1)),
    decreases s.len(),
{
    if s.len() == 1 {
        assert(s.drop_last() =~= Seq::<u64>::empty());
        assert(s.skip(1) =~= Seq::<u64>::empty());
        lemma_pow0(radix());
    } else {
        let n = (s.len() - 2) as nat;
        lemma_mag_first(s.drop_last());
        assert(s.drop_last().skip(1) =~= s.skip(1).drop_last());
        assert(s.skip(1).last() == s.last());
        assert(s.skip(1).len() == s.len() - 1);
        lemma_block_weight_succ(n);
        assert(radix() * (mag(s.skip(1).drop_last()) + s.last() * block_weight(n)) == radix()
            * mag(s.skip(1).drop_last()) + s.last() * (radix() * block_weight(n)))
            by (nonlinear_arith)
        ;
    }
}

/// Equally long well-formed block sequences with the same magnitude are the
/// same sequence: each block is forced in turn from the top.
pub proof fn lemma_mag_eq_len(a: Seq<u64>, b: Seq<u64>)
    requires
        blocks_ok(a),
        blocks_ok(b),
        a.len() == b.len(),
        mag(a) == mag(b),
    ensures
        a =~= b,
    decreases a.len(),
{
    if a.len() > 0 {
        let n = (a.len() - 1) as nat;
        assert(blocks_ok(a.drop_last()));
        assert(blocks_ok(b.drop_last()));
        lemma_mag_bound(a.drop_last());
        lemma_mag_bound(b.drop_last());
        lemma_mag_nonneg(a.drop_last());
        lemma_mag_nonneg(b.drop_last());
        assert(a.last() == b.last() && mag(a.drop_last()) == mag(b.drop_last()))
            by (nonlinear_arith)
            requires
                mag(a.drop_last()) + a.last() * block_weight(n) == mag(b.drop_last()) + b.last()
                    * block_weight(n),
                0 <= mag(a.drop_last()) < block_weight(n),
                0 <= mag(b.drop_last()) < block_weight(n),
        ;
        lemma_mag_eq_len(a.drop_last(), b.drop_last());
        assert(a =~= a.drop_last().push(a.last()));
        assert(b =~= b.drop_last().push(b.last()));
    }
}

/// Of two canonical well-formed sequences, the shorter denotes the smaller
/// magnitude.
pub proof fn lemma_mag_shorter(a: Seq<u64>, b: Seq<u64>)
    requires
        blocks_ok(a),
        blocks_ok(b),
        canonical(a),
        canonical(b),
        a.len() < b.len(),
    ensures
        mag(a) < mag(b),
{
    lemma_mag_bound(a);
    lemma_mag_lower(b);
    lemma_block_weight_increases(a.len(), (b.len() - 1) as nat);
}

/// The canonical representation of a magnitude is unique.
pub proof fn lemma_mag_unique(a: Seq<u64>, b: Seq<u64>)
    requires
        blocks_ok(a),
        blocks_ok(b),
        canonical(a),
        canonical(b),
        mag(a) == mag(b),
    ensures
        a =~= b,
{
    if a.len() < b.len() {
        lemma_mag_shorter(a, b);
    } else if b.len() < a.len() {
        lemma_mag_shorter(b, a);
    } else {
        lemma_mag_eq_len(a, b);
    }
}

/// Canonicalization yields a canonical sequence.
pub proof fn lemma_canon_canonical(s: Seq<u64>)
    ensures
        canonical(canon(s)),
    decreases s.len(),
{
    if s.len() > 1 && s.last() == 0 {
        lemma_canon_canonical(s.drop_last());
    }
}

/// Canonicalization keeps the magnitude.
pub proof fn lemma_canon_mag(s: Seq<u64>)
    ensures
        mag(canon(s)) == mag(s),
    decreases s.len(),
{
    if s.len() == 0 {
        lemma_mag_single(0u64);
    } else if s.len() > 1 && s.last() == 0 {
        lemma_canon_mag(s.drop_last());
    }
}

/// Canonicalization keeps blocks well formed.
pub proof fn lemma_canon_blocks_ok(s: Seq<u64>)
    requires
        blocks_ok(s),
    ensures
        blocks_ok(canon(s)),
    decreases s.len(),
{
    if s.len() == 0 {
    } else if s.len() > 1 && s.last() == 0 {
        assert(blocks_ok(s.drop_last()));
        lemma_canon_blocks_ok(s.drop_last());
    }
}

/// Canonicalizing an already-canonical sequence changes nothing.
pub proof fn lemma_canon_id(s: Seq<u64>)
    requires
        canonical(s),
    ensures
        canon(s) == s,
{
}

/// Canonicalizing an all-zero sequence of any length yields the single
/// zero block.
pub proof fn lemma_canon_all_zero(s: Seq<u64>)
    requires
        forall|i: int| 0 <= i < s.len() ==> s[i] == 0,
    ensures
        canon(s) =~= seq![0u64],
    decreases s.len(),
{
    if s.len() == 0 {
    } else if s.len() == 1 {
        assert(s =~= seq![0u64]);
    } else {
        lemma_canon_all_zero(s.drop_last());
    }
}

/// A canonical sequence denotes zero exactly when it is the single zero
/// block.
pub proof fn lemma_mag_zero(s: Seq<u64>)
    requires
        canonical(s),
    ensures
        mag(s) == 0 <==> s =~= seq![0u64],
{
    if s.len() == 1 {
        lemma_mag_single(s[0]);
        assert(s =~= seq![s[0]]);
        if s[0] == 0 {
            assert(s =~= seq![0u64]);
        } else {
            assert(seq![s[0]][0] != seq![0u64][0]);
        }
    } else {
        lemma_mag_lower(s);
        lemma_block_weight_pos((s.len() - 1) as nat);
    }
}

/// On equally long well-formed sequences, lexicographic comparison from the
/// top is the order of the magnitudes.
pub proof fn lemma_lex_cmp_from_top(a: Seq<u64>, b: Seq<u64>)
    requires
        blocks_ok(a),
        blocks_ok(b),
        a.len() == b.len(),
    ensures
        lex_cmp_from_top(a, b) == core::cmp::Ordering::Less <==> mag(a) < mag(b),
        lex_cmp_from_top(a, b) == core::cmp::Ordering::Equal <==> mag(a) == mag(b),
        lex_cmp_from_top(a, b) == core::cmp::Ordering::Greater <==> mag(a) > mag(b),
    decreases a.len(),
{
    if a.len() == 0 {
    } else {
        let n = (a.len() - 1) as nat;
        assert(blocks_ok(a.drop_last()));
        assert(blocks_ok(b.drop_last()));
        lemma_mag_bound(a.drop_last());
        lemma_mag_bound(b.drop_last());
        lemma_mag_nonneg(a.drop_last());
        lemma_mag_nonneg(b.drop_last());
        if a.last() != b.last() {
            let (lo, hi) = if a.last() < b.last() {
                (a, b)
            } else {
                (b, a)
            };
            assert(mag(lo.drop_last()) + lo.last() * block_weight(n) < mag(hi.drop_last())
                + hi.last() * block_weight(n)) by (nonlinear_arith)
                requires
                    lo.last() + 1 <= hi.last(),
                    0 <= mag(lo.drop_last()) < block_weight(n),
                    0 <= mag(hi.drop_last()) < block_weight(n),
            ;
        } else {
            lemma_lex_cmp_from_top(a.drop_last(), b.drop_last());
        }
    }
}

/// On canonical well-formed sequences, `mag_cmp` is the order of the
/// magnitudes.
pub proof fn lemma_mag_cmp(a: Seq<u64>, b: Seq<u64>)
    requires
        blocks_ok(a),
        blocks_ok(b),
        canonical(a),
        canonical(b),
    ensures
        mag_cmp(a, b) == core::cmp::Ordering::Less <==> mag(a) < mag(b),
        mag_cmp(a, b) == core::cmp::Ordering::Equal <==> mag(a) == mag(b),
        mag_cmp(a, b) == core::cmp::Ordering::Greater <==> mag(a) > mag(b),
{
    if a.len() < b.len() {
        lemma_mag_shorter(a, b);
    } else if b.len() < a.len() {
        lemma_mag_shorter(b, a);
    } else {
        lemma_lex_cmp_from_top(a, b);
    }
}

} // verus!
