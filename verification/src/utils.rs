//! Helpers on the raw representations: canonicalizing a block vector and
//! parsing a digit string into blocks.

use crate::bigint::BigIntError;
use crate::constants::DIGITS_PER_BLOCK;
use crate::lemmas::{
    lemma_canon_all_zero, lemma_canon_blocks_ok, lemma_canon_canonical, lemma_canon_id,
    lemma_canon_mag, lemma_digits_value_concat, lemma_pow10_block,
};
use crate::specs::{
    all_digits, blocks_ok, canon, canonical, digit_val, digits_value, is_digit, mag, radix,
};
use vstd::arithmetic::power::{
    lemma_pow1, lemma_pow_adds, lemma_pow_increases, lemma_pow_multiplies, pow,
};
use vstd::prelude::*;

verus! {

/// The value of one decimal digit character, or nothing for any other
/// character.
fn parse_digit(c: char) -> (r: Option<u64>)
    ensures
        r is Some <==> is_digit(c),
        r matches Some(d) ==> d == digit_val(c),
{
    match c {
        '0' => Some(0),
        '1' => Some(1),
        '2' => Some(2),
        '3' => Some(3),
        '4' => Some(4),
        '5' => Some(5),
        '6' => Some(6),
        '7' => Some(7),
        '8' => Some(8),
        '9' => Some(9),
        _ => None,
    }
}

/// Parse a string of decimal digits into blocks, slicing fixed-size digit
/// groups from the least-significant end; the final, possibly shorter,
/// group holds the most-significant digits. An empty string or any
/// non-digit character is an invalid literal.
pub fn big_n_str_to_vec(n: &str) -> (r: Result<Vec<u64>, BigIntError>)
    ensures
        r is Ok <==> n@.len() > 0 && all_digits(n@),
        r matches Ok(v) ==> blocks_ok(v@) && v@.len() >= 1 && mag(v@) == digits_value(n@),
        r matches Err(e) ==> e == BigIntError::InvalidLiteral,
{
    let s_len = n.unicode_len();
    if s_len == 0 {
        return Err(BigIntError::InvalidLiteral);
    }
    let mut j: usize = s_len;
    let mut result: Vec<u64> = Vec::new();
    proof {
        assert(n@.subrange(s_len as int, s_len as int) =~= Seq::<char>::empty());
    }
    while j > 0
        invariant
            j <= s_len,
            s_len == n@.len(),
            j > 0 ==> result@.len() * DIGITS_PER_BLOCK == s_len - j,
            j < s_len ==> result@.len() >= 1,
            blocks_ok(result@),
            all_digits(n@.subrange(j as int, s_len as int)),
            mag(result@) == digits_value(n@.subrange(j as int, s_len as int)),
        decreases j,
    {
        let i: usize = if j >= DIGITS_PER_BLOCK {
            j - DIGITS_PER_BLOCK
        } else {
            0
        };
        let mut val: u64 = 0;
        let mut pos: usize = i;
        proof {
            assert(n@.subrange(i as int, i as int) =~= Seq::<char>::empty());
            vstd::arithmetic::power::lemma_pow0(10);
        }
        while pos < j
            invariant
                i <= pos <= j <= n@.len(),
                j - i <= DIGITS_PER_BLOCK,
                all_digits(n@.subrange(i as int, pos as int)),
                val == digits_value(n@.subrange(i as int, pos as int)),
                val < pow(10, (pos - i) as nat),
            decreases j - pos,
        {
            let c = n.get_char(pos);
            let d = match parse_digit(c) {
                Some(d) => d,
                None => {
                    proof {
                        assert(!is_digit(n@[pos as int]));
                    }
                    return Err(BigIntError::InvalidLiteral);
                },
            };
            proof {
                lemma_pow_increases(10, (pos - i) as nat, (DIGITS_PER_BLOCK - 1) as nat);
                lemma_pow_adds(10, (DIGITS_PER_BLOCK - 1) as nat, 1);
                lemma_pow_adds(10, (pos - i) as nat, 1);
                lemma_pow1(10);
                lemma_pow10_block();
                assert(n@.subrange(i as int, pos + 1).drop_last() =~= n@.subrange(
                    i as int,
                    pos as int,
                ));
            }
            val = val * 10 + d;
            pos = pos + 1;
        }
        let ghost k = result@.len();
        let ghost old_result = result@;
        proof {
            lemma_pow_increases(10, (j - i) as nat, DIGITS_PER_BLOCK as nat);
            lemma_pow10_block();
            assert(val < radix());
        }
        result.push(val);
        proof {
            let chunk = n@.subrange(i as int, j as int);
            let rest = n@.subrange(j as int, s_len as int);
            assert(n@.subrange(i as int, s_len as int) =~= chunk + rest);
            lemma_digits_value_concat(chunk, rest);
            lemma_pow_multiplies(10, DIGITS_PER_BLOCK as nat, k);
            assert(result@.drop_last() =~= old_result);
            assert(mag(result@) == digits_value(n@.subrange(i as int, s_len as int)));
        }
        j = i;
    }
    proof {
        assert(n@.subrange(0, s_len as int) =~= n@);
    }
    Ok(result)
}

/// Remove redundant most-significant zero blocks, collapsing an all-zero
/// (or empty) vector to the single zero block.
pub fn coalesce_vector(v: &Vec<u64>) -> (r: Vec<u64>)
    ensures
        r@ == canon(v@),
        canonical(r@),
        mag(r@) == mag(v@),
        blocks_ok(v@) ==> blocks_ok(r@),
        canonical(v@) ==> r@ == v@,
        (forall|i: int| 0 <= i < v@.len() ==> v@[i] == 0) ==> r@ == seq![0u64],
{
    proof {
        lemma_canon_canonical(v@);
        lemma_canon_mag(v@);
        if blocks_ok(v@) {
            lemma_canon_blocks_ok(v@);
        }
        if canonical(v@) {
            lemma_canon_id(v@);
        }
        if forall|i: int| 0 <= i < v@.len() ==> v@[i] == 0 {
            lemma_canon_all_zero(v@);
        }
    }
    let mut k: usize = v.len();
    proof {
        assert(v@.take(v@.len() as int) =~= v@);
    }
    while k > 1 && v[k - 1] == 0
        invariant
            k <= v@.len(),
            v@.len() > 0 ==> k >= 1,
            canon(v@.take(k as int)) == canon(v@),
        decreases k,
    {
        proof {
            assert(v@.take(k as int).drop_last() =~= v@.take(k - 1));
        }
        k = k - 1;
    }
    if k == 0 {
        let r: Vec<u64> = vec![0u64];
        proof {
            assert(v@.take(0) =~= Seq::<u64>::empty());
            assert(r@ =~= seq![0u64]);
        }
        return r;
    }
    proof {
        assert(canon(v@.take(k as int)) =~= v@.take(k as int));
    }
    let mut r: Vec<u64> = Vec::new();
    let mut t: usize = 0;
    while t < k
        invariant
            t <= k <= v@.len(),
            r@ == v@.take(t as int),
        decreases k - t,
    {
        r.push(v[t]);
        proof {
            assert(v@.take(t as int).push(v@[t as int]) =~= v@.take(t + 1));
        }
        t = t + 1;
    }
    r
}

} // verus!
