//! The signed arbitrary-precision integer: a sign flag paired with a
//! canonical magnitude, with sign-aware arithmetic, total ordering and
//! lossless decimal rendering.

use crate::constants::DIGITS_PER_BLOCK;
use crate::lemmas::{
    lemma_block_weight_pos, lemma_dec_digits_split, lemma_mag_cmp, lemma_mag_first,
    lemma_mag_lower, lemma_mag_nonneg, lemma_mag_single, lemma_mag_unique, lemma_mag_zero,
    lemma_pow10_block,
};
use crate::operation::{op_add, op_sub};
use crate::specs::{
    blocks_ok, canonical, dec_digits, digit_char, lex_cmp_from_top, literal_of, literal_value,
    mag, mag_cmp, padded_digits, valid_literal,
};
use crate::utils::{big_n_str_to_vec, coalesce_vector};
use core::cmp::Ordering;
use vstd::prelude::*;
use vstd::string::{StrSliceExecFns, StringExecFns};

verus! {

/// The one recoverable failure: a string that is not a well-formed
/// decimal literal.
#[derive(Clone, Copy, Debug, PartialEq, Eq, Structural)]
pub enum BigIntError {
    InvalidLiteral,
}

/// A signed integer of unbounded magnitude. The blocks are stored
/// least-significant first, always in canonical form, and zero always
/// carries a non-negative sign.
#[derive(Debug, Clone)]
pub struct BIGINT {
    signed: bool,
    repr: Vec<u64>,
}

impl BIGINT {
    /// The sign flag: true means negative.
    pub closed spec fn sgn(&self) -> bool {
        self.signed
    }

    /// The stored blocks, least-significant first.
    pub closed spec fn blocks(&self) -> Seq<u64> {
        self.repr@
    }

    /// Well-formed: the blocks are below the radix and canonical, and zero
    /// is never negative.
    pub open spec fn wf(&self) -> bool {
        &&& blocks_ok(self.blocks())
        &&& canonical(self.blocks())
        &&& mag(self.blocks()) == 0 ==> !self.sgn()
    }

    /// The integer this value denotes.
    pub open spec fn value(&self) -> int {
        if self.sgn() {
            -mag(self.blocks())
        } else {
            mag(self.blocks())
        }
    }

    /// Parse a decimal literal, optionally signed and optionally
    /// zero-padded, into a signed integer. An empty string, a bare sign,
    /// or any non-digit character is an invalid literal.
    pub fn new(n: &str) -> (r: Result<BIGINT, BigIntError>)
        ensures
            r is Ok <==> valid_literal(n@),
            r matches Ok(b) ==> b.wf() && b.value() == literal_value(n@),
            r matches Err(e) ==> e == BigIntError::InvalidLiteral,
    {
        let len = n.unicode_len();
        if len == 0 {
            return Err(BigIntError::InvalidLiteral);
        }
        match n.get_char(0) {
            '-' => {
                let rest = n.substring_char(1, len);
                proof {
                    assert(rest@ =~= n@.skip(1));
                }
                match big_n_str_to_vec(rest) {
                    Ok(repr) => Ok(BIGINT::from_repr(true, repr)),
                    Err(e) => Err(e),
                }
            },
            _ => {
                match big_n_str_to_vec(n) {
                    Ok(repr) => Ok(BIGINT::from_repr(false, repr)),
                    Err(e) => Err(e),
                }
            },
        }
    }

    /// Build a signed integer from a sign flag and a raw block vector:
    /// the blocks are canonicalized and a zero magnitude forces the sign
    /// to non-negative.
    pub fn from_repr(signed: bool, repr: Vec<u64>) -> (r: BIGINT)
        requires
            blocks_ok(repr@),
        ensures
            r.wf(),
            r.value() == if signed {
                -mag(repr@)
            } else {
                mag(repr@)
            },
    {
        let repr_c = coalesce_vector(&repr);
        let mut sign = signed;

        // handle negative zero
        if repr_c.len() == 1 && repr_c[0] == 0 {
            sign = false;
        }
        proof {
            lemma_mag_zero(repr_c@);
            if repr_c@.len() == 1 && repr_c@[0] == 0 {
                assert(repr_c@ =~= seq![0u64]);
            } else {
                assert(!(repr_c@ =~= seq![0u64]));
            }
        }
        BIGINT { signed: sign, repr: repr_c }
    }

    /// The sign flag: true means negative.
    pub fn get_sign(&self) -> (r: bool)
        ensures
            r == self.sgn(),
    {
        self.signed
    }

    /// The stored blocks, least-significant block first.
    pub fn get_repr(&self) -> (r: &Vec<u64>)
        ensures
            r@ == self.blocks(),
    {
        &self.repr
    }

    /// Flip the sign, leaving the magnitude untouched; a zero result keeps
    /// the non-negative sign.
    pub fn negate(self) -> (r: BIGINT)
        requires
            self.wf(),
        ensures
            r.wf(),
            r.value() == -self.value(),
    {
        let BIGINT { signed, repr } = self;
        let mut sign = !signed;

        // handle negative zero
        if repr.len() == 1 && repr[0] == 0 {
            sign = false;
        }
        proof {
            lemma_mag_zero(repr@);
            if repr@.len() == 1 && repr@[0] == 0 {
                assert(repr@ =~= seq![0u64]);
            } else {
                assert(!(repr@ =~= seq![0u64]));
            }
        }
        BIGINT { signed: sign, repr }
    }

    /// Sign-aware addition: same signs add the magnitudes and keep the
    /// common sign; different signs subtract the smaller magnitude from the
    /// larger and take the sign of the larger.
    pub fn add(&self, rhs: &BIGINT) -> (r: BIGINT)
        requires
            self.wf(),
            rhs.wf(),
        ensures
            r.wf(),
            r.value() == self.value() + rhs.value(),
    {
        match (self.signed, rhs.signed) {
            (false, false) => op_add(self, rhs),
            (false, true) => op_sub(self, rhs),
            (true, false) => op_sub(rhs, self),
            (true, true) => op_add(self, rhs).negate(),
        }
    }

    /// Sign-aware subtraction: subtracting is adding the negation.
    pub fn subtract(&self, rhs: &BIGINT) -> (r: BIGINT)
        requires
            self.wf(),
            rhs.wf(),
        ensures
            r.wf(),
            r.value() == self.value() - rhs.value(),
    {
        match (self.signed, rhs.signed) {
            (false, false) => op_sub(self, rhs),
            (false, true) => op_add(self, rhs),
            (true, false) => op_add(self, rhs).negate(),
            (true, true) => op_sub(rhs, self),
        }
    }

    /// The total order: negative values come first, ordered by decreasing
    /// magnitude, then non-negative values ordered by magnitude.
    pub fn compare(&self, other: &BIGINT) -> (r: Ordering)
        requires
            self.wf(),
            other.wf(),
        ensures
            r == Ordering::Less <==> self.value() < other.value(),
            r == Ordering::Equal <==> self.value() == other.value(),
            r == Ordering::Greater <==> self.value() > other.value(),
    {
        proof {
            lemma_mag_nonneg(self.blocks());
            lemma_mag_nonneg(other.blocks());
        }
        match (self.signed, other.signed) {
            (false, false) => self.compare_magnitude(other),
            (false, true) => Ordering::Greater,
            (true, false) => Ordering::Less,
            (true, true) => match self.compare_magnitude(other) {
                Ordering::Less => Ordering::Greater,
                Ordering::Equal => Ordering::Equal,
                Ordering::Greater => Ordering::Less,
            },
        }
    }

    /// Exact equality: the same integer, which by canonicality is the same
    /// sign and the same blocks.
    pub fn equals(&self, other: &BIGINT) -> (r: bool)
        requires
            self.wf(),
            other.wf(),
        ensures
            r <==> self.value() == other.value(),
    {
        proof {
            lemma_value_determines_repr(self, other);
        }
        self == other
    }

    /// Render the value as a decimal string: the sign if negative, the
    /// most-significant block without padding, then every remaining block
    /// zero-padded to the block width. The rendering is the canonical
    /// literal of the value, so it round-trips through `new` losslessly.
    pub fn to_string(&self) -> (r: String)
        requires
            self.wf(),
        ensures
            r@ == literal_of(self.value()),
    {
        let mut out = String::new();
        if self.signed {
            out.append("-");
        }
        let ghost sign_part: Seq<char> = if self.sgn() {
            seq!['-']
        } else {
            Seq::empty()
        };
        proof {
            reveal_strlit("-");
            assert(out@ =~= sign_part);
        }
        let k = self.repr.len();

        // the most-significant block needs no leading-zero padding
        push_u64_digits(&mut out, self.repr[k - 1]);
        proof {
            assert(self.blocks().subrange(k - 1, k as int) =~= seq![self.blocks()[k - 1]]);
            lemma_mag_single(self.blocks()[k - 1]);
        }

        // the remaining blocks, most- to least-significant, zero-padded
        let mut t: usize = k - 1;
        while t > 0
            invariant
                t <= k - 1,
                k == self.blocks().len(),
                self.wf(),
                sign_part == if self.sgn() {
                    seq!['-']
                } else {
                    Seq::<char>::empty()
                },
                out@ == sign_part + dec_digits(
                    mag(self.blocks().subrange(t as int, k as int)) as nat,
                ),
            decreases t,
        {
            t = t - 1;
            push_padded_digits(&mut out, self.repr[t], DIGITS_PER_BLOCK);
            proof {
                let s = self.blocks();
                let hi = mag(s.subrange(t + 1, k as int));
                let lo = s[t as int];
                assert(s.subrange(t as int, k as int)[0] == lo);
                assert(s.subrange(t as int, k as int).skip(1) =~= s.subrange(t + 1, k as int));
                lemma_mag_first(s.subrange(t as int, k as int));
                assert(s.subrange(t + 1, k as int).last() == s[k - 1]);
                lemma_mag_lower(s.subrange(t + 1, k as int));
                lemma_block_weight_pos((k - t - 2) as nat);
                lemma_pow10_block();
                lemma_mag_nonneg(s.subrange(t + 1, k as int));
                lemma_dec_digits_split(hi as nat, lo as nat, DIGITS_PER_BLOCK as nat);
                assert((hi as nat) * vstd::arithmetic::power::pow(10, DIGITS_PER_BLOCK as nat)
                    + (lo as nat) == mag(s.subrange(t as int, k as int))) by (nonlinear_arith)
                    requires
                        hi >= 1,
                        vstd::arithmetic::power::pow(10, DIGITS_PER_BLOCK as nat)
                            == crate::specs::radix(),
                        mag(s.subrange(t as int, k as int)) == lo + crate::specs::radix() * hi,
                ;
                assert((sign_part + dec_digits(hi as nat)) + padded_digits(
                    lo as nat,
                    DIGITS_PER_BLOCK as nat,
                ) =~= sign_part + (dec_digits(hi as nat) + padded_digits(
                    lo as nat,
                    DIGITS_PER_BLOCK as nat,
                )));
            }
        }
        proof {
            assert(self.blocks().subrange(0, k as int) =~= self.blocks());
            lemma_mag_nonneg(self.blocks());
            assert(out@ =~= literal_of(self.value()));
        }
        out
    }

    /// Shift every block left by `rhs` bits, block by block: bits shifted
    /// past the 64-bit block width are lost and no carry moves between
    /// blocks, so this scales the value by a power of two only while every
    /// shifted block stays below the radix.
    pub fn shl(&mut self, rhs: u64)
        requires
            rhs < 64,
        ensures
            final(self).sgn() == old(self).sgn(),
            final(self).blocks().len() == old(self).blocks().len(),
            forall|i: int|
                0 <= i < old(self).blocks().len() ==> final(self).blocks()[i] == old(
                    self,
                ).blocks()[i] << rhs,
    {
        let mut t: usize = 0;
        while t < self.repr.len()
            invariant
                t <= self.repr@.len(),
                rhs < 64,
                self.repr@.len() == old(self).blocks().len(),
                self.signed == old(self).sgn(),
                forall|i: int| 0 <= i < t ==> self.repr@[i] == old(self).blocks()[i] << rhs,
                forall|i: int| t <= i < self.repr@.len() ==> self.repr@[i] == old(self).blocks()[i],
            decreases self.repr@.len() - t,
        {
            let v = self.repr[t];
            self.repr.set(t, v << rhs);
            t = t + 1;
        }
    }

    /// Shift every block right by `rhs` bits, block by block: bits shifted
    /// out at the bottom of a block are lost and nothing moves between
    /// blocks, so this divides the value by a power of two only while every
    /// block is divisible by it.
    pub fn shr(&mut self, rhs: u64)
        requires
            rhs < 64,
        ensures
            final(self).sgn() == old(self).sgn(),
            final(self).blocks().len() == old(self).blocks().len(),
            forall|i: int|
                0 <= i < old(self).blocks().len() ==> final(self).blocks()[i] == old(
                    self,
                ).blocks()[i] >> rhs,
    {
        let mut t: usize = 0;
        while t < self.repr.len()
            invariant
                t <= self.repr@.len(),
                rhs < 64,
                self.repr@.len() == old(self).blocks().len(),
                self.signed == old(self).sgn(),
                forall|i: int| 0 <= i < t ==> self.repr@[i] == old(self).blocks()[i] >> rhs,
                forall|i: int| t <= i < self.repr@.len() ==> self.repr@[i] == old(self).blocks()[i],
            decreases self.repr@.len() - t,
        {
            let v = self.repr[t];
            self.repr.set(t, v >> rhs);
            t = t + 1;
        }
    }

    /// Compare the magnitudes of two canonical values, ignoring signs.
    pub fn compare_magnitude(&self, other: &Self) -> (r: Ordering)
        requires
            self.wf(),
            other.wf(),
        ensures
            r == Ordering::Less <==> mag(self.blocks()) < mag(other.blocks()),
            r == Ordering::Equal <==> mag(self.blocks()) == mag(other.blocks()),
            r == Ordering::Greater <==> mag(self.blocks()) > mag(other.blocks()),
    {
        proof {
            lemma_mag_cmp(self.blocks(), other.blocks());
        }
        mag_cmp_vec(&self.repr, &other.repr)
    }
}

/// Two well-formed values denote the same integer exactly when they agree
/// on sign and blocks: the canonical representation is unique.
pub proof fn lemma_value_determines_repr(a: &BIGINT, b: &BIGINT)
    requires
        a.wf(),
        b.wf(),
    ensures
        a.value() == b.value() <==> a.sgn() == b.sgn() && a.blocks() == b.blocks(),
{
    lemma_mag_nonneg(a.blocks());
    lemma_mag_nonneg(b.blocks());
    if a.value() == b.value() {
        if a.sgn() == b.sgn() {
            lemma_mag_unique(a.blocks(), b.blocks());
        }
        // with differing signs, equal values force both magnitudes to
        // zero, and a well-formed zero is never negative
    }
}

/// What `partial_cmp` computes, over sign and stored blocks alone. On
/// well-formed operands this is the order of the denoted integers.
pub open spec fn struct_cmp(a: &BIGINT, b: &BIGINT) -> Ordering {
    match (a.sgn(), b.sgn()) {
        (false, false) => mag_cmp(a.blocks(), b.blocks()),
        (false, true) => Ordering::Greater,
        (true, false) => Ordering::Less,
        (true, true) => match mag_cmp(a.blocks(), b.blocks()) {
            Ordering::Less => Ordering::Greater,
            Ordering::Equal => Ordering::Equal,
            Ordering::Greater => Ordering::Less,
        },
    }
}

/// On well-formed operands, `struct_cmp` is the order of the denoted
/// integers.
pub proof fn lemma_struct_cmp_matches_value(a: &BIGINT, b: &BIGINT)
    requires
        a.wf(),
        b.wf(),
    ensures
        struct_cmp(a, b) == Ordering::Less <==> a.value() < b.value(),
        struct_cmp(a, b) == Ordering::Equal <==> a.value() == b.value(),
        struct_cmp(a, b) == Ordering::Greater <==> a.value() > b.value(),
{
    lemma_mag_nonneg(a.blocks());
    lemma_mag_nonneg(b.blocks());
    lemma_mag_cmp(a.blocks(), b.blocks());
}

impl PartialEq for BIGINT {
    /// Field equality is exact equality of values: negative zero cannot
    /// occur, so the sign flags of equal values agree.
    fn eq(&self, other: &Self) -> (r: bool) {
        let sign_eq = self.signed == other.signed;
        let repr_eq = self.repr == other.repr;
        proof {
            if repr_eq {
                assert(self.repr@ =~= other.repr@);
            }
        }
        sign_eq && repr_eq
    }
}

impl Eq for BIGINT {}

impl vstd::std_specs::cmp::PartialEqSpecImpl for BIGINT {
    open spec fn obeys_eq_spec() -> bool {
        true
    }

    open spec fn eq_spec(&self, other: &Self) -> bool {
        self.sgn() == other.sgn() && self.blocks() == other.blocks()
    }
}

impl PartialOrd for BIGINT {
    /// The total order of the values, computed from sign and blocks; see
    /// `struct_cmp`.
    fn partial_cmp(&self, other: &Self) -> (r: Option<Ordering>) {
        let c = match (self.signed, other.signed) {
            (false, false) => mag_cmp_vec(&self.repr, &other.repr),
            (false, true) => Ordering::Greater,
            (true, false) => Ordering::Less,
            (true, true) => match mag_cmp_vec(&self.repr, &other.repr) {
                Ordering::Less => Ordering::Greater,
                Ordering::Equal => Ordering::Equal,
                Ordering::Greater => Ordering::Less,
            },
        };
        Some(c)
    }
}

impl vstd::std_specs::cmp::PartialOrdSpecImpl for BIGINT {
    open spec fn obeys_partial_cmp_spec() -> bool {
        true
    }

    open spec fn partial_cmp_spec(&self, other: &Self) -> Option<Ordering> {
        Some(struct_cmp(self, other))
    }
}

/// Append one decimal digit character.
fn push_digit(out: &mut String, d: u64)
    requires
        d < 10,
    ensures
        final(out)@ == old(out)@.push(digit_char(d as int)),
{
    match d {
        0 => {
            out.append("0");
            proof {
                reveal_strlit("0");
                assert(out@ =~= old(out)@.push(digit_char(d as int)));
            }
        },
        1 => {
            out.append("1");
            proof {
                reveal_strlit("1");
                assert(out@ =~= old(out)@.push(digit_char(d as int)));
            }
        },
        2 => {
            out.append("2");
            proof {
                reveal_strlit("2");
                assert(out@ =~= old(out)@.push(digit_char(d as int)));
            }
        },
        3 => {
            out.append("3");
            proof {
                reveal_strlit("3");
                assert(out@ =~= old(out)@.push(digit_char(d as int)));
            }
        },
        4 => {
            out.append("4");
            proof {
                reveal_strlit("4");
                assert(out@ =~= old(out)@.push(digit_char(d as int)));
            }
        },
        5 => {
            out.append("5");
            proof {
                reveal_strlit("5");
                assert(out@ =~= old(out)@.push(digit_char(d as int)));
            }
        },
        6 => {
            out.append("6");
            proof {
                reveal_strlit("6");
                assert(out@ =~= old(out)@.push(digit_char(d as int)));
            }
        },
        7 => {
            out.append("7");
            proof {
                reveal_strlit("7");
                assert(out@ =~= old(out)@.push(digit_char(d as int)));
            }
        },
        8 => {
            out.append("8");
            proof {
                reveal_strlit("8");
                assert(out@ =~= old(out)@.push(digit_char(d as int)));
            }
        },
        _ => {
            out.append("9");
            proof {
                reveal_strlit("9");
                assert(out@ =~= old(out)@.push(digit_char(d as int)));
            }
        },
    }
}

/// Append the decimal digits of one block, without leading zeros.
fn push_u64_digits(out: &mut String, n: u64)
    ensures
        final(out)@ == old(out)@ + dec_digits(n as nat),
    decreases n,
{
    if n < 10 {
        push_digit(out, n);
        proof {
            assert(old(out)@.push(digit_char(n as int)) =~= old(out)@ + dec_digits(n as nat));
        }
    } else {
        push_u64_digits(out, n / 10);
        push_digit(out, n % 10);
        proof {
            assert((old(out)@ + dec_digits((n / 10) as nat)).push(digit_char((n % 10) as int))
                =~= old(out)@ + dec_digits(n as nat));
        }
    }
}

/// Append exactly `w` decimal digits of a block, zero-padded on the left.
fn push_padded_digits(out: &mut String, n: u64, w: usize)
    ensures
        final(out)@ == old(out)@ + padded_digits(n as nat, w as nat),
    decreases w,
{
    if w == 0 {
        proof {
            assert(old(out)@ + padded_digits(n as nat, 0) =~= old(out)@);
        }
    } else {
        push_padded_digits(out, n / 10, w - 1);
        push_digit(out, n % 10);
        proof {
            assert((old(out)@ + padded_digits((n / 10) as nat, (w - 1) as nat)).push(
                digit_char((n % 10) as int),
            ) =~= old(out)@ + padded_digits(n as nat, w as nat));
        }
    }
}

/// Order two block vectors as magnitudes: by length, then lexicographically
/// from the most-significant block down.
fn mag_cmp_vec(a: &Vec<u64>, b: &Vec<u64>) -> (r: Ordering)
    ensures
        r == mag_cmp(a@, b@),
{
    if a.len() < b.len() {
        return Ordering::Less;
    }
    if a.len() > b.len() {
        return Ordering::Greater;
    }
    let mut t: usize = a.len();
    proof {
        assert(a@.take(t as int) =~= a@);
        assert(b@.take(t as int) =~= b@);
    }
    while t > 0
        invariant
            t <= a@.len(),
            a@.len() == b@.len(),
            lex_cmp_from_top(a@, b@) == lex_cmp_from_top(a@.take(t as int), b@.take(t as int)),
        decreases t,
    {
        if a[t - 1] < b[t - 1] {
            return Ordering::Less;
        }
        if a[t - 1] > b[t - 1] {
            return Ordering::Greater;
        }
        proof {
            assert(a@.take(t as int).drop_last() =~= a@.take(t - 1));
            assert(b@.take(t as int).drop_last() =~= b@.take(t - 1));
        }
        t = t - 1;
    }
    proof {
        assert(a@.take(0) =~= Seq::<u64>::empty());
        assert(b@.take(0) =~= Seq::<u64>::empty());
    }
    Ordering::Equal
}

} // verus!
