//! The mathematical model: what a block sequence, a decimal literal and a
//! signed integer are worth as unbounded integers.

use crate::constants::BLOCK_DIVISION_FACTOR;
use vstd::arithmetic::power::pow;
use vstd::prelude::*;

verus! {

/// The numeric base of one block, as a mathematical integer.
pub open spec fn radix() -> int {
    BLOCK_DIVISION_FACTOR as int
}

/// Weight of the block at position `i` (least-significant block at 0).
pub open spec fn block_weight(i: nat) -> int {
    pow(radix(), i)
}

/// Every block is strictly below the block radix.
pub open spec fn blocks_ok(s: Seq<u64>) -> bool {
    forall|i: int| 0 <= i < s.len() ==> s[i] < BLOCK_DIVISION_FACTOR
}

/// The magnitude a block sequence denotes, least-significant block first.
pub open spec fn mag(s: Seq<u64>) -> int
    decreases s.len(),
{
    if s.len() == 0 {
        0
    } else {
        mag(s.drop_last()) + s.last() * block_weight((s.len() - 1) as nat)
    }
}

/// Canonical form: no redundant most-significant zero blocks, with zero
/// stored as the single zero block.
pub open spec fn canonical(s: Seq<u64>) -> bool {
    s.len() >= 1 && (s.len() > 1 ==> s.last() != 0)
}

/// Canonicalization at the specification level: truncate at the first
/// nonzero block from the most-significant end; an all-zero (or empty)
/// sequence collapses to the single zero block.
pub open spec fn canon(s: Seq<u64>) -> Seq<u64>
    decreases s.len(),
{
    if s.len() == 0 {
        seq![0u64]
    } else if s.len() == 1 {
        s
    } else if s.last() == 0 {
        canon(s.drop_last())
    } else {
        s
    }
}

/// The character for one decimal digit.
pub open spec fn digit_char(d: int) -> char {
    if d == 0 {
        '0'
    } else if d == 1 {
        '1'
    } else if d == 2 {
        '2'
    } else if d == 3 {
        '3'
    } else if d == 4 {
        '4'
    } else if d == 5 {
        '5'
    } else if d == 6 {
        '6'
    } else if d == 7 {
        '7'
    } else if d == 8 {
        '8'
    } else {
        '9'
    }
}

/// Whether a character is an ASCII decimal digit.
pub open spec fn is_digit(c: char) -> bool {
    c == '0' || c == '1' || c == '2' || c == '3' || c == '4' || c == '5' || c == '6' || c == '7'
        || c == '8' || c == '9'
}

/// The value of one decimal digit character.
pub open spec fn digit_val(c: char) -> int {
    if c == '0' {
        0
    } else if c == '1' {
        1
    } else if c == '2' {
        2
    } else if c == '3' {
        3
    } else if c == '4' {
        4
    } else if c == '5' {
        5
    } else if c == '6' {
        6
    } else if c == '7' {
        7
    } else if c == '8' {
        8
    } else {
        9
    }
}

/// Whether every character of a string is a decimal digit.
pub open spec fn all_digits(s: Seq<char>) -> bool {
    forall|i: int| 0 <= i < s.len() ==> is_digit(s[i])
}

/// The number a digit string denotes, most-significant digit first.
pub open spec fn digits_value(s: Seq<char>) -> int
    decreases s.len(),
{
    if s.len() == 0 {
        0
    } else {
        digits_value(s.drop_last()) * 10 + digit_val(s.last())
    }
}

/// A well-formed decimal literal: an optional leading minus, then at least
/// one digit and nothing else.
pub open spec fn valid_literal(s: Seq<char>) -> bool {
    if s.len() == 0 {
        false
    } else if s[0] == '-' {
        s.len() >= 2 && all_digits(s.skip(1))
    } else {
        all_digits(s)
    }
}

/// The integer a well-formed decimal literal denotes.
pub open spec fn literal_value(s: Seq<char>) -> int {
    if s.len() > 0 && s[0] == '-' {
        -digits_value(s.skip(1))
    } else {
        digits_value(s)
    }
}

/// The decimal digits of a non-negative number without leading zeros;
/// zero itself is the single digit 0.
pub open spec fn dec_digits(n: nat) -> Seq<char>
    decreases n,
{
    if n < 10 {
        seq![digit_char(n as int)]
    } else {
        dec_digits(n / 10).push(digit_char((n % 10) as int))
    }
}

/// A number rendered to exactly `w` decimal digits, zero-padded on the
/// left.
pub open spec fn padded_digits(n: nat, w: nat) -> Seq<char>
    recommends
        n < pow(10, w),
    decreases w,
{
    if w == 0 {
        Seq::empty()
    } else {
        padded_digits(n / 10, (w - 1) as nat).push(digit_char((n % 10) as int))
    }
}

/// The canonical decimal rendering of an integer: a minus sign for
/// negative values, no leading zeros, no sign on zero.
pub open spec fn literal_of(v: int) -> Seq<char> {
    if v < 0 {
        seq!['-'] + dec_digits((-v) as nat)
    } else {
        dec_digits(v as nat)
    }
}

/// A digit string with its leading zeros removed; a last zero stays.
pub open spec fn strip_zeros(s: Seq<char>) -> Seq<char>
    decreases s.len(),
{
    if s.len() <= 1 {
        s
    } else if s[0] == '0' {
        strip_zeros(s.skip(1))
    } else {
        s
    }
}

/// A literal with its leading zeros removed and the sign of zero
/// normalized to absent.
pub open spec fn strip_literal(s: Seq<char>) -> Seq<char> {
    if s.len() > 0 && s[0] == '-' {
        if digits_value(s.skip(1)) == 0 {
            seq!['0']
        } else {
            seq!['-'] + strip_zeros(s.skip(1))
        }
    } else {
        strip_zeros(s)
    }
}

/// Lexicographic comparison of two equally long block sequences, starting
/// from the most-significant block.
pub open spec fn lex_cmp_from_top(a: Seq<u64>, b: Seq<u64>) -> core::cmp::Ordering
    recommends
        a.len() == b.len(),
    decreases a.len(),
{
    if a.len() == 0 || b.len() == 0 {
        core::cmp::Ordering::Equal
    } else if a.last() < b.last() {
        core::cmp::Ordering::Less
    } else if a.last() > b.last() {
        core::cmp::Ordering::Greater
    } else {
        lex_cmp_from_top(a.drop_last(), b.drop_last())
    }
}

/// Order of two magnitudes as block sequences: a shorter sequence comes
/// first, equally long ones compare lexicographically from the top. On
/// canonical sequences this is the order of the magnitudes they denote.
pub open spec fn mag_cmp(a: Seq<u64>, b: Seq<u64>) -> core::cmp::Ordering {
    if a.len() < b.len() {
        core::cmp::Ordering::Less
    } else if a.len() > b.len() {
        core::cmp::Ordering::Greater
    } else {
        lex_cmp_from_top(a, b)
    }
}

} // verus!
