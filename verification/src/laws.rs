//! The laws the library obeys, stated over the model and proved once and
//! for all: lossless round-trips, the algebra of addition and subtraction,
//! and the total order the comparisons implement.

use crate::bigint::{lemma_value_determines_repr, struct_cmp, BIGINT};
use crate::lemmas::{
    lemma_dec_digits, lemma_dec_digits_of_value, lemma_digits_value_bound, lemma_mag_nonneg,
    lemma_strip_zeros,
};
use crate::specs::{
    digits_value, literal_of, literal_value, mag, strip_literal, strip_zeros, valid_literal,
};
use core::cmp::Ordering;
use vstd::prelude::*;

verus! {

/// Round-trip: rendering the value of a well-formed decimal literal gives
/// the literal back, with leading zeros stripped and the sign of zero
/// normalized to absent. Since `new` produces the value of the literal and
/// `to_string` renders `literal_of` the value, parsing then rendering is
/// lossless.
pub proof fn lemma_round_trip(s: Seq<char>)
    requires
        valid_literal(s),
    ensures
        literal_of(literal_value(s)) == strip_literal(s),
{
    if s[0] == '-' {
        let d = s.skip(1);
        lemma_digits_value_bound(d);
        lemma_strip_zeros(d);
        if digits_value(d) == 0 {
            lemma_dec_digits(0);
        } else {
            lemma_dec_digits_of_value(strip_zeros(d));
        }
    } else {
        lemma_digits_value_bound(s);
        lemma_strip_zeros(s);
        lemma_dec_digits_of_value(strip_zeros(s));
    }
}

/// Commutativity of addition: the sums of two operands taken in either
/// order are the same value, hence the same sign and the same blocks.
pub proof fn lemma_add_commutative(x: &BIGINT, y: &BIGINT, xy: &BIGINT, yx: &BIGINT)
    requires
        x.wf(),
        y.wf(),
        xy.wf(),
        xy.value() == x.value() + y.value(),
        yx.wf(),
        yx.value() == y.value() + x.value(),
    ensures
        xy.sgn() == yx.sgn(),
        xy.blocks() == yx.blocks(),
{
    lemma_value_determines_repr(xy, yx);
}

/// Associativity of addition: summing three operands in either grouping
/// gives the same value, hence the same sign and the same blocks.
pub proof fn lemma_add_associative(
    x: &BIGINT,
    y: &BIGINT,
    z: &BIGINT,
    xy: &BIGINT,
    xy_z: &BIGINT,
    yz: &BIGINT,
    x_yz: &BIGINT,
)
    requires
        x.wf(),
        y.wf(),
        z.wf(),
        xy.wf(),
        xy.value() == x.value() + y.value(),
        xy_z.wf(),
        xy_z.value() == xy.value() + z.value(),
        yz.wf(),
        yz.value() == y.value() + z.value(),
        x_yz.wf(),
        x_yz.value() == x.value() + yz.value(),
    ensures
        xy_z.sgn() == x_yz.sgn(),
        xy_z.blocks() == x_yz.blocks(),
{
    lemma_value_determines_repr(xy_z, x_yz);
}

/// Identity: adding a zero value to any value, of either sign, gives the
/// value back unchanged, sign and blocks alike.
pub proof fn lemma_add_identity(x: &BIGINT, zero: &BIGINT, r: &BIGINT)
    requires
        x.wf(),
        zero.wf(),
        zero.value() == 0,
        r.wf(),
        r.value() == x.value() + zero.value(),
    ensures
        r.sgn() == x.sgn(),
        r.blocks() == x.blocks(),
{
    lemma_value_determines_repr(r, x);
}

/// Inverse: subtracting any value from itself gives zero, which renders
/// as the single digit 0.
pub proof fn lemma_subtract_self(x: &BIGINT, r: &BIGINT)
    requires
        x.wf(),
        r.wf(),
        r.value() == x.value() - x.value(),
    ensures
        r.value() == 0,
        literal_of(r.value()) == seq!['0'],
{
    crate::lemmas::lemma_dec_digits(0);
}

/// Negation cancels: adding a value to its negation gives zero, which
/// renders as the single digit 0.
pub proof fn lemma_add_negate(x: &BIGINT, nx: &BIGINT, r: &BIGINT)
    requires
        x.wf(),
        nx.wf(),
        nx.value() == -x.value(),
        r.wf(),
        r.value() == x.value() + nx.value(),
    ensures
        r.value() == 0,
        literal_of(r.value()) == seq!['0'],
{
    crate::lemmas::lemma_dec_digits(0);
}

/// Subtraction is addition of the negation: the two results are the same
/// value, hence the same sign and the same blocks.
pub proof fn lemma_subtract_is_add_negate(
    a: &BIGINT,
    b: &BIGINT,
    nb: &BIGINT,
    diff: &BIGINT,
    summed: &BIGINT,
)
    requires
        a.wf(),
        b.wf(),
        nb.wf(),
        nb.value() == -b.value(),
        diff.wf(),
        diff.value() == a.value() - b.value(),
        summed.wf(),
        summed.value() == a.value() + nb.value(),
    ensures
        diff.sgn() == summed.sgn(),
        diff.blocks() == summed.blocks(),
{
    lemma_value_determines_repr(diff, summed);
}

/// The order is consistent with magnitude: every negative value sits below
/// every non-negative one; two non-negative values order by magnitude; two
/// negative values order by magnitude reversed.
pub proof fn lemma_order_consistent_with_magnitude(a: &BIGINT, b: &BIGINT)
    requires
        a.wf(),
        b.wf(),
    ensures
        a.sgn() && !b.sgn() ==> a.value() < b.value(),
        !a.sgn() && !b.sgn() ==> (a.value() < b.value() <==> mag(a.blocks()) < mag(b.blocks())),
        a.sgn() && b.sgn() ==> (a.value() < b.value() <==> mag(a.blocks()) > mag(b.blocks())),
{
    lemma_mag_nonneg(a.blocks());
    lemma_mag_nonneg(b.blocks());
}

/// The comparison the sort relies on is a total order: `struct_cmp`, the
/// spec of `partial_cmp` and `compare`, is antisymmetric, transitive, and
/// agrees with equality of values.
pub proof fn lemma_order_total(a: &BIGINT, b: &BIGINT, c: &BIGINT)
    requires
        a.wf(),
        b.wf(),
        c.wf(),
    ensures
        struct_cmp(a, b) == Ordering::Equal <==> a.value() == b.value(),
        struct_cmp(a, b) == Ordering::Less <==> struct_cmp(b, a) == Ordering::Greater,
        struct_cmp(a, b) == Ordering::Less && struct_cmp(b, c) == Ordering::Less ==> struct_cmp(
            a,
            c,
        ) == Ordering::Less,
{
    crate::bigint::lemma_struct_cmp_matches_value(a, b);
    crate::bigint::lemma_struct_cmp_matches_value(b, a);
    crate::bigint::lemma_struct_cmp_matches_value(b, c);
    crate::bigint::lemma_struct_cmp_matches_value(a, c);
}

} // verus!
