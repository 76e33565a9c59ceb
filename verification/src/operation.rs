//! The sign-agnostic arithmetic engine: carry-propagating addition and
//! borrow-propagating subtraction on magnitudes, and the signed wrappers
//! that dispatch on magnitude order.

use crate::bigint::BIGINT;
use crate::constants::BLOCK_DIVISION_FACTOR;
use crate::lemmas::{
    lemma_block_weight_succ, lemma_mag_bound, lemma_mag_nonneg, lemma_mag_shorter,
    lemma_mag_take_full, lemma_mag_take_succ,
};
use crate::specs::{block_weight, blocks_ok, mag, radix};
use core::cmp::Ordering;
use vstd::prelude::*;

verus! {

/// One block of addition: the sum of two blocks and an incoming carry,
/// split into a block and an outgoing carry.
pub fn op_adc_u64(a: u64, b: u64, carry: &mut u64) -> (r: u64)
    requires
        a < BLOCK_DIVISION_FACTOR,
        b < BLOCK_DIVISION_FACTOR,
        *old(carry) <= 1,
    ensures
        r < BLOCK_DIVISION_FACTOR,
        *final(carry) <= 1,
        a + b + *old(carry) == r + BLOCK_DIVISION_FACTOR * (*final(carry)),
{
    let res = a + b + *carry;
    *carry = res / BLOCK_DIVISION_FACTOR;
    res % BLOCK_DIVISION_FACTOR
}

/// One block of subtraction: a block minus a block and an incoming borrow,
/// wrapped around the radix when it underflows, with an outgoing borrow.
pub fn op_sbb_u64(a: u64, b: u64, borrow: &mut u64) -> (r: u64)
    requires
        a < BLOCK_DIVISION_FACTOR,
        b < BLOCK_DIVISION_FACTOR,
        *old(borrow) <= 1,
    ensures
        r < BLOCK_DIVISION_FACTOR,
        *final(borrow) <= 1,
        r == a - b - *old(borrow) + BLOCK_DIVISION_FACTOR * (*final(borrow)),
{
    if a < b + *borrow {
        let res = a + BLOCK_DIVISION_FACTOR - b - *borrow;
        *borrow = 1;
        res
    } else {
        let res = a - b - *borrow;
        *borrow = 0;
        res
    }
}

/// Block-wise addition of two magnitudes with carry propagation: aligned
/// pairs first, then the remaining carry is carried through the rest of the
/// longer operand, and a final carry becomes a new most-significant block.
pub fn op_add_magnitude(lhs: &Vec<u64>, rhs: &Vec<u64>) -> (r: Vec<u64>)
    requires
        blocks_ok(lhs@),
        blocks_ok(rhs@),
    ensures
        blocks_ok(r@),
        mag(r@) == mag(lhs@) + mag(rhs@),
        r@.len() <= 1 + if lhs@.len() > rhs@.len() {
            lhs@.len()
        } else {
            rhs@.len()
        },
        r@.len() >= lhs@.len(),
        r@.len() >= rhs@.len(),
{
    let i = lhs.len();
    let j = rhs.len();
    let k = if i < j {
        i
    } else {
        j
    };

    let mut result: Vec<u64> = Vec::new();
    let mut t: usize = 0;
    let mut cin: u64 = 0;

    while t < k
        invariant
            t <= k,
            k <= i,
            k <= j,
            i == lhs@.len(),
            j == rhs@.len(),
            blocks_ok(lhs@),
            blocks_ok(rhs@),
            result@.len() == t,
            blocks_ok(result@),
            cin <= 1,
            mag(result@) + cin * block_weight(t as nat) == mag(lhs@.take(t as int)) + mag(
                rhs@.take(t as int),
            ),
        decreases k - t,
    {
        let ghost result_old = result@;
        let ghost cin_old = cin;
        let block = op_adc_u64(lhs[t], rhs[t], &mut cin);
        result.push(block);
        proof {
            lemma_add_step(result_old, lhs@, rhs@, t as int, block, cin_old, cin, lhs@[t as int],
                rhs@[t as int]);
        }
        t = t + 1;
    }

    while t < i
        invariant
            k <= t <= i,
            k <= j,
            i == lhs@.len(),
            j == rhs@.len(),
            t < i ==> j <= t || t < k,
            t > k ==> j <= t,
            blocks_ok(lhs@),
            blocks_ok(rhs@),
            result@.len() == t,
            blocks_ok(result@),
            cin <= 1,
            mag(result@) + cin * block_weight(t as nat) == mag(lhs@.take(t as int)) + mag(
                rhs@.take(if t <= j { t as int } else { j as int }),
            ),
        decreases i - t,
    {
        let ghost result_old = result@;
        let ghost cin_old = cin;
        let block = op_adc_u64(lhs[t], 0, &mut cin);
        result.push(block);
        proof {
            lemma_add_step(result_old, lhs@, rhs@, t as int, block, cin_old, cin,
                lhs@[t as int], 0);
        }
        t = t + 1;
    }

    if t < j {
        while t < j
            invariant
                i <= t <= j,
                i == lhs@.len(),
                j == rhs@.len(),
                blocks_ok(lhs@),
                blocks_ok(rhs@),
                result@.len() == t,
                blocks_ok(result@),
                cin <= 1,
                mag(result@) + cin * block_weight(t as nat) == mag(rhs@.take(t as int)) + mag(
                    lhs@.take(if t <= i { t as int } else { i as int }),
                ),
            decreases j - t,
        {
            let ghost result_old = result@;
            let ghost cin_old = cin;
            let block = op_adc_u64(rhs[t], 0, &mut cin);
            result.push(block);
            proof {
                lemma_add_step(result_old, rhs@, lhs@, t as int, block, cin_old, cin,
                    rhs@[t as int], 0);
            }
            t = t + 1;
        }
    }

    proof {
        lemma_mag_take_full(lhs@);
        lemma_mag_take_full(rhs@);
        assert(mag(result@) + cin * block_weight(t as nat) == mag(lhs@) + mag(rhs@));
        if cin == 0 {
            assert(cin * block_weight(t as nat) == 0);
            assert(mag(result@) == mag(lhs@) + mag(rhs@));
        }
    }
    if cin > 0 {
        let ghost result_old = result@;
        result.push(cin);
        proof {
            assert(result@.drop_last() =~= result_old);
            assert(mag(result@) == mag(result_old) + cin * block_weight(result_old.len()));
            assert(mag(result@) == mag(lhs@) + mag(rhs@));
        }
    }
    result
}

/// Add two magnitudes, ignoring both signs; the result is non-negative.
pub fn op_add(lhs: &BIGINT, rhs: &BIGINT) -> (r: BIGINT)
    requires
        lhs.wf(),
        rhs.wf(),
    ensures
        r.wf(),
        r.value() == mag(lhs.blocks()) + mag(rhs.blocks()),
{
    let result: Vec<u64> = op_add_magnitude(lhs.get_repr(), rhs.get_repr());

    // since sign is not taken into account while adding,
    // the resulting sign is always positive
    BIGINT::from_repr(false, result)
}

/// Subtract the smaller magnitude from the larger, ignoring both signs;
/// the result carries the sign of the side that had to be negated for the
/// subtraction to stay within magnitudes.
pub fn op_sub(lhs: &BIGINT, rhs: &BIGINT) -> (r: BIGINT)
    requires
        lhs.wf(),
        rhs.wf(),
    ensures
        r.wf(),
        r.value() == mag(lhs.blocks()) - mag(rhs.blocks()),
{
    let (signed, a, b) = match lhs.compare_magnitude(rhs) {
        Ordering::Greater | Ordering::Equal => (false, lhs, rhs),
        Ordering::Less => (true, rhs, lhs),
    };
    proof {
        if a.blocks().len() < b.blocks().len() {
            lemma_mag_shorter(a.blocks(), b.blocks());
        }
    }
    let result = op_sub_magnitude(a.get_repr(), b.get_repr());
    BIGINT::from_repr(signed, result)
}

/// Block-wise subtraction of two magnitudes with borrow propagation,
/// assuming the subtrahend's magnitude does not exceed the minuend's:
/// aligned pairs first, then the remaining borrow is carried through the
/// rest of the minuend, where it must die out before the blocks do.
pub fn op_sub_magnitude(lhs: &Vec<u64>, rhs: &Vec<u64>) -> (r: Vec<u64>)
    requires
        blocks_ok(lhs@),
        blocks_ok(rhs@),
        rhs@.len() <= lhs@.len(),
        mag(rhs@) <= mag(lhs@),
    ensures
        blocks_ok(r@),
        r@.len() == lhs@.len(),
        mag(r@) == mag(lhs@) - mag(rhs@),
{
    let i = lhs.len();
    let j = rhs.len();

    let mut result: Vec<u64> = Vec::new();
    let mut t: usize = 0;
    let mut bout: u64 = 0;

    while t < j
        invariant
            t <= j <= i,
            i == lhs@.len(),
            j == rhs@.len(),
            blocks_ok(lhs@),
            blocks_ok(rhs@),
            result@.len() == t,
            blocks_ok(result@),
            bout <= 1,
            mag(result@) == mag(lhs@.take(t as int)) - mag(rhs@.take(t as int)) + bout
                * block_weight(t as nat),
        decreases j - t,
    {
        let ghost result_old = result@;
        let ghost bout_old = bout;
        let block = op_sbb_u64(lhs[t], rhs[t], &mut bout);
        result.push(block);
        proof {
            lemma_sub_step(result_old, lhs@, rhs@, t as int, block, bout_old, bout,
                lhs@[t as int], rhs@[t as int]);
        }
        t = t + 1;
    }

    while t < i
        invariant
            j <= t <= i,
            i == lhs@.len(),
            j == rhs@.len(),
            blocks_ok(lhs@),
            blocks_ok(rhs@),
            result@.len() == t,
            blocks_ok(result@),
            bout <= 1,
            mag(result@) == mag(lhs@.take(t as int)) - mag(rhs@.take(if t <= j {
                t as int
            } else {
                j as int
            })) + bout * block_weight(t as nat),
        decreases i - t,
    {
        let ghost result_old = result@;
        let ghost bout_old = bout;
        let block = op_sbb_u64(lhs[t], 0, &mut bout);
        result.push(block);
        proof {
            lemma_sub_step(result_old, lhs@, rhs@, t as int, block, bout_old, bout,
                lhs@[t as int], 0);
        }
        t = t + 1;
    }

    proof {
        lemma_mag_take_full(lhs@);
        lemma_mag_take_full(rhs@);
        if bout == 1 {
            lemma_mag_bound(result@);
            lemma_mag_nonneg(rhs@);
        }
        assert(bout == 0);
    }
    result
}

/// One step of the subtraction invariant: pushing the block produced by
/// `op_sbb_u64` moves the prefix difference one block forward.
proof fn lemma_sub_step(
    result_old: Seq<u64>,
    a: Seq<u64>,
    b: Seq<u64>,
    t: int,
    block: u64,
    bout_old: u64,
    bout_new: u64,
    a_t: u64,
    b_t: u64,
)
    requires
        0 <= t < a.len(),
        result_old.len() == t,
        a[t] == a_t,
        t < b.len() ==> b[t] == b_t,
        t >= b.len() ==> b_t == 0,
        block == a_t - b_t - bout_old + BLOCK_DIVISION_FACTOR * bout_new,
        mag(result_old) == mag(a.take(t)) - mag(
            b.take(if t <= b.len() { t } else { b.len() as int }),
        ) + bout_old * block_weight(t as nat),
    ensures
        mag(result_old.push(block)) == mag(a.take(t + 1)) - mag(
            b.take(if t + 1 <= b.len() { t + 1 } else { b.len() as int }),
        ) + bout_new * block_weight((t + 1) as nat),
{
    let bw = block_weight(t as nat);
    lemma_mag_take_succ(a, t);
    assert(result_old.push(block).drop_last() =~= result_old);
    assert(mag(result_old.push(block)) == mag(result_old) + block * bw);
    lemma_block_weight_succ(t as nat);
    if t < b.len() {
        lemma_mag_take_succ(b, t);
    }
    assert(block * bw == a_t * bw - b_t * bw - bout_old * bw + bout_new * (radix() * bw))
        by (nonlinear_arith)
        requires
            block == a_t - b_t - bout_old + radix() * bout_new,
    ;
}

/// One step of the addition invariant: pushing the block produced by
/// `op_adc_u64` moves the prefix sum one block forward.
proof fn lemma_add_step(
    result_old: Seq<u64>,
    a: Seq<u64>,
    b: Seq<u64>,
    t: int,
    block: u64,
    cin_old: u64,
    cin_new: u64,
    a_t: u64,
    b_t: u64,
)
    requires
        0 <= t < a.len(),
        result_old.len() == t,
        a[t] == a_t,
        t < b.len() ==> b[t] == b_t,
        t >= b.len() ==> b_t == 0,
        a_t + b_t + cin_old == block + BLOCK_DIVISION_FACTOR * cin_new,
        mag(result_old) + cin_old * block_weight(t as nat) == mag(a.take(t)) + mag(
            b.take(if t <= b.len() { t } else { b.len() as int }),
        ),
    ensures
        mag(result_old.push(block)) + cin_new * block_weight((t + 1) as nat) == mag(
            a.take(t + 1),
        ) + mag(b.take(if t + 1 <= b.len() { t + 1 } else { b.len() as int })),
{
    let bw = block_weight(t as nat);
    lemma_mag_take_succ(a, t);
    assert(result_old.push(block).drop_last() =~= result_old);
    assert(mag(result_old.push(block)) == mag(result_old) + block * bw);
    lemma_block_weight_succ(t as nat);
    if t < b.len() {
        lemma_mag_take_succ(b, t);
    }
    assert(block * bw + cin_new * (radix() * bw) == a_t * bw + b_t * bw + cin_old * bw)
        by (nonlinear_arith)
        requires
            a_t + b_t + cin_old == block + radix() * cin_new,
    ;
}

} // verus!
