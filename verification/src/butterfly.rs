//! Index schedule of the radix-2 decimation butterfly transform.
//!
//! The transform runs `log2(size)` stages; at each stage the indices are
//! partitioned into blocks of `2 * stage` entries, and within a block each
//! offset `j` below `stage` pairs `idx1 = block + j` with
//! `idx2 = idx1 + stage` under the twiddle angle `-2*pi*j / (2*stage)`.
//! `butterfly_plan` computes that exact pairing sequence with every index
//! proven in bounds; the caller applies the complex arithmetic of each
//! step to its sample buffers in schedule order. The buffer length must be
//! a power of two, or the pairing would run out of bounds — a caller
//! contract, expressed here as a precondition.

use vstd::prelude::*;
use vstd::arithmetic::div_mod::lemma_fundamental_div_mod;
use vstd::arithmetic::mul::lemma_mul_inequality;
use vstd::arithmetic::mul::lemma_mul_is_commutative;
use vstd::arithmetic::mul::lemma_mul_strict_inequality_converse;
use vstd::arithmetic::mul::lemma_mul_is_distributive_add;

verus! {

/// One butterfly update: combine the samples at `idx1` and `idx2` under
/// the twiddle angle `-2*pi*twiddle_index / (2*stage)`.
#[derive(Clone, Copy, PartialEq, Eq, Structural, Debug)]
pub struct ButterflyStep {
    pub stage: usize,
    pub idx1: usize,
    pub idx2: usize,
    pub twiddle_index: usize,
}

/// `n` is a power of two.
pub open spec fn is_power_of_two(n: int) -> bool
    decreases n,
{
    if n <= 0 {
        false
    } else if n == 1 {
        true
    } else {
        n % 2 == 0 && is_power_of_two(n / 2)
    }
}

/// A step is well formed for a buffer of the given size: its half-block
/// `stage` fits twice into the buffer, its two indices sit `stage` apart
/// inside the buffer, and its twiddle offset lies below `stage`.
pub open spec fn step_ok(s: ButterflyStep, size: int) -> bool {
    &&& 1 <= s.stage
    &&& 2 * (s.stage as int) <= size
    &&& s.idx2 == s.idx1 + s.stage
    &&& (s.idx2 as int) < size
    &&& s.twiddle_index < s.stage
}

/// The steps of one block, from offset `j` up to `stage`.
pub open spec fn steps_in_block(stage: int, bstart: int, j: int) -> Seq<ButterflyStep>
    decreases stage - j,
{
    if j < 0 || j >= stage {
        Seq::empty()
    } else {
        seq![
            ButterflyStep {
                stage: stage as usize,
                idx1: (bstart + j) as usize,
                idx2: (bstart + j + stage) as usize,
                twiddle_index: j as usize,
            },
        ] + steps_in_block(stage, bstart, j + 1)
    }
}

/// The steps of one stage, over the blocks from `bstart` on.
pub open spec fn steps_in_stage(size: int, stage: int, bstart: int) -> Seq<ButterflyStep>
    decreases (if bstart < size { size - bstart } else { 0 }),
{
    if stage < 1 || bstart < 0 || bstart >= size {
        Seq::empty()
    } else {
        steps_in_block(stage, bstart, 0) + steps_in_stage(size, stage, bstart + 2 * stage)
    }
}

/// The steps of all stages from `stage` up to `size`, each stage doubling
/// the half-block.
pub open spec fn plan_from(size: int, stage: int) -> Seq<ButterflyStep>
    decreases (if stage < size { size - stage } else { 0 }),
{
    if stage < 1 || stage >= size {
        Seq::empty()
    } else {
        steps_in_stage(size, stage, 0) + plan_from(size, 2 * stage)
    }
}

/// The full butterfly schedule for a buffer of `size` samples.
pub open spec fn butterfly_plan_spec(size: int) -> Seq<ButterflyStep> {
    plan_from(size, 1)
}

/// A power of two strictly above another even divides its double.
proof fn lemma_pow2_double_divides(a: int, b: int)
    requires
        is_power_of_two(a),
        is_power_of_two(b),
        a < b,
    ensures
        2 * a <= b,
        b % (2 * a) == 0,
    decreases a,
{
    if a == 1 {
        assert(b >= 2);
        assert(b % 2 == 0);
    } else {
        assert(a >= 2 && a % 2 == 0);
        assert(b >= 2 && b % 2 == 0);
        lemma_pow2_double_divides(a / 2, b / 2);
        let m = (b / 2) / a;
        lemma_fundamental_div_mod(b / 2, a);
        assert(b / 2 == a * m + (b / 2) % a);
        assert(b / 2 == a * m);
        assert(b == (2 * a) * m) by (nonlinear_arith)
            requires
                b / 2 == a * m,
                b % 2 == 0,
                b == 2 * (b / 2) + b % 2;
        lemma_mul_is_commutative(2 * a, m);
        vstd::arithmetic::div_mod::lemma_mod_multiples_basic(m, 2 * a);
        assert(b % (2 * a) == 0);
    }
}

/// Between two multiples of `d` there is room for a whole `d`.
proof fn lemma_multiple_step(d: int, a: int, b: int)
    requires
        d > 0,
        0 <= a < b,
        a % d == 0,
        b % d == 0,
    ensures
        a + d <= b,
{
    lemma_fundamental_div_mod(a, d);
    lemma_fundamental_div_mod(b, d);
    let p = a / d;
    let q = b / d;
    assert(d * p < d * q);
    lemma_mul_is_commutative(d, p);
    lemma_mul_is_commutative(d, q);
    assert(p * d < q * d);
    lemma_mul_strict_inequality_converse(p, q, d);
    assert(p + 1 <= q);
    lemma_mul_inequality(p + 1, q, d);
    lemma_mul_is_commutative(p + 1, d);
    lemma_mul_is_commutative(q, d);
    lemma_mul_is_distributive_add(d, p, 1);
    assert(d * p + d * 1 <= d * q);
}

/// Computes the butterfly schedule for `size` samples: exactly
/// `butterfly_plan_spec(size)`, every step well formed. A one-sample
/// buffer needs no stage at all, so its schedule is empty and the
/// transform leaves the buffer unchanged.
#[verifier::loop_isolation(false)]
#[verifier::rlimit(60)]
pub fn butterfly_plan(size: usize) -> (r: Vec<ButterflyStep>)
    requires
        is_power_of_two(size as int),
    ensures
        r@ == butterfly_plan_spec(size as int),
        forall|p: int| 0 <= p < r@.len() ==> step_ok(#[trigger] r@[p], size as int),
        size == 1 ==> r@.len() == 0,
{
    let mut r: Vec<ButterflyStep> = Vec::new();
    let mut stage: usize = 1;
    while stage < size
        invariant
            1 <= stage,
            is_power_of_two(stage as int),
            butterfly_plan_spec(size as int) =~= r@ + plan_from(size as int, stage as int),
            forall|p: int| 0 <= p < r@.len() ==> step_ok(#[trigger] r@[p], size as int),
        decreases size - stage,
    {
        proof {
            lemma_pow2_double_divides(stage as int, size as int);
        }
        let double = 2 * stage;
        let mut bstart: usize = 0;
        proof {
            assert(plan_from(size as int, stage as int) =~= steps_in_stage(size as int,
                stage as int, 0) + plan_from(size as int, 2 * stage as int));
        }
        while bstart < size
            invariant
                bstart % double == 0,
                butterfly_plan_spec(size as int) =~= r@ + steps_in_stage(size as int,
                    stage as int, bstart as int) + plan_from(size as int, 2 * stage as int),
                forall|p: int| 0 <= p < r@.len() ==> step_ok(#[trigger] r@[p], size as int),
            decreases size - bstart,
        {
            proof {
                lemma_multiple_step(double as int, bstart as int, size as int);
                assert(steps_in_stage(size as int, stage as int, bstart as int)
                    =~= steps_in_block(stage as int, bstart as int, 0) + steps_in_stage(
                    size as int, stage as int, bstart as int + 2 * stage as int));
            }
            let mut j: usize = 0;
            while j < stage
                invariant
                    j <= stage,
                    bstart + double <= size,
                    butterfly_plan_spec(size as int) =~= r@ + steps_in_block(stage as int,
                        bstart as int, j as int) + steps_in_stage(size as int, stage as int,
                        bstart as int + 2 * stage as int) + plan_from(size as int, 2
                        * stage as int),
                    forall|p: int| 0 <= p < r@.len() ==> step_ok(#[trigger] r@[p], size as int),
                decreases stage - j,
            {
                let step = ButterflyStep {
                    stage,
                    idx1: bstart + j,
                    idx2: bstart + j + stage,
                    twiddle_index: j,
                };
                let ghost rprev = r@;
                r.push(step);
                proof {
                    assert(steps_in_block(stage as int, bstart as int, j as int)
                        =~= seq![step] + steps_in_block(stage as int, bstart as int,
                        j as int + 1));
                    assert(rprev + steps_in_block(stage as int, bstart as int, j as int)
                        =~= r@ + steps_in_block(stage as int, bstart as int, j as int + 1));
                }
                j = j + 1;
            }
            bstart = bstart + double;
            proof {
                assert(bstart % double == 0) by (nonlinear_arith)
                    requires
                        double > 0,
                        (bstart - double) % (double as int) == 0,
                        bstart == (bstart - double) + double;
            }
        }
        proof {
            assert(steps_in_stage(size as int, stage as int, bstart as int) =~= Seq::empty());
        }
        stage = double;
    }
    proof {
        assert(plan_from(size as int, stage as int) =~= Seq::empty());
        assert(r@ + Seq::<ButterflyStep>::empty() =~= r@);
        if size == 1 {
            assert(butterfly_plan_spec(1) =~= Seq::empty());
        }
    }
    r
}

/// Reports whether `n` is a power of two, the shape a butterfly buffer
/// must have.
#[verifier::loop_isolation(false)]
pub fn is_pow2(n: usize) -> (b: bool)
    ensures
        b == is_power_of_two(n as int),
{
    if n == 0 {
        return false;
    }
    let mut m: usize = n;
    while m % 2 == 0
        invariant
            1 <= m,
            is_power_of_two(n as int) == is_power_of_two(m as int),
        decreases m,
    {
        m = m / 2;
    }
    m == 1
}

} // verus!
