//! Index arithmetic of the in-place radix-2 transform: powers of two, the
//! butterfly schedule of every stage and the bit-reversal permutation that
//! follows the last stage.
//!
//! The arithmetic on the samples is the caller's. A [`FftPlan`] tells it, for
//! a transform of a given length, which two entries each butterfly combines
//! and with which twiddle factor, and puts the result in its final order.

use vstd::arithmetic::div_mod::{
    lemma_div_pos_is_pos, lemma_fundamental_div_mod, lemma_fundamental_div_mod_converse,
    lemma_mod_pos_bound,
};
use vstd::arithmetic::power2::{
    lemma2_to64, lemma_pow2_adds, lemma_pow2_pos, lemma_pow2_strictly_increases, lemma_pow2_unfold,
    pow2 as exp2,
};
use vstd::bits::lemma_usize_shl_is_mul;
use vstd::prelude::*;

verus! {

/// Two to the power `x`.
pub fn pow2(x: usize) -> (y: usize)
    requires
        x < usize::BITS,
    ensures
        y == exp2(x as nat),
{
    proof {
        lemma2_to64();
    }
    if x == 0 {
        1
    } else {
        let shift: usize = x - 1;
        proof {
            lemma_pow2_unfold(x as nat);
            lemma_pow2_strictly_increases(x as nat, usize::BITS as nat);
            assert(2 * exp2(shift as nat) <= usize::MAX);
            lemma_usize_shl_is_mul(2, shift);
        }
        2 << shift
    }
}

/// Whether `n` is a power of two.
pub open spec fn is_power_of_two(n: nat) -> bool {
    exists|k: nat| n == #[trigger] exp2(k)
}

/// The powers of two grow.
proof fn lemma_exp2_grows(a: nat, b: nat)
    requires
        a <= b,
    ensures
        exp2(a) <= exp2(b),
{
    if a < b {
        lemma_pow2_strictly_increases(a, b);
    }
}

/// The number of stages of a transform of `sample` entries: the greatest `s`
/// with two to the power `s` at most `sample`; 0 for a `sample` of 0.
pub fn stage_count(sample: usize) -> (stages: usize)
    ensures
        stages < usize::BITS,
        sample == 0 ==> stages == 0,
        sample > 0 ==> exp2(stages as nat) <= sample < exp2(stages as nat + 1),
{
    let mut stages: usize = 0;
    let mut reach: usize = 1;
    proof {
        lemma2_to64();
    }
    while reach <= sample / 2
        invariant
            reach == exp2(stages as nat),
            reach > 0,
            stages < usize::BITS,
            sample > 0 ==> reach <= sample,
            sample == 0 ==> stages == 0,
        decreases sample - reach,
    {
        proof {
            lemma2_to64();
            lemma_pow2_unfold(stages as nat + 1);
            if stages + 1 >= usize::BITS {
                lemma_exp2_grows(usize::BITS as nat, stages as nat + 1);
            }
        }
        reach = 2 * reach;
        stages = stages + 1;
    }
    proof {
        lemma_pow2_unfold(stages as nat + 1);
    }
    stages
}

/// A power of two lies between no two powers of two that follow each other.
proof fn lemma_stage_count_exact(sample: nat, stages: nat)
    requires
        is_power_of_two(sample),
        exp2(stages) <= sample < exp2(stages + 1),
    ensures
        sample == exp2(stages),
{
    let k = choose|k: nat| sample == #[trigger] exp2(k);
    if k < stages {
        lemma_pow2_strictly_increases(k, stages);
    } else if k > stages {
        lemma_exp2_grows(stages + 1, k);
    }
}

/// Whether `n` is a power of two.
pub fn power_of_two(n: usize) -> (yes: bool)
    ensures
        yes == is_power_of_two(n as nat),
{
    if n == 0 {
        proof {
            assert forall|k: nat| 0 != #[trigger] exp2(k) by {
                lemma_pow2_pos(k);
            }
        }
        return false;
    }
    let stages = stage_count(n);
    let yes = pow2(stages) == n;
    proof {
        if is_power_of_two(n as nat) {
            lemma_stage_count_exact(n as nat, stages as nat);
        }
    }
    yes
}

/// One butterfly: the two entries that it combines, the exponent of its
/// twiddle factor, and whether the factor is applied.
///
/// With `a` the entry at `upper`, `b` the entry at `lower` and `w` the
/// `twiddle`-th power of the primitive root of unity of the transform, the
/// butterfly leaves `a + b` at `upper` and at `lower` `(a - b) * w` where
/// `rotate` holds, `a - b` where it does not.
#[derive(Clone, Copy, Debug, PartialEq, Eq, Structural)]
pub struct Butterfly {
    pub upper: usize,
    pub lower: usize,
    pub twiddle: usize,
    pub rotate: bool,
}

/// The butterfly of stage `stage` (counted from 1) of a transform of `stages`
/// stages that stands at place `offset` of block `block`. A stage has two to
/// the power `stage - 1` blocks; the butterflies of a block span half of it.
/// The last stage applies no twiddle factor.
pub open spec fn butterfly(stages: nat, stage: nat, block: nat, offset: nat) -> Butterfly {
    let span = exp2((stages - stage) as nat);
    Butterfly {
        upper: (2 * span * block + offset) as usize,
        lower: (2 * span * block + offset + span) as usize,
        twiddle: (exp2((stage - 1) as nat) * offset) as usize,
        rotate: stage < stages,
    }
}

/// The `k`-th butterfly of a transform of `stages` stages: stage after stage,
/// in a stage block after block, in a block place after place.
pub open spec fn scheduled(stages: nat, k: nat) -> Butterfly {
    let half = exp2((stages - 1) as nat);
    let stage = k / half + 1;
    let within = k % half;
    let span = exp2((stages - stage) as nat);
    butterfly(stages, stage, within / span, within % span)
}

/// All butterflies of a transform of `stages` stages, in order: half as many
/// as the transform has entries for each stage.
pub open spec fn schedule(stages: nat) -> Seq<Butterfly> {
    Seq::new(stages * exp2((stages - 1) as nat), |k: int| scheduled(stages, k as nat))
}

/// Where the place `offset` of block `block` of stage `stage` stands in the
/// schedule, and that its butterfly stays inside the transform.
proof fn lemma_slot(stages: nat, stage: nat, block: nat, offset: nat)
    requires
        1 <= stage <= stages,
        block < exp2((stage - 1) as nat),
        offset < exp2((stages - stage) as nat),
    ensures
        ({
            let half = exp2((stages - 1) as nat);
            let span = exp2((stages - stage) as nat);
            let within = block * span + offset;
            let k = (stage - 1) * half + within;
            &&& exp2((stage - 1) as nat) * span == half
            &&& 2 * half == exp2(stages)
            &&& within < half
            &&& k < stages * half
            &&& scheduled(stages, k as nat) == butterfly(stages, stage, block, offset)
            &&& 2 * span * block + offset + span < exp2(stages)
            &&& exp2((stage - 1) as nat) * offset < half
        }),
{
    let half = exp2((stages - 1) as nat) as int;
    let span = exp2((stages - stage) as nat) as int;
    let blocks = exp2((stage - 1) as nat) as int;
    let within = block * span + offset;
    let k = (stage - 1) * half + within;
    lemma_pow2_adds((stage - 1) as nat, (stages - stage) as nat);
    lemma_pow2_unfold(stages);
    lemma_pow2_pos((stages - 1) as nat);
    lemma_pow2_pos((stages - stage) as nat);
    assert(blocks * span == half);
    assert(within < half && 2 * span * block + offset + span < 2 * half && blocks * offset < half)
        by (nonlinear_arith)
        requires
            blocks * span == half,
            0 <= block < blocks,
            0 <= offset < span,
            within == block * span + offset,
    ;
    assert(k < stages * half) by (nonlinear_arith)
        requires
            k == (stage - 1) * half + within,
            within < half,
            1 <= stage <= stages,
            half > 0,
    ;
    lemma_fundamental_div_mod_converse(k, half, stage - 1, within);
    lemma_fundamental_div_mod_converse(within as int, span, block as int, offset as int);
}

/// The butterflies of a transform of `stages` stages.
fn build_schedule(stages: usize) -> (list: Vec<Butterfly>)
    requires
        stages < usize::BITS,
    ensures
        list@ == schedule(stages as nat),
{
    let mut list: Vec<Butterfly> = Vec::new();
    let ghost half = exp2((stages - 1) as nat);
    let mut stage: usize = 1;
    while stage <= stages
        invariant
            1 <= stage <= stages + 1,
            stages < usize::BITS,
            half == exp2((stages - 1) as nat),
            list.len() == (stage - 1) * half,
            forall|k: int| 0 <= k < list.len() ==> list@[k] == scheduled(stages as nat, k as nat),
        decreases stages + 1 - stage,
    {
        let blocks: usize = pow2(stage - 1);
        let span: usize = pow2(stages - stage);
        let mut block: usize = 0;
        while block < blocks
            invariant
                1 <= stage <= stages,
                stages < usize::BITS,
                half == exp2((stages - 1) as nat),
                blocks == exp2((stage - 1) as nat),
                span == exp2((stages - stage) as nat),
                block <= blocks,
                list.len() == (stage - 1) * half + block * span,
                forall|k: int|
                    0 <= k < list.len() ==> list@[k] == scheduled(stages as nat, k as nat),
            decreases blocks - block,
        {
            let mut offset: usize = 0;
            while offset < span
                invariant
                    1 <= stage <= stages,
                    stages < usize::BITS,
                    half == exp2((stages - 1) as nat),
                    blocks == exp2((stage - 1) as nat),
                    span == exp2((stages - stage) as nat),
                    block < blocks,
                    offset <= span,
                    list.len() == (stage - 1) * half + block * span + offset,
                    forall|k: int|
                        0 <= k < list.len() ==> list@[k] == scheduled(stages as nat, k as nat),
                decreases span - offset,
            {
                proof {
                    lemma_slot(stages as nat, stage as nat, block as nat, offset as nat);
                    lemma_pow2_strictly_increases(stages as nat, usize::BITS as nat);
                    lemma2_to64();
                    assert(2 * span * block >= 0 && 2 * span >= 0) by (nonlinear_arith)
                        requires
                            span >= 0,
                            block >= 0,
                    ;
                    assert(2 * span <= 2 * (blocks * span)) by (nonlinear_arith)
                        requires
                            span >= 0,
                            blocks >= 1,
                    ;
                    assert(blocks * offset >= 0) by (nonlinear_arith)
                        requires
                            blocks >= 0,
                            offset >= 0,
                    ;
                }
                let upper: usize = 2 * span * block + offset;
                let lower: usize = span + upper;
                let twiddle: usize = blocks * offset;
                list.push(Butterfly { upper, lower, twiddle, rotate: stage < stages });
                offset = offset + 1;
            }
            proof {
                assert((stage - 1) * half + block * span + span == (stage - 1) * half + (block + 1)
                    * span) by (nonlinear_arith);
            }
            block = block + 1;
        }
        proof {
            lemma_pow2_adds((stage - 1) as nat, (stages - stage) as nat);
            assert((stage - 1) * half + blocks * span == stage * half) by (nonlinear_arith)
                requires
                    blocks * span == half,
            ;
        }
        stage = stage + 1;
    }
    proof {
        assert(list@ =~= schedule(stages as nat));
    }
    list
}

/// `k`, written with `bits` binary digits, read backwards.
pub open spec fn bit_reverse(k: nat, bits: nat) -> nat
    decreases bits,
{
    if bits == 0 {
        0
    } else {
        (k % 2) * exp2((bits - 1) as nat) + bit_reverse(k / 2, (bits - 1) as nat)
    }
}

/// Nothing read backwards is nothing.
proof fn lemma_reverse_zero(bits: nat)
    ensures
        bit_reverse(0, bits) == 0,
    decreases bits,
{
    if bits > 0 {
        lemma_reverse_zero((bits - 1) as nat);
        assert(0nat % 2 == 0 && 0nat / 2 == 0);
        assert(0 * exp2((bits - 1) as nat) == 0);
    }
}

/// What is read backwards has `bits` digits again.
pub proof fn lemma_reverse_bound(k: nat, bits: nat)
    ensures
        bit_reverse(k, bits) < exp2(bits),
    decreases bits,
{
    lemma2_to64();
    if bits > 0 {
        lemma_reverse_bound(k / 2, (bits - 1) as nat);
        lemma_pow2_unfold(bits);
        let high = exp2((bits - 1) as nat);
        assert((k % 2) * high <= high) by (nonlinear_arith)
            requires
                0 <= k % 2 <= 1,
                high >= 0,
        ;
    }
}

/// The digit that leads, read backwards, comes last: a set digit `digit`
/// adds, read backwards, the digit that mirrors it.
proof fn lemma_reverse_high(rest: nat, digit: nat, bits: nat)
    requires
        1 <= digit <= bits,
        rest < exp2((digit - 1) as nat),
    ensures
        bit_reverse(exp2((digit - 1) as nat) + rest, bits) == bit_reverse(rest, bits) + exp2(
            (bits - digit) as nat,
        ),
    decreases digit,
{
    lemma2_to64();
    let top = exp2((digit - 1) as nat);
    let k = top + rest;
    let high = exp2((bits - 1) as nat);
    if digit == 1 {
        assert(rest == 0);
        assert(k == 1);
        lemma_reverse_zero(bits);
        lemma_reverse_zero((bits - 1) as nat);
        assert(1nat % 2 == 1 && 1nat / 2 == 0);
        assert(1 * high == high) by (nonlinear_arith);
        assert(bit_reverse(1, bits) == (1nat % 2) * high + bit_reverse(1nat / 2, (bits - 1) as nat));
    } else {
        lemma_pow2_unfold((digit - 1) as nat);
        let lower = exp2((digit - 2) as nat);
        assert(top == 2 * lower);
        assert(k % 2 == rest % 2);
        assert(k / 2 == lower + rest / 2);
        lemma_reverse_high(rest / 2, (digit - 1) as nat, (bits - 1) as nat);
        assert(bit_reverse(k, bits) == (k % 2) * high + bit_reverse(k / 2, (bits - 1) as nat));
        assert(bit_reverse(rest, bits) == (rest % 2) * high + bit_reverse(
            rest / 2,
            (bits - 1) as nat,
        ));
    }
}

/// A number whose leading digit is `digit` and whose other digits are `rest`
/// has, read backwards, `digit` as its last digit and before it `rest` read
/// backwards.
proof fn lemma_reverse_leading(rest: nat, digit: nat, bits: nat)
    requires
        bits >= 1,
        digit <= 1,
        rest < exp2((bits - 1) as nat),
    ensures
        bit_reverse(digit * exp2((bits - 1) as nat) + rest, bits) == 2 * bit_reverse(
            rest,
            (bits - 1) as nat,
        ) + digit,
    decreases bits,
{
    lemma2_to64();
    let high = exp2((bits - 1) as nat);
    let k = digit * high + rest;
    assert(digit * high == if digit == 1 {
        high
    } else {
        0
    }) by (nonlinear_arith)
        requires
            digit <= 1,
    ;
    if bits == 1 {
        assert(rest == 0);
        assert(k == digit);
        assert(bit_reverse(k, 1) == (k % 2) * exp2(0) + bit_reverse(k / 2, 0));
        assert((k % 2) * 1 == k % 2) by (nonlinear_arith);
    } else {
        lemma_pow2_unfold((bits - 1) as nat);
        let lower = exp2((bits - 2) as nat);
        assert(high == 2 * lower);
        assert(k % 2 == rest % 2);
        assert(digit * lower == if digit == 1 {
            lower
        } else {
            0
        }) by (nonlinear_arith)
            requires
                digit <= 1,
        ;
        assert(k / 2 == digit * lower + rest / 2);
        lemma_reverse_leading(rest / 2, digit, (bits - 1) as nat);
        assert(bit_reverse(k, bits) == (k % 2) * high + bit_reverse(k / 2, (bits - 1) as nat));
        assert(bit_reverse(rest, (bits - 1) as nat) == (rest % 2) * lower + bit_reverse(
            rest / 2,
            (bits - 2) as nat,
        ));
        assert((rest % 2) * high == 2 * ((rest % 2) * lower)) by (nonlinear_arith)
            requires
                high == 2 * lower,
        ;
    }
}

/// Read backwards twice, a number of `bits` digits is itself.
pub proof fn lemma_reverse_twice(k: nat, bits: nat)
    requires
        k < exp2(bits),
    ensures
        bit_reverse(bit_reverse(k, bits), bits) == k,
    decreases bits,
{
    lemma2_to64();
    if bits > 0 {
        lemma_pow2_unfold(bits);
        let high = exp2((bits - 1) as nat);
        let rest = bit_reverse(k / 2, (bits - 1) as nat);
        lemma_reverse_bound(k / 2, (bits - 1) as nat);
        lemma_reverse_twice(k / 2, (bits - 1) as nat);
        lemma_reverse_leading(rest, k % 2, bits);
    }
}

/// The table of the bit-reversal permutation of `stages` digits.
pub open spec fn reversal(stages: nat) -> Seq<usize> {
    Seq::new(exp2(stages), |k: int| bit_reverse(k as nat, stages) as usize)
}

/// The table of the bit-reversal permutation, built stage by stage: each
/// stage doubles the part of the table that is known.
fn build_reversal(stages: usize) -> (index: Vec<usize>)
    requires
        stages < usize::BITS,
    ensures
        index@ == reversal(stages as nat),
{
    let sample: usize = pow2(stages);
    let mut index: Vec<usize> = Vec::new();
    let mut k: usize = 0;
    while k < sample
        invariant
            k <= sample,
            index.len() == k,
            forall|j: int| 0 <= j < k ==> index@[j] == 0,
        decreases sample - k,
    {
        index.push(0);
        k = k + 1;
    }
    proof {
        lemma_reverse_zero(stages as nat);
        lemma2_to64();
        lemma_pow2_pos(stages as nat);
    }
    let mut stage: usize = 1;
    while stage <= stages
        invariant
            1 <= stage <= stages + 1,
            stages < usize::BITS,
            sample == exp2(stages as nat),
            index.len() == sample,
            forall|j: int|
                0 <= j < exp2((stage - 1) as nat) ==> index@[j] == bit_reverse(
                    j as nat,
                    stages as nat,
                ),
        decreases stages + 1 - stage,
    {
        let known: usize = pow2(stage - 1);
        let step: usize = pow2(stages - stage);
        proof {
            lemma_pow2_unfold(stage as nat);
            lemma_exp2_grows(stage as nat, stages as nat);
        }
        let mut i: usize = 0;
        while i < known
            invariant
                1 <= stage <= stages,
                stages < usize::BITS,
                sample == exp2(stages as nat),
                known == exp2((stage - 1) as nat),
                step == exp2((stages - stage) as nat),
                2 * known <= sample,
                i <= known,
                index.len() == sample,
                forall|j: int|
                    0 <= j < known + i ==> index@[j] == bit_reverse(j as nat, stages as nat),
            decreases known - i,
        {
            proof {
                lemma_reverse_high(i as nat, stage as nat, stages as nat);
                lemma_reverse_bound((known + i) as nat, stages as nat);
            }
            let mirrored: usize = index[i] + step;
            index.set(known + i, mirrored);
            i = i + 1;
        }
        stage = stage + 1;
    }
    proof {
        assert(index@ =~= reversal(stages as nat));
    }
    index
}

/// What the index arithmetic of a transform of a given length comes to,
/// worked out once for all transforms of that length.
pub struct FftPlan {
    stages: usize,
    butterflies: Vec<Butterfly>,
    index: Vec<usize>,
}

impl FftPlan {
    #[verifier::type_invariant]
    spec fn well_formed(self) -> bool {
        &&& self.stages < usize::BITS
        &&& self.butterflies@ == schedule(self.stages as nat)
        &&& self.index@ == reversal(self.stages as nat)
    }

    /// The number of stages of the transform.
    pub closed spec fn depth(self) -> nat {
        self.stages as nat
    }

    /// The plan of a transform of `sample` entries; `None` unless `sample` is
    /// a power of two and at least 2.
    pub fn new(sample: usize) -> (plan: Option<FftPlan>)
        ensures
            plan is Some <==> sample >= 2 && is_power_of_two(sample as nat),
            plan matches Some(p) ==> exp2(p.depth()) == sample,
    {
        if sample < 2 || !power_of_two(sample) {
            return None;
        }
        let stages = stage_count(sample);
        proof {
            lemma_stage_count_exact(sample as nat, stages as nat);
        }
        let butterflies = build_schedule(stages);
        let index = build_reversal(stages);
        Some(FftPlan { stages, butterflies, index })
    }

    /// The number of entries of the transform.
    pub fn size(&self) -> (sample: usize)
        ensures
            sample == exp2(self.depth()),
    {
        proof {
            use_type_invariant(self);
        }
        self.index.len()
    }

    /// The number of stages of the transform.
    pub fn stages(&self) -> (stages: usize)
        ensures
            stages == self.depth(),
    {
        self.stages
    }

    /// The butterflies of the transform, in the order in which they are to be
    /// carried out. Each stays inside the transform.
    pub fn butterflies(&self) -> (list: &Vec<Butterfly>)
        ensures
            list@ == schedule(self.depth()),
            forall|k: int|
                0 <= k < list@.len() ==> (#[trigger] list@[k]).upper < list@[k].lower < exp2(
                    self.depth(),
                ) && 2 * list@[k].twiddle < exp2(self.depth()),
    {
        proof {
            use_type_invariant(self);
            lemma_schedule_bounds(self.stages as nat);
        }
        &self.butterflies
    }

    /// The table of the permutation that follows the last stage: entry `k`
    /// is `k` with its binary digits read backwards.
    pub fn reversal(&self) -> (index: &Vec<usize>)
        ensures
            index@ == reversal(self.depth()),
    {
        proof {
            use_type_invariant(self);
        }
        &self.index
    }

    /// Puts the result of the last stage in order: the entry at `k` goes to
    /// where `k`, read backwards, points. What a buffer holds beyond the
    /// length of the transform stays as it is.
    pub fn reorder<T: Copy>(&self, buffer: &mut Vec<T>)
        requires
            old(buffer).len() >= exp2(self.depth()),
        ensures
            final(buffer).len() == old(buffer).len(),
            forall|k: int|
                0 <= k < exp2(self.depth()) ==> #[trigger] final(buffer)@[k] == old(
                    buffer,
                )@[bit_reverse(k as nat, self.depth()) as int],
            forall|k: int|
                exp2(self.depth()) <= k < old(buffer).len() ==> #[trigger] final(buffer)@[k]
                    == old(buffer)@[k],
    {
        proof {
            use_type_invariant(self);
        }
        let sample: usize = self.index.len();
        let ghost bits = self.stages as nat;
        let mut k: usize = 0;
        while k < sample
            invariant
                k <= sample,
                sample == exp2(bits),
                sample <= buffer.len(),
                buffer.len() == old(buffer).len(),
                self.index@ == reversal(bits),
                forall|j: int| sample <= j < buffer.len() ==> #[trigger] buffer@[j] == old(buffer)@[j],
                forall|j: int|
                    0 <= j < sample ==> #[trigger] buffer@[j] == if j < k || bit_reverse(
                        j as nat,
                        bits,
                    ) < k {
                        old(buffer)@[bit_reverse(j as nat, bits) as int]
                    } else {
                        old(buffer)@[j]
                    },
            decreases sample - k,
        {
            let mirror: usize = self.index[k];
            let ghost before = buffer@;
            proof {
                lemma_reverse_bound(k as nat, bits);
                lemma_reverse_twice(k as nat, bits);
            }
            if mirror > k {
                let low = buffer[k];
                let high = buffer[mirror];
                buffer.set(k, high);
                buffer.set(mirror, low);
            }
            proof {
                assert forall|j: int| 0 <= j < sample implies #[trigger] buffer@[j] == if j < k + 1
                    || bit_reverse(j as nat, bits) < k + 1 {
                    old(buffer)@[bit_reverse(j as nat, bits) as int]
                } else {
                    old(buffer)@[j]
                } by {
                    lemma_reverse_bound(j as nat, bits);
                    lemma_reverse_twice(j as nat, bits);
                    assert(before[j] == if j < k || bit_reverse(j as nat, bits) < k {
                        old(buffer)@[bit_reverse(j as nat, bits) as int]
                    } else {
                        old(buffer)@[j]
                    });
                    assert(before[mirror as int] == if mirror < k || bit_reverse(
                        mirror as nat,
                        bits,
                    ) < k {
                        old(buffer)@[bit_reverse(mirror as nat, bits) as int]
                    } else {
                        old(buffer)@[mirror as int]
                    });
                    assert(before[k as int] == if k < k || bit_reverse(k as nat, bits) < k {
                        old(buffer)@[bit_reverse(k as nat, bits) as int]
                    } else {
                        old(buffer)@[k as int]
                    });
                }
            }
            k = k + 1;
        }
    }
}

/// Put in order twice, a buffer is as it was.
pub proof fn lemma_reorder_twice<T>(first: Seq<T>, second: Seq<T>, third: Seq<T>, bits: nat)
    requires
        first.len() == exp2(bits),
        second.len() == exp2(bits),
        third.len() == exp2(bits),
        forall|k: int|
            0 <= k < second.len() ==> #[trigger] second[k] == first[bit_reverse(k as nat, bits) as int],
        forall|k: int|
            0 <= k < third.len() ==> #[trigger] third[k] == second[bit_reverse(k as nat, bits) as int],
    ensures
        third == first,
{
    assert forall|k: int| 0 <= k < third.len() implies third[k] == first[k] by {
        let mirror = bit_reverse(k as nat, bits) as int;
        lemma_reverse_bound(k as nat, bits);
        lemma_reverse_twice(k as nat, bits);
        assert(third[k] == second[mirror]);
        assert(second[mirror] == first[bit_reverse(mirror as nat, bits) as int]);
    }
    assert(third =~= first);
}

/// Every butterfly of the schedule stays inside the transform: its upper
/// entry stands before its lower entry, and its twiddle exponent is below
/// half the length.
pub proof fn lemma_schedule_bounds(stages: nat)
    requires
        stages < usize::BITS,
    ensures
        forall|k: int|
            0 <= k < schedule(stages).len() ==> (#[trigger] schedule(stages)[k]).upper < schedule(
                stages,
            )[k].lower < exp2(stages) && 2 * schedule(stages)[k].twiddle < exp2(stages),
{
    let list = schedule(stages);
    let half = exp2((stages - 1) as nat) as int;
    lemma_pow2_pos((stages - 1) as nat);
    lemma_pow2_strictly_increases(stages, usize::BITS as nat);
    lemma2_to64();
    assert forall|k: int| 0 <= k < list.len() implies (#[trigger] list[k]).upper < list[k].lower
        < exp2(stages) && 2 * list[k].twiddle < exp2(stages) by {
        let quotient = k / half;
        let within = k % half;
        lemma_fundamental_div_mod(k, half);
        lemma_mod_pos_bound(k, half);
        lemma_div_pos_is_pos(k, half);
        assert(quotient < stages) by (nonlinear_arith)
            requires
                k == half * quotient + within,
                0 <= within,
                k < stages * half,
                half > 0,
        ;
        let stage = quotient + 1;
        let span = exp2((stages - stage) as nat) as int;
        let blocks = exp2((stage - 1) as nat) as int;
        lemma_pow2_pos((stages - stage) as nat);
        lemma_pow2_pos((stage - 1) as nat);
        lemma_pow2_adds((stage - 1) as nat, (stages - stage) as nat);
        assert(blocks * span == half);
        let block = within / span;
        let offset = within % span;
        lemma_fundamental_div_mod(within, span);
        lemma_mod_pos_bound(within, span);
        lemma_div_pos_is_pos(within, span);
        assert(block < blocks) by (nonlinear_arith)
            requires
                within == span * block + offset,
                0 <= offset,
                within < half,
                blocks * span == half,
                span > 0,
        ;
        lemma_slot(stages, stage as nat, block as nat, offset as nat);
        assert(list[k] == butterfly(stages, stage as nat, block as nat, offset as nat));
        assert(2 * span * block >= 0 && blocks * offset >= 0) by (nonlinear_arith)
            requires
                span > 0,
                block >= 0,
                offset >= 0,
                blocks >= 0,
        ;
    }
}

/// The butterfly at place `place` of stage `stage`, the places of a stage
/// counted through its blocks.
pub open spec fn stage_butterfly(stages: nat, stage: nat, place: nat) -> Butterfly {
    scheduled(stages, ((stage - 1) * exp2((stages - 1) as nat) + place) as nat)
}

/// Whether `butterfly` combines the entry at `entry` with another.
pub open spec fn touches(butterfly: Butterfly, entry: nat) -> bool {
    butterfly.upper == entry || butterfly.lower == entry
}

/// The two entries of the butterfly at a place of a stage.
proof fn lemma_place(stages: nat, stage: nat, place: nat)
    requires
        stages < usize::BITS,
        1 <= stage <= stages,
        place < exp2((stages - 1) as nat),
    ensures
        ({
            let span = exp2((stages - stage) as nat);
            let found = stage_butterfly(stages, stage, place);
            &&& span > 0
            &&& place / span < exp2((stage - 1) as nat)
            &&& place % span < span
            &&& place == span * (place / span) + place % span
            &&& found.upper == 2 * span * (place / span) + place % span
            &&& found.lower == found.upper + span
        }),
{
    let half = exp2((stages - 1) as nat) as int;
    let span = exp2((stages - stage) as nat) as int;
    let blocks = exp2((stage - 1) as nat) as int;
    lemma_pow2_pos((stages - stage) as nat);
    lemma_pow2_pos((stage - 1) as nat);
    lemma_pow2_adds((stage - 1) as nat, (stages - stage) as nat);
    lemma_pow2_strictly_increases(stages, usize::BITS as nat);
    lemma2_to64();
    let block = place as int / span;
    let offset = place as int % span;
    lemma_fundamental_div_mod(place as int, span);
    lemma_mod_pos_bound(place as int, span);
    lemma_div_pos_is_pos(place as int, span);
    assert(block < blocks) by (nonlinear_arith)
        requires
            place == span * block + offset,
            0 <= offset,
            place < half,
            blocks * span == half,
            span > 0,
    ;
    assert(block * span + offset == place) by (nonlinear_arith)
        requires
            place == span * block + offset,
    ;
    lemma_slot(stages, stage, block as nat, offset as nat);
    assert(2 * span * block >= 0) by (nonlinear_arith)
        requires
            span > 0,
            block >= 0,
    ;
}

/// In every stage each entry of the transform belongs to exactly one
/// butterfly: a stage combines the entries in pairs and leaves none out.
pub proof fn lemma_stage_pairs(stages: nat, stage: nat, entry: nat)
    requires
        stages < usize::BITS,
        1 <= stage <= stages,
        entry < exp2(stages),
    ensures
        exists|place: nat|
            place < exp2((stages - 1) as nat) && touches(
                #[trigger] stage_butterfly(stages, stage, place),
                entry,
            ),
        forall|first: nat, second: nat|
            first < exp2((stages - 1) as nat) && second < exp2((stages - 1) as nat) && touches(
                #[trigger] stage_butterfly(stages, stage, first),
                entry,
            ) && touches(#[trigger] stage_butterfly(stages, stage, second), entry) ==> first
                == second,
{
    let half = exp2((stages - 1) as nat) as int;
    let span = exp2((stages - stage) as nat) as int;
    let blocks = exp2((stage - 1) as nat) as int;
    lemma_pow2_pos((stages - stage) as nat);
    lemma_pow2_pos((stage - 1) as nat);
    lemma_pow2_adds((stage - 1) as nat, (stages - stage) as nat);
    lemma_pow2_unfold(stages);
    let width = 2 * span;
    let block = entry as int / width;
    let rest = entry as int % width;
    lemma_fundamental_div_mod(entry as int, width);
    lemma_mod_pos_bound(entry as int, width);
    lemma_div_pos_is_pos(entry as int, width);
    assert(block < blocks) by (nonlinear_arith)
        requires
            entry == width * block + rest,
            0 <= rest,
            entry < 2 * half,
            blocks * span == half,
            width == 2 * span,
            span > 0,
    ;
    let offset = if rest < span {
        rest
    } else {
        rest - span
    };
    let place = (block * span + offset) as nat;
    assert(0 <= block * span + offset < half) by (nonlinear_arith)
        requires
            0 <= block < blocks,
            0 <= offset < span,
            blocks * span == half,
    ;
    lemma_fundamental_div_mod_converse(place as int, span, block, offset);
    lemma_place(stages, stage, place);
    assert(2 * span * block == width * block) by (nonlinear_arith)
        requires
            width == 2 * span,
    ;
    assert(touches(stage_butterfly(stages, stage, place), entry));
    assert forall|first: nat, second: nat|
        first < half && second < half && touches(
            #[trigger] stage_butterfly(stages, stage, first),
            entry,
        ) && touches(#[trigger] stage_butterfly(stages, stage, second), entry) implies first
        == second by {
        lemma_place_of_entry(stages, stage, first, entry);
        lemma_place_of_entry(stages, stage, second, entry);
    }
}

/// The place of the butterfly that touches an entry follows from the entry.
proof fn lemma_place_of_entry(stages: nat, stage: nat, place: nat, entry: nat)
    requires
        stages < usize::BITS,
        1 <= stage <= stages,
        place < exp2((stages - 1) as nat),
        touches(stage_butterfly(stages, stage, place), entry),
    ensures
        ({
            let span = exp2((stages - stage) as nat) as int;
            let rest = entry as int % (2 * span);
            place == span * (entry as int / (2 * span)) + if rest < span {
                rest
            } else {
                rest - span
            }
        }),
{
    let span = exp2((stages - stage) as nat) as int;
    lemma_place(stages, stage, place);
    let block = place as int / span;
    let offset = place as int % span;
    let found = stage_butterfly(stages, stage, place);
    let width = 2 * span;
    assert(2 * span * block == block * width) by (nonlinear_arith)
        requires
            width == 2 * span,
    ;
    if found.upper == entry {
        lemma_fundamental_div_mod_converse(entry as int, width, block, offset);
    } else {
        lemma_fundamental_div_mod_converse(entry as int, width, block, offset + span);
    }
}

} // verus!
