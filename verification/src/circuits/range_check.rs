//! Range-check benchmark.
//!
//! The circuit asserts that each of `num_values` field elements lies in
//! `[0, 2^bits)`. Every value is range-checked independently, and the gene for
//! that value selects the base of the limb decomposition used to enforce the
//! bound: a value is split into base-`B` limbs (each constrained by a
//! base-sum gate of polynomial degree `B`) for `B` in `{2, 4, 8}`. Larger
//! bases use fewer limbs but raise the constraint degree. Base 16 is left
//! out: its degree exceeds the standard configuration's quotient degree
//! factor of 8, so such circuits fail to build.
use vstd::prelude::*;
use vstd::arithmetic::power::pow;
use rand_chacha::ChaCha8Rng;
use crate::circuits::plan::{
    Step, CircuitPlan, emit, wire_values, public_outputs, input_count, constraints_hold, plan_well_formed,
    lemma_push_step, lemma_wire_len,
};
use crate::field::{ORDER, reduce};
use crate::rng::next_u64;
use crate::strategy::Chromosome;

verus! {

/// Number of limb bases offered as strategies.
pub const N_BASES: usize = 3;

/// Range-check `num_values` independent field elements to `bits` bits.
pub struct RangeCheck {
    pub num_values: usize,
    pub bits: usize,
}

/// The limb base of strategy `gene`: 2, 4 or 8.
pub open spec fn base_spec(gene: u8) -> nat {
    if gene == 0 {
        2
    } else if gene == 1 {
        4
    } else {
        8
    }
}

/// The number of limbs of strategy `gene` that covers exactly `bits` bits.
pub open spec fn limbs_spec(gene: u8, bits: nat) -> nat {
    if gene == 0 {
        bits
    } else if gene == 1 {
        bits / 2
    } else {
        bits / 3
    }
}

/// The genes select a base for each of the first `n` values.
pub open spec fn range_genes_ok(genes: Seq<u8>, n: nat) -> bool {
    genes.len() >= n && forall|i: int| 0 <= i < n ==> (#[trigger] genes[i]) < N_BASES
}

/// The plan for the first `n` values: for value `i`, steps `3i .. 3i + 3`
/// are its input, its registration as public, and its decomposition.
pub open spec fn range_plan_spec(genes: Seq<u8>, n: nat, bits: nat) -> Seq<Step> {
    Seq::new(
        3 * n,
        |j: int|
            if j % 3 == 0 {
                Step::Input
            } else if j % 3 == 1 {
                Step::Public((j - 1) as usize)
            } else {
                Step::Split((j - 2) as usize, base_spec(genes[j / 3]) as usize, limbs_spec(genes[j / 3], bits) as usize)
            },
    )
}

/// Every base covers exactly `bits` bits: `base^limbs == 2^bits`.
pub proof fn lemma_limbs_cover(gene: u8, bits: nat)
    requires
        gene < N_BASES,
        bits % 2 == 0,
        bits % 3 == 0,
    ensures
        pow(base_spec(gene) as int, limbs_spec(gene, bits)) == pow(2, bits),
{
    reveal(pow);
    vstd::arithmetic::power::lemma_pow1(2);
    assert(pow(2, 2) == 4) by {
        reveal(pow);
        vstd::arithmetic::power::lemma_pow0(2);
    }
    assert(pow(2, 3) == 8) by {
        reveal(pow);
        vstd::arithmetic::power::lemma_pow0(2);
    }
    if gene == 1 {
        vstd::arithmetic::power::lemma_pow_multiplies(2, 2, bits / 2);
        assert(2 * (bits / 2) == bits);
    } else if gene == 2 {
        vstd::arithmetic::power::lemma_pow_multiplies(2, 3, bits / 3);
        assert(3 * (bits / 3) == bits);
    }
}

/// Strategy `gene` decomposes in base `2^(gene + 1)` into `bits / (gene + 1)`
/// limbs: each strategy has its own base, and in the plan the decomposition
/// of value `i` is the split of its input in the base and limb count of gene
/// `i`.
pub proof fn lemma_strategy_bases(genes: Seq<u8>, n: nat, bits: nat, i: int)
    requires
        range_genes_ok(genes, n),
        0 <= i < n,
    ensures
        base_spec(genes[i]) == pow(2, (genes[i] + 1) as nat),
        limbs_spec(genes[i], bits) == bits / ((genes[i] + 1) as nat),
        range_plan_spec(genes, n, bits)[3 * i + 2] == Step::Split(
            (3 * i) as usize,
            pow(2, (genes[i] + 1) as nat) as usize,
            (bits / ((genes[i] + 1) as nat)) as usize,
        ),
        forall|j: int| 0 <= j < n && genes[j] != genes[i] ==> #[trigger] base_spec(genes[j]) != base_spec(genes[i]),
{
    reveal(pow);
    vstd::arithmetic::power::lemma_pow1(2);
    assert(pow(2, 2) == 4) by {
        reveal(pow);
        vstd::arithmetic::power::lemma_pow0(2);
    }
    assert(pow(2, 3) == 8) by {
        reveal(pow);
        vstd::arithmetic::power::lemma_pow0(2);
    }
    assert(genes[i] < N_BASES);
    if genes[i] == 0 {
        assert(bits / 1 == bits);
    }
    assert(limbs_spec(genes[i], bits) == bits / ((genes[i] + 1) as nat));
    let j3 = 3 * i + 2;
    assert(j3 % 3 == 2 && j3 / 3 == i && j3 - 2 == 3 * i);
    assert(range_plan_spec(genes, n, bits)[j3] == Step::Split(
        (j3 - 2) as usize,
        base_spec(genes[j3 / 3]) as usize,
        limbs_spec(genes[j3 / 3], bits) as usize,
    ));
}

impl RangeCheck {
    /// A range-check benchmark; `bits` must be divisible by `log2` of every
    /// base (1, 2 and 3), so that each decomposition covers exactly `bits`
    /// bits.
    pub fn new(num_values: usize, bits: usize) -> (r: Self)
        requires
            bits % 2 == 0,
            bits % 3 == 0,
        ensures
            r.num_values == num_values,
            r.bits == bits,
    {
        RangeCheck { num_values, bits }
    }

    /// Human-readable benchmark name.
    pub fn name(&self) -> (s: &'static str)
        ensures
            s@ == "range_check"@,
    {
        "range_check"
    }

    /// One gene per value, each with three bases.
    pub fn strategy_space(&self) -> (s: Vec<usize>)
        ensures
            s@ == Seq::new(self.num_values as nat, |i: int| N_BASES),
    {
        let mut s: Vec<usize> = Vec::new();
        for i in 0..self.num_values
            invariant
                s@ == Seq::new(i as nat, |j: int| N_BASES),
        {
            s.push(N_BASES);
            assert(s@ =~= Seq::new((i + 1) as nat, |j: int| N_BASES));
        }
        s
    }

    /// Apply the limb decomposition selected by `gene` to wire `x`.
    fn decompose(&self, steps: &mut Vec<Step>, x: usize, gene: u8)
        requires
            gene < N_BASES,
            x < old(steps)@.len(),
            plan_well_formed(old(steps)@),
        ensures
            final(steps)@ == old(steps)@.push(
                Step::Split(x, base_spec(gene) as usize, limbs_spec(gene, self.bits as nat) as usize),
            ),
            plan_well_formed(final(steps)@),
    {
        if gene == 0 {
            emit(steps, Step::Split(x, 2, self.bits));
        } else if gene == 1 {
            emit(steps, Step::Split(x, 4, self.bits / 2));
        } else {
            emit(steps, Step::Split(x, 8, self.bits / 3));
        }
    }

    /// The circuit plan for `chrom`: for each value `i`, a private input
    /// `x_i`, registered as public and decomposed with the base of gene `i`.
    /// Law: whatever the bases, the public inputs are the inputs and the
    /// constraints hold exactly when every input is below `2^bits`.
    #[verifier::spinoff_prover]
    pub fn plan(&self, chrom: &Chromosome) -> (p: CircuitPlan)
        requires
            self.bits % 2 == 0,
            self.bits % 3 == 0,
            range_genes_ok(chrom.genes@, self.num_values as nat),
        ensures
            p.steps@ == range_plan_spec(chrom.genes@, self.num_values as nat, self.bits as nat),
            plan_well_formed(p.steps@),
            input_count(p.steps@) == self.num_values,
            forall|inputs: Seq<u64>|
                #[trigger] public_outputs(p.steps@, inputs) == Seq::new(
                    self.num_values as nat,
                    |i: int| reduce(inputs[i] as int),
                ),
            forall|inputs: Seq<u64>|
                #[trigger] constraints_hold(p.steps@, inputs) <==> forall|i: int|
                    0 <= i < self.num_values ==> reduce(#[trigger] inputs[i] as int) < pow(2, self.bits as nat),
            forall|i: int|
                0 <= i < self.num_values ==> p.steps@[3 * i + 2] == Step::Split(
                    (3 * i) as usize,
                    pow(2, (#[trigger] chrom.genes@[i] + 1) as nat) as usize,
                    (self.bits as nat / ((chrom.genes@[i] + 1) as nat)) as usize,
                ),
    {
        let n = self.num_values;
        let mut steps: Vec<Step> = Vec::new();
        proof {
            assert(steps@ =~= range_plan_spec(chrom.genes@, 0, self.bits as nat));
            assert forall|inputs: Seq<u64>|
                #[trigger] public_outputs(steps@, inputs) == Seq::new(0, |i: int| reduce(inputs[i] as int)) by {
                assert(Seq::new(0, |i: int| reduce(inputs[i] as int)) =~= Seq::<int>::empty());
            }
        }
        for i in 0..n
            invariant
                n == self.num_values,
                self.bits % 2 == 0,
                self.bits % 3 == 0,
                range_genes_ok(chrom.genes@, n as nat),
                plan_well_formed(steps@),
                steps@ == range_plan_spec(chrom.genes@, i as nat, self.bits as nat),
                input_count(steps@) == i,
                forall|inputs: Seq<u64>|
                    #[trigger] public_outputs(steps@, inputs) == Seq::new(i as nat, |j: int| reduce(inputs[j] as int)),
                forall|inputs: Seq<u64>|
                    #[trigger] constraints_hold(steps@, inputs) <==> forall|j: int|
                        0 <= j < i ==> reduce(#[trigger] inputs[j] as int) < pow(2, self.bits as nat),
        {
            let ghost s1 = steps@;
            let x = emit(&mut steps, Step::Input);
            let ghost s2 = steps@;
            emit(&mut steps, Step::Public(x));
            let ghost s3 = steps@;
            let gene = chrom.genes[i];
            self.decompose(&mut steps, x, gene);
            proof {
                assert(steps@ =~= range_plan_spec(chrom.genes@, (i + 1) as nat, self.bits as nat)) by {
                    let r = range_plan_spec(chrom.genes@, (i + 1) as nat, self.bits as nat);
                    assert forall|j: int| 0 <= j < r.len() implies steps@[j] == r[j] by {
                        if j < 3 * i {
                            assert(steps@[j] == s1[j]);
                        } else if j == 3 * i {
                            assert(j % 3 == 0);
                        } else if j == 3 * i + 1 {
                            assert(j % 3 == 1);
                        } else {
                            assert(j % 3 == 2 && j / 3 == i);
                        }
                    }
                }
                lemma_limbs_cover(gene, self.bits as nat);
                lemma_push_step(s1, Step::Input, Seq::empty());
                lemma_push_step(s2, Step::Public(x), Seq::empty());
                lemma_push_step(s3, steps@.last(), Seq::empty());
                assert(steps@ == s3.push(steps@.last()));
                assert forall|inputs: Seq<u64>|
                    #[trigger] public_outputs(steps@, inputs) == Seq::new(
                        (i + 1) as nat,
                        |j: int| reduce(inputs[j] as int),
                    ) by {
                    lemma_push_step(s1, Step::Input, inputs);
                    lemma_push_step(s2, Step::Public(x), inputs);
                    lemma_push_step(s3, steps@.last(), inputs);
                    lemma_wire_len(s1, inputs);
                    assert(public_outputs(steps@, inputs) =~= Seq::new(
                        (i + 1) as nat,
                        |j: int| reduce(inputs[j] as int),
                    ));
                }
                assert forall|inputs: Seq<u64>|
                    #[trigger] constraints_hold(steps@, inputs) <==> forall|j: int|
                        0 <= j < i + 1 ==> reduce(#[trigger] inputs[j] as int) < pow(2, self.bits as nat) by {
                    lemma_push_step(s1, Step::Input, inputs);
                    lemma_push_step(s2, Step::Public(x), inputs);
                    lemma_push_step(s3, steps@.last(), inputs);
                    lemma_wire_len(s1, inputs);
                    lemma_wire_len(s2, inputs);
                    assert(wire_values(s3, inputs)[x as int] == reduce(inputs[i as int] as int));
                    if constraints_hold(steps@, inputs) {
                        assert forall|j: int| 0 <= j < i + 1 implies reduce(#[trigger] inputs[j] as int) < pow(
                            2,
                            self.bits as nat,
                        ) by {
                            if j < i {
                                assert(constraints_hold(s1, inputs));
                            }
                        }
                    }
                    if forall|j: int| 0 <= j < i + 1 ==> reduce(#[trigger] inputs[j] as int) < pow(2, self.bits as nat) {
                        assert(reduce(inputs[i as int] as int) < pow(2, self.bits as nat));
                        assert forall|j: int| 0 <= j < i implies reduce(#[trigger] inputs[j] as int) < pow(
                            2,
                            self.bits as nat,
                        ) by {
                        }
                    }
                }
            }
        }
        proof {
            assert forall|i: int| 0 <= i < self.num_values implies steps@[3 * i + 2] == Step::Split(
                (3 * i) as usize,
                pow(2, (#[trigger] chrom.genes@[i] + 1) as nat) as usize,
                (self.bits as nat / ((chrom.genes@[i] + 1) as nat)) as usize,
            ) by {
                lemma_strategy_bases(chrom.genes@, self.num_values as nat, self.bits as nat, i);
            }
        }
        CircuitPlan { steps }
    }

    /// The public inputs a correct proof exposes: the inputs themselves (the
    /// relation is a pure predicate).
    pub fn reference_public_inputs(&self, inputs: &Vec<u64>) -> (r: Vec<u64>)
        ensures
            r@ == inputs@,
    {
        let r = inputs.clone();
        assert(r@ =~= inputs@);
        r
    }

    /// Random private inputs: one value below `2^bits` per circuit value.
    pub fn random_inputs(&self, rng: &mut ChaCha8Rng) -> (r: Vec<u64>)
        requires
            self.bits < 64,
        ensures
            r@.len() == self.num_values,
            forall|i: int| 0 <= i < r@.len() ==> ((#[trigger] r@[i]) as int) < pow(2, self.bits as nat),
    {
        let b = self.bits as u64;
        proof {
            vstd::bits::lemma_u64_pow2_no_overflow(b as nat);
            vstd::bits::lemma_u64_shl_is_mul(1, b);
            vstd::arithmetic::power2::lemma_pow2(b as nat);
        }
        let modulus: u64 = 1u64 << b;
        let mut out: Vec<u64> = Vec::new();
        for i in 0..self.num_values
            invariant
                modulus > 0,
                modulus as int == pow(2, self.bits as nat),
                out@.len() == i,
                forall|j: int| 0 <= j < out@.len() ==> ((#[trigger] out@[j]) as int) < pow(2, self.bits as nat),
        {
            let v = next_u64(rng) % modulus;
            out.push(v);
        }
        out
    }
}

} // verus!
