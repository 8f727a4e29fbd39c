//! Fixed-exponent exponentiation benchmark.
//!
//! The circuit computes `y_i = x_i^k` for `num_values` inputs and a fixed
//! exponent `k`. Each value's gene selects one of three mathematically
//! equivalent ways to evaluate the power:
//!
//! - `0`: the exponentiation gadget (`exp_u64`),
//! - `1`: naive repeated multiplication (`k - 1` multiplications),
//! - `2`: square-and-multiply (about `log2(k)` squarings plus multiplies).
//!
//! All three yield the same output, so any chromosome is correct; they differ
//! only in gate count and degree.
use vstd::prelude::*;
use vstd::arithmetic::power::pow;
use rand_chacha::ChaCha8Rng;
use crate::circuits::plan::{
    Step, CircuitPlan, emit, wire_values, public_outputs, input_count, constraints_hold, plan_well_formed,
    step_value, extends_arith, lemma_push_step, lemma_wire_values, lemma_wire_len, lemma_extends_push,
    lemma_extends_refl, lemma_extends_trans,
};
use crate::field::{ORDER, reduce, field_pow, lemma_reduce_mul, lemma_pow_split, lemma_reduce_step};
use crate::rng::next_u64;
use crate::strategy::Chromosome;

verus! {

/// Number of equivalent exponentiation strategies.
pub const N_STRATEGIES: usize = 3;

/// Compute `x_i^exponent` for `num_values` inputs.
pub struct Exponentiation {
    pub num_values: usize,
    pub exponent: u64,
}

/// The public inputs of the exponentiation circuit for the first `m` private
/// inputs: `(x_i, x_i^k)` interleaved, in the field.
pub open spec fn exp_reference(inputs: Seq<u64>, m: nat, k: u64) -> Seq<int> {
    Seq::new(
        2 * m,
        |j: int|
            if j % 2 == 0 {
                reduce(inputs[j / 2] as int)
            } else {
                reduce(pow(reduce(inputs[j / 2] as int), k as nat))
            },
    )
}

/// Naive multiplication appended at step `start`: `cnt` products by `x`,
/// each of the previous product (the first of `x` itself).
pub open spec fn naive_steps(x: usize, start: nat, cnt: nat) -> Seq<Step> {
    Seq::new(cnt, |j: int| Step::Mul(if j == 0 { x } else { (start + j - 1) as usize }, x))
}

/// Square-and-multiply from result wire `r` and base wire `b` with `e` left
/// of the exponent, the next step at index `n`: multiply the result by the
/// base for a set low bit, then square the base while bits remain.
pub open spec fn sm_steps(r: usize, b: usize, e: u64, n: nat) -> Seq<Step>
    decreases e,
{
    if e == 0 {
        Seq::empty()
    } else {
        let odd = e % 2 == 1;
        let m = if odd { seq![Step::Mul(r, b)] } else { Seq::<Step>::empty() };
        let r2 = if odd { n as usize } else { r };
        let n2: nat = if odd { n + 1 } else { n };
        let h = (e / 2) as u64;
        if h > 0 {
            m.push(Step::Square(b)) + sm_steps(r2, n2 as usize, h, n2 + 1)
        } else {
            m
        }
    }
}

/// The result wire of [`sm_steps`].
pub open spec fn sm_out(r: usize, b: usize, e: u64, n: nat) -> usize
    decreases e,
{
    if e == 0 {
        r
    } else {
        let odd = e % 2 == 1;
        let r2 = if odd { n as usize } else { r };
        let n2: nat = if odd { n + 1 } else { n };
        let h = (e / 2) as u64;
        if h > 0 {
            sm_out(r2, n2 as usize, h, n2 + 1)
        } else {
            r2
        }
    }
}

/// The steps strategy `gene` appends at step `start` to raise wire `x` to
/// the `k`-th power.
pub open spec fn power_steps(x: usize, gene: u8, k: u64, start: nat) -> Seq<Step> {
    if gene == 0 {
        seq![Step::Exp(x, k)]
    } else if gene == 1 {
        naive_steps(x, start, (k - 1) as nat)
    } else {
        seq![Step::Constant(1)] + sm_steps(start as usize, x, k, start + 1)
    }
}

/// The wire holding the power after [`power_steps`].
pub open spec fn power_out(x: usize, gene: u8, k: u64, start: nat) -> usize {
    if gene == 0 {
        start as usize
    } else if gene == 1 {
        if k <= 1 { x } else { (start + k - 2) as usize }
    } else {
        sm_out(start as usize, x, k, start + 1)
    }
}

/// Square-and-multiply uses only products and squarings.
proof fn lemma_sm_steps_shape(r: usize, b: usize, e: u64, n: nat)
    ensures
        forall|j: int|
            0 <= j < sm_steps(r, b, e, n).len() ==> (#[trigger] sm_steps(r, b, e, n)[j] is Mul) || sm_steps(
                r,
                b,
                e,
                n,
            )[j] is Square,
    decreases e,
{
    if e > 0 {
        let odd = e % 2 == 1;
        let r2 = if odd { n as usize } else { r };
        let n2: nat = if odd { n + 1 } else { n };
        let h = (e / 2) as u64;
        let m = if odd { seq![Step::Mul(r, b)] } else { Seq::<Step>::empty() };
        if h > 0 {
            lemma_sm_steps_shape(r2, n2 as usize, h, n2 + 1);
            let rest = sm_steps(r2, n2 as usize, h, n2 + 1);
            let all = m.push(Step::Square(b)) + rest;
            assert(sm_steps(r, b, e, n) == all);
            assert forall|j: int| 0 <= j < all.len() implies (#[trigger] all[j] is Mul) || all[j] is Square by {
                if j >= m.len() + 1 {
                    assert(all[j] == rest[j - m.len() - 1]);
                }
            }
        }
    }
}

/// The three strategies are different circuits: strategy 0 is one
/// exponentiation gate `x^k`; strategy 1 is `k - 1` products, each by `x`;
/// strategy 2 is the constant 1 followed by products and squarings only,
/// with no exponentiation gate.
pub proof fn lemma_strategy_shapes(x: usize, k: u64, start: nat)
    requires
        k >= 1,
    ensures
        power_steps(x, 0, k, start) == seq![Step::Exp(x, k)],
        power_steps(x, 1, k, start).len() == k - 1,
        forall|j: int|
            0 <= j < k - 1 ==> (#[trigger] power_steps(x, 1, k, start)[j] is Mul) && power_steps(x, 1, k, start)[j]->Mul_1
                == x,
        power_steps(x, 2, k, start)[0] == Step::Constant(1),
        forall|j: int|
            1 <= j < power_steps(x, 2, k, start).len() ==> (#[trigger] power_steps(x, 2, k, start)[j] is Mul)
                || power_steps(x, 2, k, start)[j] is Square,
{
    lemma_sm_steps_shape(start as usize, x, k, start + 1);
    let t = power_steps(x, 2, k, start);
    let sm = sm_steps(start as usize, x, k, start + 1);
    assert(t == seq![Step::Constant(1)] + sm);
    assert forall|j: int| 1 <= j < t.len() implies (#[trigger] t[j] is Mul) || t[j] is Square by {
        assert(t[j] == sm[j - 1]);
    }
}

/// The plan for the first `m` values: for each, its input, registered as
/// public, then its power by the strategy of its gene, registered as
/// public.
pub open spec fn exp_plan_spec(genes: Seq<u8>, m: nat, k: u64) -> Seq<Step>
    decreases m,
{
    if m == 0 {
        Seq::empty()
    } else {
        let prev = exp_plan_spec(genes, (m - 1) as nat, k);
        let x = prev.len() as usize;
        let g = genes[m - 1];
        prev.push(Step::Input).push(Step::Public(x)) + power_steps(x, g, k, prev.len() + 2).push(
            Step::Public(power_out(x, g, k, prev.len() + 2)),
        )
    }
}

/// The genes select a strategy for each of the first `n` values.
pub open spec fn exp_genes_ok(genes: Seq<u8>, n: nat) -> bool {
    genes.len() >= n && forall|i: int| 0 <= i < n ==> (#[trigger] genes[i]) < N_STRATEGIES
}

/// Appending one value to a plan for the first `i` values (its input,
/// registered, its power in arithmetic steps, registered) gives a plan for
/// the first `i + 1` values.
proof fn lemma_value_appended(s1: Seq<Step>, s4: Seq<Step>, x: usize, y: usize, i: nat, k: u64)
    requires
        x == s1.len(),
        input_count(s1) == i,
        extends_arith(s1.push(Step::Input).push(Step::Public(x)), s4),
        y < s4.len(),
        forall|inputs: Seq<u64>|
            #[trigger] wire_values(s4, inputs)[y as int] == reduce(
                pow(wire_values(s1.push(Step::Input).push(Step::Public(x)), inputs)[x as int], k as nat),
            ),
        forall|inputs: Seq<u64>|
            #[trigger] public_outputs(s1, inputs) == exp_reference(inputs, i, k) && constraints_hold(s1, inputs),
    ensures
        input_count(s4.push(Step::Public(y))) == i + 1,
        forall|inputs: Seq<u64>|
            #[trigger] public_outputs(s4.push(Step::Public(y)), inputs) == exp_reference(inputs, i + 1, k)
                && constraints_hold(s4.push(Step::Public(y)), inputs),
{
    let s2 = s1.push(Step::Input);
    let s3 = s2.push(Step::Public(x));
    let s5 = s4.push(Step::Public(y));
    assert forall|inputs: Seq<u64>|
        #[trigger] public_outputs(s5, inputs) == exp_reference(inputs, i + 1, k) && constraints_hold(
            s5,
            inputs,
        ) by {
        lemma_push_step(s1, Step::Input, inputs);
        lemma_push_step(s2, Step::Public(x), inputs);
        lemma_push_step(s4, Step::Public(y), inputs);
        lemma_wire_len(s1, inputs);
        lemma_wire_len(s2, inputs);
        lemma_wire_len(s3, inputs);
        let xv = reduce(inputs[i as int] as int);
        assert(wire_values(s2, inputs)[x as int] == xv);
        assert(wire_values(s3, inputs)[x as int] == xv);
        assert(wire_values(s4, inputs)[y as int] == reduce(pow(xv, k as nat)));
        assert(wire_values(s4, inputs) == wire_values(s4, inputs));
        assert(public_outputs(s4, inputs) == public_outputs(s3, inputs));
        let r = exp_reference(inputs, i + 1, k);
        assert(public_outputs(s5, inputs) =~= r) by {
            let po = public_outputs(s5, inputs);
            assert(po == exp_reference(inputs, i, k).push(xv).push(reduce(pow(xv, k as nat))));
            assert forall|j: int| 0 <= j < r.len() implies po[j] == r[j] by {
                if j < 2 * i {
                    assert(po[j] == exp_reference(inputs, i, k)[j]);
                } else if j == 2 * i {
                    assert(j / 2 == i && j % 2 == 0);
                } else {
                    assert(j / 2 == i && j % 2 == 1);
                }
            }
        }
        assert(constraints_hold(s4, inputs) == constraints_hold(s3, inputs));
    }
    lemma_push_step(s1, Step::Input, Seq::empty());
    lemma_push_step(s2, Step::Public(x), Seq::empty());
    lemma_push_step(s4, Step::Public(y), Seq::empty());
    assert(input_count(s4) == input_count(s3)) by {
        assert(wire_values(s4, Seq::<u64>::empty()) == wire_values(s4, Seq::<u64>::empty()));
    }
}

impl Exponentiation {
    /// An exponentiation benchmark; the exponent must be at least 1.
    pub fn new(num_values: usize, exponent: u64) -> (e: Self)
        requires
            exponent >= 1,
        ensures
            e.num_values == num_values,
            e.exponent == exponent,
    {
        Exponentiation { num_values, exponent }
    }

    /// Human-readable benchmark name.
    pub fn name(&self) -> (s: &'static str)
        ensures
            s@ == "exponentiation"@,
    {
        "exponentiation"
    }

    /// One gene per value, each with three strategies.
    pub fn strategy_space(&self) -> (s: Vec<usize>)
        ensures
            s@ == Seq::new(self.num_values as nat, |i: int| N_STRATEGIES),
    {
        let mut s: Vec<usize> = Vec::new();
        for i in 0..self.num_values
            invariant
                s@ == Seq::new(i as nat, |j: int| N_STRATEGIES),
        {
            s.push(N_STRATEGIES);
            assert(s@ =~= Seq::new((i + 1) as nat, |j: int| N_STRATEGIES));
        }
        s
    }

    /// Emit `x^exponent` into the plan by the strategy `gene`, returning the
    /// result wire. Only arithmetic steps are added.
    #[verifier::spinoff_prover]
    fn power(&self, steps: &mut Vec<Step>, x: usize, gene: u8) -> (y: usize)
        requires
            self.exponent >= 1,
            gene < N_STRATEGIES,
            x < old(steps)@.len(),
            plan_well_formed(old(steps)@),
        ensures
            final(steps)@ == old(steps)@ + power_steps(x, gene, self.exponent, old(steps)@.len()),
            y == power_out(x, gene, self.exponent, old(steps)@.len()),
            extends_arith(old(steps)@, final(steps)@),
            plan_well_formed(final(steps)@),
            y < final(steps)@.len(),
            forall|inputs: Seq<u64>|
                #[trigger] wire_values(final(steps)@, inputs)[y as int] == reduce(
                    pow(wire_values(old(steps)@, inputs)[x as int], self.exponent as nat),
                ),
    {
        let ghost s0 = steps@;
        let k = self.exponent;
        proof {
            lemma_extends_refl(s0);
        }
        if gene == 0 {
            let y = emit(steps, Step::Exp(x, k));
            proof {
                assert(steps@ =~= s0 + power_steps(x, gene, k, s0.len()));
                lemma_extends_push(s0, s0, Step::Exp(x, k));
                assert forall|inputs: Seq<u64>|
                    #[trigger] wire_values(steps@, inputs)[y as int] == reduce(
                        pow(wire_values(s0, inputs)[x as int], k as nat),
                    ) by {
                    lemma_push_step(s0, Step::Exp(x, k), inputs);
                    lemma_wire_len(s0, inputs);
                }
            }
            y
        } else if gene == 1 {
            // Naive: x * x * ... * x  (exponent - 1 multiplications).
            let mut acc = x;
            proof {
                assert forall|inputs: Seq<u64>|
                    #[trigger] wire_values(s0, inputs)[acc as int] == reduce(
                        pow(wire_values(s0, inputs)[x as int], 1),
                    ) by {
                    lemma_wire_values(s0, inputs);
                    vstd::arithmetic::power::lemma_pow1(wire_values(s0, inputs)[x as int]);
                    vstd::arithmetic::div_mod::lemma_small_mod(
                        wire_values(s0, inputs)[x as int] as nat,
                        ORDER as nat,
                    );
                }
            }
            for i in 1..k
                invariant
                    k == self.exponent,
                    x < s0.len(),
                    plan_well_formed(s0),
                    plan_well_formed(steps@),
                    extends_arith(s0, steps@),
                    acc < steps@.len(),
                    steps@ == s0 + naive_steps(x, s0.len(), (i - 1) as nat),
                    acc == if i == 1 { x } else { (s0.len() + i - 2) as usize },
                    forall|inputs: Seq<u64>|
                        #[trigger] wire_values(steps@, inputs)[acc as int] == reduce(
                            pow(wire_values(s0, inputs)[x as int], i as nat),
                        ),
            {
                let ghost s1 = steps@;
                let a0 = acc;
                acc = emit(steps, Step::Mul(a0, x));
                proof {
                    assert(steps@ =~= s0 + naive_steps(x, s0.len(), i as nat)) by {
                        let ns = naive_steps(x, s0.len(), i as nat);
                        assert forall|j: int| 0 <= j < steps@.len() implies steps@[j] == (s0 + ns)[j] by {
                            if j < s1.len() {
                                assert(steps@[j] == s1[j]);
                            }
                        }
                    }
                    lemma_extends_push(s0, s1, Step::Mul(a0, x));
                    assert forall|inputs: Seq<u64>|
                        #[trigger] wire_values(steps@, inputs)[acc as int] == reduce(
                            pow(wire_values(s0, inputs)[x as int], (i + 1) as nat),
                        ) by {
                        let v = wire_values(s0, inputs)[x as int];
                        lemma_push_step(s1, Step::Mul(a0, x), inputs);
                        lemma_wire_len(s1, inputs);
                        lemma_wire_len(s0, inputs);
                        assert(wire_values(s1, inputs).subrange(0, s0.len() as int) == wire_values(s0, inputs));
                        assert(wire_values(s1, inputs)[x as int] == v);
                        lemma_wire_values(s0, inputs);
                        lemma_reduce_mul(pow(v, i as nat), v);
                        vstd::arithmetic::div_mod::lemma_small_mod(v as nat, ORDER as nat);
                        vstd::arithmetic::div_mod::lemma_mod_twice(pow(v, i as nat), ORDER as int);
                        vstd::arithmetic::power::lemma_pow_adds(v, i as nat, 1);
                        vstd::arithmetic::power::lemma_pow1(v);
                    }
                }
            }
            proof {
                if k == 1 {
                    assert(steps@ =~= s0 + power_steps(x, gene, k, s0.len()));
                }
            }
            acc
        } else {
            // Square-and-multiply (left-to-right binary exponentiation).
            let mut result = emit(steps, Step::Constant(1));
            proof {
                lemma_extends_push(s0, s0, Step::Constant(1));
            }
            let mut base = x;
            let mut e: u64 = k;
            let ghost target = s0.push(Step::Constant(1)) + sm_steps(s0.len() as usize, x, k, s0.len() + 1);
            let ghost out = sm_out(s0.len() as usize, x, k, s0.len() + 1);
            proof {
                assert(steps@ + sm_steps(result, base, e, steps@.len() as nat) =~= target);
                assert forall|inputs: Seq<u64>|
                    #[trigger] reduce(
                        wire_values(steps@, inputs)[result as int] * pow(
                            wire_values(steps@, inputs)[base as int],
                            e as nat,
                        ),
                    ) == reduce(pow(wire_values(s0, inputs)[x as int], k as nat)) by {
                    lemma_push_step(s0, Step::Constant(1), inputs);
                    lemma_wire_len(s0, inputs);
                    vstd::arithmetic::div_mod::lemma_small_mod(1, ORDER as nat);
                    let w = wire_values(steps@, inputs);
                    assert(w == wire_values(s0, inputs).push(reduce(1)));
                    assert(w[result as int] == 1);
                    assert(w[x as int] == wire_values(s0, inputs)[x as int]);
                    let p = pow(w[base as int], e as nat);
                    assert(1 * p == p);
                }
            }
            while e > 0
                invariant
                    k == self.exponent,
                    x < s0.len(),
                    plan_well_formed(s0),
                    plan_well_formed(steps@),
                    extends_arith(s0, steps@),
                    result < steps@.len(),
                    base < steps@.len(),
                    steps@ + sm_steps(result, base, e, steps@.len() as nat) == target,
                    sm_out(result, base, e, steps@.len() as nat) == out,
                    forall|inputs: Seq<u64>|
                        #[trigger] reduce(
                            wire_values(steps@, inputs)[result as int] * pow(
                                wire_values(steps@, inputs)[base as int],
                                e as nat,
                            ),
                        ) == reduce(pow(wire_values(s0, inputs)[x as int], k as nat)),
                decreases e,
            {
                let ghost s1 = steps@;
                let r0w = result;
                let b0w = base;
                let ghost e0 = e;
                let half: u64 = e / 2;
                let odd = e % 2 == 1;
                let ghost n0 = steps@.len() as nat;
                if odd {
                    result = emit(steps, Step::Mul(r0w, b0w));
                    proof {
                        lemma_extends_push(s0, s1, Step::Mul(r0w, b0w));
                    }
                }
                let ghost s2 = steps@;
                e = half;
                if e > 0 {
                    base = emit(steps, Step::Square(b0w));
                    proof {
                        lemma_extends_push(s0, s2, Step::Square(b0w));
                    }
                }
                proof {
                    let m = if odd { seq![Step::Mul(r0w, b0w)] } else { Seq::<Step>::empty() };
                    assert(s2 =~= s1 + m);
                    if e > 0 {
                        assert(steps@ =~= s1 + m.push(Step::Square(b0w)));
                        assert(steps@ + sm_steps(result, base, e, steps@.len() as nat) =~= s1 + sm_steps(r0w, b0w, e0, n0));
                    } else {
                        assert(steps@ =~= s1 + sm_steps(r0w, b0w, e0, n0));
                    }
                    assert forall|inputs: Seq<u64>|
                        #[trigger] reduce(
                            wire_values(steps@, inputs)[result as int] * pow(
                                wire_values(steps@, inputs)[base as int],
                                e as nat,
                            ),
                        ) == reduce(pow(wire_values(s0, inputs)[x as int], k as nat)) by {
                        lemma_wire_len(s1, inputs);
                        lemma_wire_len(s2, inputs);
                        lemma_wire_values(s1, inputs);
                        let w1 = wire_values(s1, inputs);
                        let r0 = w1[r0w as int];
                        let b0 = w1[b0w as int];
                        let target = reduce(pow(wire_values(s0, inputs)[x as int], k as nat));
                        assert(reduce(r0 * pow(b0, e0 as nat)) == target);
                        lemma_pow_split(b0, half as nat);
                        let rr = if odd { r0 * b0 } else { r0 };
                        let q = pow(b0 * b0, half as nat);
                        if odd {
                            assert(e0 == 2 * half + 1);
                            assert(r0 * (b0 * q) == (r0 * b0) * q) by (nonlinear_arith);
                        } else {
                            assert(e0 == 2 * half);
                        }
                        assert(reduce(rr * q) == target);
                        lemma_reduce_step(rr, b0 * b0, half as nat);
                        let w2 = wire_values(s2, inputs);
                        if odd {
                            lemma_push_step(s1, Step::Mul(r0w, b0w), inputs);
                            assert(w2[result as int] == reduce(r0 * b0));
                            assert(w2[b0w as int] == b0);
                        } else {
                            vstd::arithmetic::div_mod::lemma_small_mod(r0 as nat, ORDER as nat);
                            assert(w2[result as int] == reduce(rr));
                        }
                        let w3 = wire_values(steps@, inputs);
                        if e > 0 {
                            lemma_push_step(s2, Step::Square(b0w), inputs);
                            assert(w3[base as int] == reduce(b0 * b0));
                            assert(w3[result as int] == w2[result as int]);
                        } else {
                            vstd::arithmetic::power::lemma_pow0(b0 * b0);
                            vstd::arithmetic::power::lemma_pow0(reduce(b0 * b0));
                            vstd::arithmetic::power::lemma_pow0(w3[base as int]);
                        }
                    }
                }
            }
            proof {
                assert(steps@ =~= s0 + power_steps(x, gene, k, s0.len()));
                assert forall|inputs: Seq<u64>|
                    #[trigger] wire_values(steps@, inputs)[result as int] == reduce(
                        pow(wire_values(s0, inputs)[x as int], k as nat),
                    ) by {
                    let w = wire_values(steps@, inputs);
                    lemma_wire_values(steps@, inputs);
                    vstd::arithmetic::power::lemma_pow0(w[base as int]);
                    vstd::arithmetic::div_mod::lemma_small_mod(w[result as int] as nat, ORDER as nat);
                    assert(reduce(w[result as int] * pow(w[base as int], 0)) == reduce(pow(wire_values(s0, inputs)[x as int], k as nat)));
                }
            }
            result
        }
    }

    /// The circuit plan for `chrom`: for each value `i`, a private input
    /// `x_i`, registered as public, then `x_i^k` by the strategy of gene `i`,
    /// registered as public. Law: whatever the strategies, the public inputs
    /// are `(x_i, x_i^k)` interleaved and the circuit has no other
    /// constraint.
    pub fn plan(&self, chrom: &Chromosome) -> (p: CircuitPlan)
        requires
            self.exponent >= 1,
            exp_genes_ok(chrom.genes@, self.num_values as nat),
        ensures
            p.steps@ == exp_plan_spec(chrom.genes@, self.num_values as nat, self.exponent),
            plan_well_formed(p.steps@),
            input_count(p.steps@) == self.num_values,
            forall|inputs: Seq<u64>|
                #[trigger] public_outputs(p.steps@, inputs) == exp_reference(
                    inputs,
                    self.num_values as nat,
                    self.exponent,
                ) && constraints_hold(p.steps@, inputs),
    {
        let n = self.num_values;
        let k = self.exponent;
        let mut steps: Vec<Step> = Vec::new();
        proof {
            assert forall|inputs: Seq<u64>|
                #[trigger] public_outputs(steps@, inputs) == exp_reference(inputs, 0, k) && constraints_hold(
                    steps@,
                    inputs,
                ) by {
                assert(exp_reference(inputs, 0, k) =~= Seq::<int>::empty());
            }
        }
        for i in 0..n
            invariant
                n == self.num_values,
                k == self.exponent,
                k >= 1,
                exp_genes_ok(chrom.genes@, n as nat),
                steps@ == exp_plan_spec(chrom.genes@, i as nat, k),
                plan_well_formed(steps@),
                input_count(steps@) == i,
                forall|inputs: Seq<u64>|
                    #[trigger] public_outputs(steps@, inputs) == exp_reference(inputs, i as nat, k)
                        && constraints_hold(steps@, inputs),
        {
            let ghost s1 = steps@;
            let x = emit(&mut steps, Step::Input);
            emit(&mut steps, Step::Public(x));
            let ghost s3 = steps@;
            let y = self.power(&mut steps, x, chrom.genes[i]);
            let ghost s4 = steps@;
            emit(&mut steps, Step::Public(y));
            proof {
                assert(steps@ =~= exp_plan_spec(chrom.genes@, (i + 1) as nat, k)) by {
                    assert(s3 =~= s1.push(Step::Input).push(Step::Public(x)));
                }
                lemma_value_appended(s1, s4, x, y, i as nat, k);
            }
        }
        CircuitPlan { steps }
    }

    /// The public inputs a correct proof exposes for canonical `inputs`:
    /// `(x_i, x_i^k)` interleaved.
    pub fn reference_public_inputs(&self, inputs: &Vec<u64>) -> (r: Vec<u64>)
        requires
            forall|i: int| 0 <= i < inputs@.len() ==> (#[trigger] inputs@[i]) < ORDER,
        ensures
            r@.len() == 2 * inputs@.len(),
            forall|j: int|
                0 <= j < r@.len() ==> (#[trigger] r@[j]) as int == exp_reference(
                    inputs@,
                    inputs@.len(),
                    self.exponent,
                )[j],
    {
        let mut out: Vec<u64> = Vec::new();
        let n = inputs.len();
        for i in 0..n
            invariant
                n == inputs@.len(),
                forall|a: int| 0 <= a < inputs@.len() ==> (#[trigger] inputs@[a]) < ORDER,
                out@.len() == 2 * i,
                forall|j: int|
                    0 <= j < out@.len() ==> (#[trigger] out@[j]) as int == exp_reference(
                        inputs@,
                        n as nat,
                        self.exponent,
                    )[j],
        {
            let x = inputs[i];
            let ghost before = out@;
            out.push(x);
            out.push(field_pow(x, self.exponent));
            proof {
                vstd::arithmetic::div_mod::lemma_small_mod(x as nat, ORDER as nat);
                assert forall|j: int|
                    0 <= j < out@.len() implies (#[trigger] out@[j]) as int == exp_reference(
                        inputs@,
                        n as nat,
                        self.exponent,
                    )[j] by {
                    if j < 2 * i {
                        assert(out@[j] == before[j]);
                    } else if j == 2 * i {
                        assert(j / 2 == i && j % 2 == 0);
                    } else {
                        assert(j / 2 == i && j % 2 == 1);
                    }
                }
            }
        }
        out
    }

    /// Random private inputs: one value below `2^63` (so below the field
    /// order) per circuit value.
    pub fn random_inputs(&self, rng: &mut ChaCha8Rng) -> (r: Vec<u64>)
        ensures
            r@.len() == self.num_values,
            forall|i: int| 0 <= i < r@.len() ==> (#[trigger] r@[i]) < 0x8000_0000_0000_0000u64,
    {
        let mut out: Vec<u64> = Vec::new();
        for i in 0..self.num_values
            invariant
                out@.len() == i,
                forall|j: int| 0 <= j < out@.len() ==> (#[trigger] out@[j]) < 0x8000_0000_0000_0000u64,
        {
            let v = next_u64(rng);
            let h = v >> 1u64;
            assert(v >> 1u64 < 0x8000_0000_0000_0000u64) by (bit_vector);
            out.push(h);
        }
        out
    }
}

} // verus!
