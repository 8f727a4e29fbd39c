//! Rewrite-sequence benchmark: evaluate a fixed polynomial via an expression
//! DAG, and let the chromosome be a sequence of rewrite rules applied to it.
//!
//! The base expression is `P(x) = Σ_{i=0}^{degree} xⁱ`, with each `xⁱ` an
//! unexpanded power node. A chromosome is a fixed-length sequence of rule
//! indices (gene `0` = no-op); rules are applied left to right. Because the
//! rules are non-confluent, different sequences reach different circuits,
//! and the circuit's trace length is the cost being minimised: an
//! addition-chain and common-sub-expression search that is genuinely
//! multi-modal.
use vstd::prelude::*;
use vstd::arithmetic::power::pow;
use std::rc::Rc;
use rand_chacha::ChaCha8Rng;
use crate::circuits::plan::{
    Step, CircuitPlan, emit, wire_values, public_outputs, input_count, constraints_hold, plan_well_formed,
    extends_arith, lemma_push_step, lemma_wire_len,
};
use crate::field::{ORDER, reduce};
use crate::rewrite::ir::{Expr, Node, eval, weight, exps_positive, subterms, constant, input, eval_field, to_circuit};
use crate::rewrite::rules::{
    NUM_RULES, FACTOR_LIMIT, apply_sequence, apply_sequence_spec, weight_bounded, lemma_apply_sequence_preserves, lemma_bounded_sequence_safe,
};
use crate::rng::next_u64;
use crate::strategy::Chromosome;

verus! {

/// Polynomial-evaluation rewrite benchmark.
pub struct PolyRewrite {
    /// Degree of `P(x) = Σ xⁱ`.
    pub degree: usize,
    /// Number of rewrite-rule slots in a chromosome.
    pub seq_len: usize,
}

/// The base expression `1 + x + x^2 + ... + x^d` (for `d >= 1`), summed left
/// to right, each `x^i` for `i >= 2` an unexpanded power.
pub open spec fn poly_base(d: nat) -> Expr
    decreases d,
{
    if d <= 1 {
        Expr::Add(Rc::new(Expr::Const(1)), Rc::new(Expr::Input))
    } else {
        Expr::Add(Rc::new(poly_base((d - 1) as nat)), Rc::new(Expr::Pow(Rc::new(Expr::Input), d as u64)))
    }
}

/// `Σ_{i=0}^{d} x^i` over the integers.
pub open spec fn power_sum(x: int, d: nat) -> int
    decreases d,
{
    if d == 0 {
        1
    } else {
        power_sum(x, (d - 1) as nat) + pow(x, d)
    }
}

/// Law: the base expression is the power sum, its weight is its degree and
/// its exponents are positive.
pub proof fn lemma_poly_base(d: nat, x: int)
    requires
        1 <= d <= u64::MAX,
    ensures
        eval(poly_base(d), x) == power_sum(x, d),
        weight(poly_base(d)) == d,
        exps_positive(poly_base(d)),
    decreases d,
{
    assert(eval(Expr::Input, x) == x);
    assert(eval(Expr::Const(1), x) == 1);
    assert(exps_positive(Expr::Input));
    assert(exps_positive(Expr::Const(1)));
    assert(weight(Expr::Input) == 1);
    assert(weight(Expr::Const(1)) == 1);
    if d <= 1 {
        vstd::arithmetic::power::lemma_pow1(x);
        vstd::arithmetic::power::lemma_pow0(x);
        assert(power_sum(x, 0) == 1);
    } else {
        lemma_poly_base((d - 1) as nat, x);
        assert((d as u64) as nat == d);
        let p = Expr::Pow(Rc::new(Expr::Input), d as u64);
        assert(eval(Expr::Input, x) == x);
        assert(weight(Expr::Input) == 1);
        assert(eval(p, x) == pow(x, d));
        assert(weight(p) == d * 1);
        assert(eval(poly_base(d), x) == eval(poly_base((d - 1) as nat), x) + eval(p, x));
        assert(exps_positive(p));
        assert(weight(poly_base(d)) == if weight(poly_base((d - 1) as nat)) >= weight(p) {
            weight(poly_base((d - 1) as nat))
        } else {
            weight(p)
        });
    }
}

impl PolyRewrite {
    /// A rewrite benchmark; the degree must be at least 2 and the sequence
    /// at least one rule long.
    pub fn new(degree: usize, seq_len: usize) -> (p: Self)
        requires
            degree >= 2,
            seq_len >= 1,
        ensures
            p.degree == degree,
            p.seq_len == seq_len,
    {
        PolyRewrite { degree, seq_len }
    }

    /// Human-readable benchmark name.
    pub fn name(&self) -> (s: &'static str)
        ensures
            s@ == "poly_rewrite"@,
    {
        "poly_rewrite"
    }

    /// One gene per rule slot, each with the whole rule alphabet.
    pub fn strategy_space(&self) -> (s: Vec<usize>)
        ensures
            s@ == Seq::new(self.seq_len as nat, |i: int| NUM_RULES),
    {
        let mut s: Vec<usize> = Vec::new();
        for i in 0..self.seq_len
            invariant
                s@ == Seq::new(i as nat, |j: int| NUM_RULES),
        {
            s.push(NUM_RULES);
            assert(s@ =~= Seq::new((i + 1) as nat, |j: int| NUM_RULES));
        }
        s
    }

    /// The base expression `Σ_{i=0}^{degree} xⁱ` before any rewriting.
    pub fn base(&self) -> (n: Node)
        requires
            self.degree >= 1,
        ensures
            *n == poly_base(self.degree as nat),
    {
        let mut acc = constant(1);  // x^0
        acc = crate::rewrite::ir::add(acc, input());  // x^1
        let d = self.degree;
        let mut i: usize = 1;
        while i < d
            invariant
                1 <= i <= d,
                d == self.degree,
                *acc == poly_base(i as nat),
            decreases d - i,
        {
            i = i + 1;
            acc = crate::rewrite::ir::add(acc, crate::rewrite::ir::pow(input(), i as u64));
        }
        acc
    }

    /// The circuit plan for `chrom`: the private input `x`, registered as
    /// public, then the base expression rewritten by the chromosome's rules
    /// and emitted with shared sub-expressions, registered as public: three
    /// steps plus one per distinct sub-expression other than `x`.
    /// Law: whatever the rules, the public inputs are `x` and `P(x)`.
    pub fn plan(&self, chrom: &Chromosome) -> (p: CircuitPlan)
        requires
            2 <= self.degree < FACTOR_LIMIT,
        ensures
            p.steps@.len() == 3 + subterms(
                apply_sequence_spec(chrom.genes@, poly_base(self.degree as nat)),
            ).remove(Expr::Input).len(),
            plan_well_formed(p.steps@),
            input_count(p.steps@) == 1,
            forall|inputs: Seq<u64>|
                #[trigger] public_outputs(p.steps@, inputs) == seq![
                    reduce(inputs[0] as int),
                    reduce(eval(poly_base(self.degree as nat), reduce(inputs[0] as int))),
                ],
            forall|inputs: Seq<u64>| #[trigger] constraints_hold(p.steps@, inputs),
    {
        let base = self.base();
        proof {
            lemma_poly_base(self.degree as nat, 0);
            lemma_bounded_sequence_safe(chrom.genes@, poly_base(self.degree as nat));
        }
        let expr = apply_sequence(&chrom.genes, &base);
        let mut steps: Vec<Step> = Vec::new();
        let x = emit(&mut steps, Step::Input);
        let ghost s1 = steps@;
        emit(&mut steps, Step::Public(x));
        let ghost s2 = steps@;
        let y = to_circuit(&expr, &mut steps, x);
        let ghost s3 = steps@;
        emit(&mut steps, Step::Public(y));
        proof {
            lemma_push_step(Seq::empty(), Step::Input, Seq::empty());
            assert(Seq::<Step>::empty().push(Step::Input) == s1);
            lemma_push_step(s1, Step::Public(x), Seq::empty());
            lemma_push_step(s3, Step::Public(y), Seq::empty());
            assert(extends_arith(s2, s3));
            assert(input_count(s3) == input_count(s2)) by {
                assert(wire_values(s3, Seq::<u64>::empty()) == wire_values(s3, Seq::<u64>::empty()));
            }
            assert forall|inputs: Seq<u64>|
                #[trigger] public_outputs(steps@, inputs) == seq![
                    reduce(inputs[0] as int),
                    reduce(eval(poly_base(self.degree as nat), reduce(inputs[0] as int))),
                ] && constraints_hold(steps@, inputs) by {
                lemma_push_step(Seq::empty(), Step::Input, inputs);
                lemma_push_step(s1, Step::Public(x), inputs);
                lemma_push_step(s3, Step::Public(y), inputs);
                lemma_wire_len(s1, inputs);
                lemma_wire_len(s2, inputs);
                let xv = reduce(inputs[0] as int);
                assert(wire_values(s1, inputs)[x as int] == xv);
                assert(wire_values(s2, inputs)[x as int] == xv);
                assert(wire_values(s3, inputs)[y as int] == reduce(eval(*expr, xv)));
                lemma_apply_sequence_preserves(chrom.genes@, poly_base(self.degree as nat), xv);
                assert(public_outputs(s3, inputs) == public_outputs(s2, inputs));
                assert(constraints_hold(s3, inputs) == constraints_hold(s2, inputs));
                assert(public_outputs(steps@, inputs) =~= seq![
                    reduce(inputs[0] as int),
                    reduce(eval(poly_base(self.degree as nat), reduce(inputs[0] as int))),
                ]);
            }
            assert forall|inputs: Seq<u64>| #[trigger] constraints_hold(steps@, inputs) by {
                lemma_push_step(Seq::empty(), Step::Input, inputs);
                lemma_push_step(s1, Step::Public(x), inputs);
                lemma_push_step(s3, Step::Public(y), inputs);
                assert(constraints_hold(s3, inputs) == constraints_hold(s2, inputs));
            }
        }
        CircuitPlan { steps }
    }

    /// The public inputs a correct proof exposes for the canonical input
    /// `inputs[0]`: `x` and `P(x)`.
    pub fn reference_public_inputs(&self, inputs: &Vec<u64>) -> (r: Vec<u64>)
        requires
            self.degree >= 1,
            inputs@.len() >= 1,
            inputs@[0] < ORDER,
        ensures
            r@.len() == 2,
            r@[0] == inputs@[0],
            r@[1] == reduce(eval(poly_base(self.degree as nat), inputs@[0] as int)),
    {
        let x = inputs[0];
        let base = self.base();
        let y = eval_field(&base, x);
        let mut out: Vec<u64> = Vec::new();
        out.push(x);
        out.push(y);
        out
    }

    /// A random private input below `2^63` (so below the field order).
    pub fn random_inputs(&self, rng: &mut ChaCha8Rng) -> (r: Vec<u64>)
        ensures
            r@.len() == 1,
            r@[0] < 0x8000_0000_0000_0000u64,
    {
        let v = next_u64(rng);
        let h = v >> 1u64;
        assert(v >> 1u64 < 0x8000_0000_0000_0000u64) by (bit_vector);
        let mut out: Vec<u64> = Vec::new();
        out.push(h);
        out
    }
}

} // verus!
