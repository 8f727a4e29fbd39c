//! Straight-line circuit plans.
//!
//! A [`CircuitPlan`] is the list of circuit-builder operations that a
//! factory performs for a chromosome, in order. Every step yields one wire;
//! operands name earlier wires by index. Compiling a plan performs the same
//! operations on a circuit builder. The semantics below give the value of
//! every wire in the base field for given private inputs, the public inputs
//! the circuit exposes, and whether its range constraints hold.
use vstd::prelude::*;
use vstd::arithmetic::power::pow;
use crate::field::{ORDER, reduce, field_add, field_mul, field_pow};

verus! {

/// One circuit-builder operation.
#[derive(Clone, Copy, Debug, PartialEq, Eq, Structural)]
pub enum Step {
    /// A new private input (a virtual target set by the witness).
    Input,
    /// Register wire `t` as the next public input; yields `t`'s value.
    Public(usize),
    /// The field constant `c`.
    Constant(u64),
    Add(usize, usize),
    Mul(usize, usize),
    Square(usize),
    /// `t^k` through the exponentiation gadget.
    Exp(usize, u64),
    /// Decompose wire `t` into `limbs` little-endian limbs of base `base`,
    /// each range-checked, which constrains `t` below `base^limbs`; yields
    /// `t`'s value.
    Split(usize, usize, usize),
}

/// The operations of a circuit, in order.
pub struct CircuitPlan {
    pub steps: Vec<Step>,
}

/// Every operand names an earlier wire.
pub open spec fn step_well_formed(s: Step, i: int) -> bool {
    match s {
        Step::Input => true,
        Step::Public(t) => t < i,
        Step::Constant(_) => true,
        Step::Add(a, b) => a < i && b < i,
        Step::Mul(a, b) => a < i && b < i,
        Step::Square(a) => a < i,
        Step::Exp(a, _) => a < i,
        Step::Split(t, _, _) => t < i,
    }
}

/// Every step of the plan refers only to earlier wires.
pub open spec fn plan_well_formed(steps: Seq<Step>) -> bool {
    forall|i: int| 0 <= i < steps.len() ==> step_well_formed(#[trigger] steps[i], i)
}

/// Number of private inputs the plan reads.
pub open spec fn input_count(steps: Seq<Step>) -> nat
    decreases steps.len(),
{
    if steps.len() == 0 {
        0
    } else {
        input_count(steps.drop_last()) + if steps.last() is Input {
            1nat
        } else {
            0nat
        }
    }
}

/// The value of the wire of step `s`, given the earlier wire values and the
/// index of the next private input.
pub open spec fn step_value(s: Step, vals: Seq<int>, next_input: nat, inputs: Seq<u64>) -> int {
    match s {
        Step::Input => reduce(inputs[next_input as int] as int),
        Step::Public(t) => vals[t as int],
        Step::Constant(c) => reduce(c as int),
        Step::Add(a, b) => reduce(vals[a as int] + vals[b as int]),
        Step::Mul(a, b) => reduce(vals[a as int] * vals[b as int]),
        Step::Square(a) => reduce(vals[a as int] * vals[a as int]),
        Step::Exp(a, k) => reduce(pow(vals[a as int], k as nat)),
        Step::Split(t, _, _) => vals[t as int],
    }
}

/// The field values of all wires for the private `inputs`.
pub open spec fn wire_values(steps: Seq<Step>, inputs: Seq<u64>) -> Seq<int>
    decreases steps.len(),
{
    if steps.len() == 0 {
        Seq::empty()
    } else {
        let prev = steps.drop_last();
        let vals = wire_values(prev, inputs);
        vals.push(step_value(steps.last(), vals, input_count(prev), inputs))
    }
}

/// The public inputs the circuit exposes, in registration order.
pub open spec fn public_outputs(steps: Seq<Step>, inputs: Seq<u64>) -> Seq<int>
    decreases steps.len(),
{
    if steps.len() == 0 {
        Seq::empty()
    } else {
        let prev = steps.drop_last();
        match steps.last() {
            Step::Public(t) => public_outputs(prev, inputs).push(wire_values(prev, inputs)[t as int]),
            _ => public_outputs(prev, inputs),
        }
    }
}

/// Every range constraint of the plan holds for the private `inputs`.
pub open spec fn constraints_hold(steps: Seq<Step>, inputs: Seq<u64>) -> bool
    decreases steps.len(),
{
    if steps.len() == 0 {
        true
    } else {
        let prev = steps.drop_last();
        constraints_hold(prev, inputs) && match steps.last() {
            Step::Split(t, base, limbs) => wire_values(prev, inputs)[t as int] < pow(base as int, limbs as nat),
            _ => true,
        }
    }
}

/// Appending a step extends the wire values, the input count, the public
/// inputs and the constraints by that step alone.
pub proof fn lemma_push_step(steps: Seq<Step>, s: Step, inputs: Seq<u64>)
    ensures
        wire_values(steps.push(s), inputs) == wire_values(steps, inputs).push(
            step_value(s, wire_values(steps, inputs), input_count(steps), inputs),
        ),
        input_count(steps.push(s)) == input_count(steps) + if s is Input {
            1nat
        } else {
            0nat
        },
        public_outputs(steps.push(s), inputs) == match s {
            Step::Public(t) => public_outputs(steps, inputs).push(wire_values(steps, inputs)[t as int]),
            _ => public_outputs(steps, inputs),
        },
        constraints_hold(steps.push(s), inputs) == (constraints_hold(steps, inputs) && match s {
            Step::Split(t, base, limbs) => wire_values(steps, inputs)[t as int] < pow(base as int, limbs as nat),
            _ => true,
        }),
{
    assert(steps.push(s).drop_last() =~= steps);
}

/// There is one wire per step, and every wire holds a field element.
pub proof fn lemma_wire_values(steps: Seq<Step>, inputs: Seq<u64>)
    requires
        plan_well_formed(steps),
    ensures
        wire_values(steps, inputs).len() == steps.len(),
        forall|i: int| 0 <= i < steps.len() ==> 0 <= #[trigger] wire_values(steps, inputs)[i] < ORDER,
    decreases steps.len(),
{
    if steps.len() > 0 {
        let prev = steps.drop_last();
        assert(plan_well_formed(prev)) by {
            assert forall|i: int| 0 <= i < prev.len() implies step_well_formed(#[trigger] prev[i], i) by {
                assert(prev[i] == steps[i]);
            }
        }
        lemma_wire_values(prev, inputs);
        assert(step_well_formed(steps[steps.len() - 1], steps.len() - 1));
    }
}

/// Append step `s` to the plan, returning its wire.
pub fn emit(steps: &mut Vec<Step>, s: Step) -> (w: usize)
    requires
        step_well_formed(s, old(steps)@.len() as int),
        plan_well_formed(old(steps)@),
    ensures
        final(steps)@ == old(steps)@.push(s),
        w == old(steps)@.len(),
        plan_well_formed(final(steps)@),
{
    let w = steps.len();
    steps.push(s);
    proof {
        assert forall|i: int| 0 <= i < steps@.len() implies step_well_formed(#[trigger] steps@[i], i) by {
            if i < w {
                assert(steps@[i] == old(steps)@[i]);
            }
        }
    }
    w
}

/// `after` extends `before` by arithmetic steps only: the earlier wires keep
/// their values, and no input, public input or constraint is added.
pub open spec fn extends_arith(before: Seq<Step>, after: Seq<Step>) -> bool {
    &&& before.len() <= after.len()
    &&& after.subrange(0, before.len() as int) == before
    &&& forall|inputs: Seq<u64>|
        #![trigger wire_values(after, inputs)]
        {
            &&& wire_values(after, inputs).subrange(0, before.len() as int) == wire_values(before, inputs)
            &&& input_count(after) == input_count(before)
            &&& public_outputs(after, inputs) == public_outputs(before, inputs)
            &&& constraints_hold(after, inputs) == constraints_hold(before, inputs)
        }
}

/// Pushing an arithmetic step extends the plan arithmetically.
pub proof fn lemma_extends_push(before: Seq<Step>, mid: Seq<Step>, s: Step)
    requires
        extends_arith(before, mid),
        !(s is Input),
        !(s is Public),
        !(s is Split),
    ensures
        extends_arith(before, mid.push(s)),
{
    let after = mid.push(s);
    assert(after.subrange(0, before.len() as int) =~= before) by {
        assert(mid.subrange(0, before.len() as int) == before);
        assert forall|i: int| 0 <= i < before.len() implies after.subrange(0, before.len() as int)[i] == before[i] by {
            assert(after[i] == mid[i]);
            assert(mid.subrange(0, before.len() as int)[i] == mid[i]);
        }
    }
    assert forall|inputs: Seq<u64>| #![trigger wire_values(after, inputs)]
        {
            &&& wire_values(after, inputs).subrange(0, before.len() as int) == wire_values(before, inputs)
            &&& input_count(after) == input_count(before)
            &&& public_outputs(after, inputs) == public_outputs(before, inputs)
            &&& constraints_hold(after, inputs) == constraints_hold(before, inputs)
        } by {
        lemma_push_step(mid, s, inputs);
        lemma_wire_len(mid, inputs);
        lemma_wire_len(before, inputs);
        assert(wire_values(mid, inputs).subrange(0, before.len() as int) == wire_values(before, inputs));
        let wa = wire_values(after, inputs);
        let wm = wire_values(mid, inputs);
        assert(wa.subrange(0, before.len() as int) =~= wm.subrange(0, before.len() as int)) by {
            assert forall|i: int| 0 <= i < before.len() implies wa.subrange(0, before.len() as int)[i]
                == wm.subrange(0, before.len() as int)[i] by {
                assert(wa[i] == wm[i]);
            }
        }
    }
}

/// A plan extends itself.
pub proof fn lemma_extends_refl(steps: Seq<Step>)
    ensures
        extends_arith(steps, steps),
{
    assert(steps.subrange(0, steps.len() as int) =~= steps);
    assert forall|inputs: Seq<u64>| #![trigger wire_values(steps, inputs)]
        wire_values(steps, inputs).subrange(0, steps.len() as int) == wire_values(steps, inputs) by {
        assert(wire_values(steps, inputs).len() == steps.len()) by {
            lemma_wire_len(steps, inputs);
        }
        assert(wire_values(steps, inputs).subrange(0, steps.len() as int) =~= wire_values(steps, inputs));
    }
}

/// There is one wire per step.
pub proof fn lemma_wire_len(steps: Seq<Step>, inputs: Seq<u64>)
    ensures
        wire_values(steps, inputs).len() == steps.len(),
    decreases steps.len(),
{
    if steps.len() > 0 {
        lemma_wire_len(steps.drop_last(), inputs);
    }
}

/// Arithmetic extension is transitive.
pub proof fn lemma_extends_trans(a: Seq<Step>, b: Seq<Step>, c: Seq<Step>)
    requires
        extends_arith(a, b),
        extends_arith(b, c),
    ensures
        extends_arith(a, c),
{
    assert(c.subrange(0, a.len() as int) =~= a) by {
        assert forall|i: int| 0 <= i < a.len() implies c.subrange(0, a.len() as int)[i] == a[i] by {
            assert(c.subrange(0, b.len() as int)[i] == b[i]);
            assert(b.subrange(0, a.len() as int)[i] == a[i]);
        }
    }
    assert forall|inputs: Seq<u64>| #![trigger wire_values(c, inputs)]
        {
            &&& wire_values(c, inputs).subrange(0, a.len() as int) == wire_values(a, inputs)
            &&& input_count(c) == input_count(a)
            &&& public_outputs(c, inputs) == public_outputs(a, inputs)
            &&& constraints_hold(c, inputs) == constraints_hold(a, inputs)
        } by {
        let wa = wire_values(a, inputs);
        let wb = wire_values(b, inputs);
        let wc = wire_values(c, inputs);
        lemma_wire_len(a, inputs);
        lemma_wire_len(b, inputs);
        lemma_wire_len(c, inputs);
        assert(wb.subrange(0, a.len() as int) == wa);
        assert(wc.subrange(0, b.len() as int) == wb);
        assert(wc.subrange(0, a.len() as int) =~= wa) by {
            assert forall|i: int| 0 <= i < a.len() implies wc.subrange(0, a.len() as int)[i] == wa[i] by {
                assert(wc.subrange(0, b.len() as int)[i] == wb[i]);
                assert(wb.subrange(0, a.len() as int)[i] == wa[i]);
            }
        }
    }
}

/// Whether `v < base^limbs`.
pub fn below_pow(v: u64, base: usize, limbs: usize) -> (r: bool)
    ensures
        r == (v < pow(base as int, limbs as nat)),
{
    if base == 0 {
        if limbs == 0 {
            proof {
                vstd::arithmetic::power::lemma_pow0(0);
            }
            return v < 1;
        } else {
            proof {
                vstd::arithmetic::power::lemma_pow_adds(0, 1, (limbs - 1) as nat);
                vstd::arithmetic::power::lemma_pow1(0);
                assert(pow(0, limbs as nat) == 0 * pow(0, (limbs - 1) as nat));
            }
            return false;
        }
    }
    if base == 1 {
        proof {
            vstd::arithmetic::power::lemma1_pow(limbs as nat);
        }
        return v < 1;
    }
    let mut p: u128 = 1;
    let mut l: usize = 0;
    proof {
        vstd::arithmetic::power::lemma_pow0(base as int);
    }
    while l < limbs
        invariant
            base >= 2,
            l <= limbs,
            p as int == pow(base as int, l as nat),
            p <= 0xFFFF_FFFF_FFFF_FFFFu128,
        decreases limbs - l,
    {
        if p > v as u128 {
            proof {
                vstd::arithmetic::power::lemma_pow_increases(base as nat, l as nat, limbs as nat);
            }
            return true;
        }
        proof {
            assert(p * base <= 0xFFFF_FFFF_FFFF_FFFFu128 * 0xFFFF_FFFF_FFFF_FFFFu128) by (nonlinear_arith)
                requires p <= 0xFFFF_FFFF_FFFF_FFFFu128, base <= 0xFFFF_FFFF_FFFF_FFFFu128;
            vstd::arithmetic::power::lemma_pow_adds(base as int, l as nat, 1);
            vstd::arithmetic::power::lemma_pow1(base as int);
        }
        let next: u128 = p * (base as u128);
        if next > 0xFFFF_FFFF_FFFF_FFFFu128 {
            proof {
                vstd::arithmetic::power::lemma_pow_increases(base as nat, (l + 1) as nat, limbs as nat);
            }
            return true;
        }
        p = next;
        l = l + 1;
    }
    (v as u128) < p
}

/// Evaluate the plan in the field for the private `inputs`: the public
/// inputs it exposes, and whether all its range constraints hold.
pub fn evaluate_plan(plan: &CircuitPlan, inputs: &Vec<u64>) -> (r: (Vec<u64>, bool))
    requires
        plan_well_formed(plan.steps@),
        input_count(plan.steps@) <= inputs@.len(),
    ensures
        r.0@.len() == public_outputs(plan.steps@, inputs@).len(),
        forall|j: int| 0 <= j < r.0@.len() ==> (#[trigger] r.0@[j]) as int == public_outputs(plan.steps@, inputs@)[j],
        r.1 == constraints_hold(plan.steps@, inputs@),
{
    let steps = &plan.steps;
    let n = steps.len();
    let mut vals: Vec<u64> = Vec::new();
    let mut publics: Vec<u64> = Vec::new();
    let mut ok = true;
    let mut next: usize = 0;
    let ilen = inputs.len();
    proof {
        assert(steps@.take(0) =~= Seq::<Step>::empty());
        lemma_input_count_prefix(steps@, 0);
    }
    for i in 0..n
        invariant
            n == steps@.len(),
            plan_well_formed(steps@),
            input_count(steps@) <= inputs@.len(),
            ilen == inputs@.len(),
            vals@.len() == i,
            forall|j: int| 0 <= j < i ==> (#[trigger] vals@[j]) as int == wire_values(steps@.take(i as int), inputs@)[j],
            forall|j: int| 0 <= j < i ==> (#[trigger] vals@[j]) < ORDER,
            publics@.len() == public_outputs(steps@.take(i as int), inputs@).len(),
            forall|j: int|
                0 <= j < publics@.len() ==> (#[trigger] publics@[j]) as int == public_outputs(
                    steps@.take(i as int),
                    inputs@,
                )[j],
            ok == constraints_hold(steps@.take(i as int), inputs@),
            next == input_count(steps@.take(i as int)),
    {
        let ghost pre = steps@.take(i as int);
        proof {
            assert(steps@.take(i + 1) =~= pre.push(steps@[i as int]));
            lemma_push_step(pre, steps@[i as int], inputs@);
            lemma_wire_len(pre, inputs@);
            lemma_input_count_prefix(steps@, i + 1);
            assert(step_well_formed(steps@[i as int], i as int));
        }
        let v: u64 = match steps[i] {
            Step::Input => {
                let x = inputs[next] % ORDER;
                next = next + 1;
                x
            },
            Step::Public(t) => {
                publics.push(vals[t]);
                vals[t]
            },
            Step::Constant(c) => c % ORDER,
            Step::Add(a, b) => field_add(vals[a], vals[b]),
            Step::Mul(a, b) => field_mul(vals[a], vals[b]),
            Step::Square(a) => field_mul(vals[a], vals[a]),
            Step::Exp(a, k) => field_pow(vals[a], k),
            Step::Split(t, base, limbs) => {
                if !below_pow(vals[t], base, limbs) {
                    ok = false;
                }
                vals[t]
            },
        };
        let ghost before = vals@;
        vals.push(v);
        proof {
            let wv = wire_values(steps@.take(i + 1), inputs@);
            assert forall|j: int| 0 <= j < i + 1 implies (#[trigger] vals@[j]) as int == wv[j] by {
                if j < i {
                    assert(vals@[j] == before[j]);
                }
            }
            assert forall|j: int| 0 <= j < publics@.len() implies (#[trigger] publics@[j]) as int
                == public_outputs(steps@.take(i + 1), inputs@)[j] by {
            }
        }
    }
    proof {
        assert(steps@.take(n as int) =~= steps@);
    }
    (publics, ok)
}

/// The inputs read by a prefix never exceed those read by the whole plan.
proof fn lemma_input_count_prefix(steps: Seq<Step>, i: int)
    requires
        0 <= i <= steps.len(),
    ensures
        input_count(steps.take(i)) <= input_count(steps),
    decreases steps.len() - i,
{
    if i < steps.len() {
        lemma_input_count_prefix(steps, i + 1);
        assert(steps.take(i + 1).drop_last() =~= steps.take(i));
    } else {
        assert(steps.take(i) =~= steps);
    }
}

} // verus!
