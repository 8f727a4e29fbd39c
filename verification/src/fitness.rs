//! Cost metrics of compiled circuits.
//!
//! The static metrics are read from a compiled circuit without proving; they
//! drive the evolutionary search. Measured prover cost ([`RealCost`]) is kept
//! for the final Pareto-front individuals.
use vstd::prelude::*;
use std::time::Duration;

verus! {

/// Cost metrics of a compiled circuit.
#[derive(Clone, Copy, Debug, PartialEq, Eq, Structural)]
pub struct Cost {
    /// Gate instances before power-of-two padding: the fine-grained circuit
    /// size and the primary optimisation objective.
    pub gate_count: usize,
    /// `log2` of the padded execution-trace row count.
    pub degree_bits: usize,
    /// Low-degree-extension size `2^(degree_bits + rate_bits)`.
    pub lde_size: usize,
    /// Largest number of constraints imposed by any gate in the circuit.
    pub num_gate_constraints: usize,
    /// Degree factor of the PLONK quotient polynomial.
    pub quotient_degree_factor: usize,
    /// Maximum constraint degree over the gates actually used.
    pub constraint_degree: usize,
}

/// Scale of the scalar fitness: the tie-breaking LDE size counts one
/// millionth of a gate.
pub const LDE_SCALE: u64 = 1_000_000;

/// The exact scalar fitness `gate_count + lde_size / 10^6`, times `10^6`.
pub open spec fn scalar_exact(c: Cost) -> int {
    (c.gate_count as int) * (LDE_SCALE as int) + (c.lde_size as int)
}

impl Cost {
    /// Objective vector for the multi-objective search: `[gate_count,
    /// lde_size]`, both minimised. Under the standard configuration the two
    /// are aligned, which is why the Pareto front collapses to a point.
    pub fn objectives(&self) -> (o: Vec<u64>)
        ensures
            o@ == seq![self.gate_count as u64, self.lde_size as u64],
    {
        let mut o: Vec<u64> = Vec::new();
        o.push(self.gate_count as u64);
        o.push(self.lde_size as u64);
        o
    }

    /// Single-objective scalarisation (lower is better): minimise gate count,
    /// breaking ties by padded LDE size. The value is `gate_count + lde_size /
    /// 10^6` scaled by `10^6`, so it is an exact integer; a value beyond `u64`
    /// saturates.
    pub fn scalar(&self) -> (s: u64)
        ensures
            s == if scalar_exact(*self) > u64::MAX as int {
                u64::MAX as int
            } else {
                scalar_exact(*self)
            },
    {
        let g: u128 = self.gate_count as u128;
        let l: u128 = self.lde_size as u128;
        assert(g * 1_000_000 <= 0xFFFF_FFFF_FFFF_FFFFu128 * 1_000_000) by (nonlinear_arith)
            requires g <= 0xFFFF_FFFF_FFFF_FFFFu128;
        let exact: u128 = g * 1_000_000 + l;
        if exact > u64::MAX as u128 {
            u64::MAX
        } else {
            exact as u64
        }
    }
}

/// Law: the scalar fitness orders costs by gate count first and LDE size
/// second, as long as LDE sizes stay below the scale.
pub proof fn lemma_scalar_lexicographic(a: Cost, b: Cost)
    requires
        a.lde_size < LDE_SCALE,
        b.lde_size < LDE_SCALE,
    ensures
        scalar_exact(a) < scalar_exact(b) <==> (a.gate_count < b.gate_count || (a.gate_count == b.gate_count
            && a.lde_size < b.lde_size)),
{
    let ga = a.gate_count as int;
    let gb = b.gate_count as int;
    if ga < gb {
        assert(ga * 1_000_000 + 1_000_000 <= gb * 1_000_000) by (nonlinear_arith)
            requires ga + 1 <= gb;
    } else if ga > gb {
        assert(gb * 1_000_000 + 1_000_000 <= ga * 1_000_000) by (nonlinear_arith)
            requires gb + 1 <= ga;
    }
}

/// Number of samples strictly below `v`.
pub open spec fn count_below(s: Seq<u128>, v: u128) -> nat
    decreases s.len(),
{
    if s.len() == 0 {
        0
    } else {
        count_below(s.drop_last(), v) + if s.last() < v {
            1nat
        } else {
            0nat
        }
    }
}

/// Number of samples not above `v`.
pub open spec fn count_at_most(s: Seq<u128>, v: u128) -> nat
    decreases s.len(),
{
    if s.len() == 0 {
        0
    } else {
        count_at_most(s.drop_last(), v) + if s.last() <= v {
            1nat
        } else {
            0nat
        }
    }
}

/// Where `u` and `v` split the samples alike, the counts agree.
proof fn lemma_counts_agree(s: Seq<u128>, u: u128, v: u128)
    requires
        forall|j: int| 0 <= j < s.len() ==> ((#[trigger] s[j]) <= u <==> s[j] < v),
    ensures
        count_at_most(s, u) == count_below(s, v),
    decreases s.len(),
{
    if s.len() > 0 {
        assert(s.last() == s[s.len() - 1]);
        lemma_counts_agree(s.drop_last(), u, v);
    }
}

/// At a value no sample exceeds, every sample counts.
proof fn lemma_count_all(s: Seq<u128>, v: u128)
    requires
        forall|j: int| 0 <= j < s.len() ==> (#[trigger] s[j]) <= v,
    ensures
        count_at_most(s, v) == s.len(),
    decreases s.len(),
{
    if s.len() > 0 {
        assert(s.last() == s[s.len() - 1]);
        lemma_count_all(s.drop_last(), v);
    }
}

/// Where some sample lies below `v`, a greatest such sample exists.
proof fn lemma_greatest_below(s: Seq<u128>, v: u128) -> (k: int)
    requires
        count_below(s, v) > 0,
    ensures
        0 <= k < s.len(),
        s[k] < v,
        forall|j: int| 0 <= j < s.len() && (#[trigger] s[j]) < v ==> s[j] <= s[k],
    decreases s.len(),
{
    let t = s.drop_last();
    if count_below(t, v) > 0 {
        let k0 = lemma_greatest_below(t, v);
        if s.last() < v && s.last() > s[k0] {
            assert forall|j: int| 0 <= j < s.len() && (#[trigger] s[j]) < v implies s[j] <= s.last() by {
                if j < s.len() - 1 {
                    assert(s[j] == t[j]);
                }
            }
            (s.len() - 1) as int
        } else {
            assert forall|j: int| 0 <= j < s.len() && (#[trigger] s[j]) < v implies s[j] <= s[k0] by {
                if j < s.len() - 1 {
                    assert(s[j] == t[j]);
                }
            }
            k0
        }
    } else {
        assert forall|j: int| 0 <= j < s.len() && (#[trigger] s[j]) < v implies s[j] <= s.last() by {
            if j < s.len() - 1 {
                assert(s[j] == t[j]);
                lemma_below_counted(t, v, j);
            }
        }
        (s.len() - 1) as int
    }
}

/// A sample below `v` is counted.
proof fn lemma_below_counted(s: Seq<u128>, v: u128, j: int)
    requires
        0 <= j < s.len(),
        s[j] < v,
    ensures
        count_below(s, v) > 0,
    decreases s.len(),
{
    if j < s.len() - 1 {
        assert(s.drop_last()[j] == s[j]);
        lemma_below_counted(s.drop_last(), v, j);
    }
}

/// The number of samples not above `v`.
fn count_at_most_of(s: &Vec<u128>, v: u128) -> (c: usize)
    ensures
        c == count_at_most(s@, v),
{
    let mut c: usize = 0;
    for i in 0..s.len()
        invariant
            c == count_at_most(s@.take(i as int), v),
            c <= i,
    {
        assert(s@.take(i as int + 1).drop_last() =~= s@.take(i as int));
        if s[i] <= v {
            c = c + 1;
        }
    }
    assert(s@.take(s@.len() as int) =~= s@);
    c
}

/// The position of a median sample: its value is the one at position
/// `n / 2` of the samples in increasing order, that is, at most `n / 2`
/// samples lie below it and more than `n / 2` lie at or below it.
pub fn median_index(samples: &Vec<u128>) -> (i: usize)
    requires
        samples@.len() > 0,
    ensures
        i < samples@.len(),
        count_below(samples@, samples@[i as int]) <= samples@.len() / 2,
        samples@.len() / 2 < count_at_most(samples@, samples@[i as int]),
{
    let n = samples.len();
    let half = n / 2;
    let mut top: usize = 0;
    for i in 1..n
        invariant
            n == samples@.len(),
            top < n,
            forall|j: int| 0 <= j < i ==> (#[trigger] samples@[j]) <= samples@[top as int],
    {
        if samples[i] > samples[top] {
            top = i;
        }
    }
    proof {
        lemma_count_all(samples@, samples@[top as int]);
    }
    // The least value with more than half of the samples at or below it.
    let mut best: usize = top;
    for i in 0..n
        invariant
            n == samples@.len(),
            half == n / 2,
            best < n,
            count_at_most(samples@, samples@[best as int]) > half,
            forall|j: int|
                0 <= j < i && count_at_most(samples@, samples@[j]) > half ==> samples@[best as int] <= #[trigger] samples@[j],
    {
        let c = count_at_most_of(samples, samples[i]);
        if c > half && samples[i] < samples[best] {
            best = i;
        }
    }
    proof {
        let v = samples@[best as int];
        if count_below(samples@, v) > half {
            let k = lemma_greatest_below(samples@, v);
            assert forall|j: int| 0 <= j < samples@.len() implies ((#[trigger] samples@[j]) <= samples@[k] <==> samples@[j] < v) by {}
            lemma_counts_agree(samples@, samples@[k], v);
            assert(samples@[best as int] <= samples@[k]);
        }
    }
    best
}

/// Measured prover cost for a single circuit.
#[derive(Clone, Copy, Debug)]
pub struct RealCost {
    /// Median prover wall-clock time over the repeated runs.
    pub prove_time: Duration,
    /// Size of the serialized proof in bytes.
    pub proof_bytes: usize,
}

} // verus!
