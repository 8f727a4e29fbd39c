//! Integration tests: correctness of the circuit factories and a sanity check
//! that the genetic algorithm recovers the exhaustively-verified optimum on a
//! small instance.
//!
//! Circuits are checked by evaluating their plans in the field: the public
//! inputs a proof would expose and whether the range constraints hold. The
//! optimiser tests use a cost model read from the plans (one gate per step).

use rand::SeedableRng;
use rand_chacha::ChaCha8Rng;

use zk_gate_evo::circuits::exponentiation::Exponentiation;
use zk_gate_evo::circuits::plan::{evaluate_plan, CircuitPlan};
use zk_gate_evo::circuits::range_check::RangeCheck;
use zk_gate_evo::circuits::CircuitFactory;
use zk_gate_evo::ec::baselines;
use zk_gate_evo::ec::ga::{self, GaConfig};
use zk_gate_evo::ec::StaticOracle;
use zk_gate_evo::fitness::Cost;
use zk_gate_evo::rewrite::factory::PolyRewrite;
use zk_gate_evo::strategy::{enumerate, Chromosome};

/// Static cost with one gate per plan step; the trace is padded to a power
/// of two and extended at rate 8.
fn plan_cost(plan: &CircuitPlan) -> Cost {
    let gates = plan.steps.len();
    let rows = gates.next_power_of_two();
    Cost {
        gate_count: gates,
        degree_bits: rows.trailing_zeros() as usize,
        lde_size: rows * 8,
        num_gate_constraints: 123,
        quotient_degree_factor: 8,
        constraint_degree: 7,
    }
}

struct ExpCost(Exponentiation);

impl CircuitFactory for ExpCost {
    fn name(&self) -> &str {
        self.0.name()
    }
    fn strategy_space(&self) -> Vec<usize> {
        self.0.strategy_space()
    }
    fn static_cost(&self, chrom: &Chromosome) -> Cost {
        plan_cost(&self.0.plan(chrom))
    }
}

/// Every strategy of the exponentiation benchmark must compute the same output
/// and satisfy its constraints.
#[test]
fn exponentiation_strategies_are_equivalent() {
    let factory = Exponentiation::new(3, 7);
    let space = factory.strategy_space();
    let mut rng = ChaCha8Rng::seed_from_u64(7);
    let inputs = factory.random_inputs(&mut rng);
    let reference = factory.reference_public_inputs(&inputs);
    for chrom in enumerate(&space) {
        let (public, holds) = evaluate_plan(&factory.plan(&chrom), &inputs);
        assert!(
            holds && public == reference,
            "strategy {:?} did not match the reference output",
            chrom.genes
        );
    }
}

/// Every range-check strategy must verify for in-range inputs.
#[test]
fn range_check_strategies_verify() {
    let factory = RangeCheck::new(3, 24);
    let space = factory.strategy_space();
    let mut rng = ChaCha8Rng::seed_from_u64(11);
    for _ in 0..4 {
        let inputs = factory.random_inputs(&mut rng);
        for chrom in enumerate(&space) {
            let (public, holds) = evaluate_plan(&factory.plan(&chrom), &inputs);
            assert!(
                holds && public == factory.reference_public_inputs(&inputs),
                "range-check strategy {:?} failed to verify",
                chrom.genes
            );
        }
    }
}

/// The GA must reach the global optimum found by exhaustive enumeration on a
/// small, fully enumerable instance.
#[test]
fn ga_matches_exhaustive_optimum() {
    let factory = Exponentiation::new(5, 7);
    let space = factory.strategy_space();

    let mut exo = StaticOracle::new(ExpCost(Exponentiation::new(5, 7)));
    let exhaustive = baselines::exhaustive(&space, 100_000, &mut exo)
        .expect("space is small enough to enumerate");

    let cfg = GaConfig {
        pop_size: 20,
        generations: 30,
        ..GaConfig::default()
    };
    let mut rng = ChaCha8Rng::seed_from_u64(1);
    let mut oracle = StaticOracle::new(ExpCost(Exponentiation::new(5, 7)));
    let outcome = ga::run(&space, &cfg, &mut oracle, &mut rng);

    assert_eq!(
        outcome.best_fitness, exhaustive.best_fitness,
        "GA fitness {} did not reach exhaustive optimum {}",
        outcome.best_fitness, exhaustive.best_fitness
    );
}

/// The default (all-zero) chromosome is well-formed for both factories.
#[test]
fn default_chromosome_builds() {
    let exp = Exponentiation::new(4, 7);
    let _ = exp.plan(&Chromosome::new(vec![0; 4]));
    let range = RangeCheck::new(4, 24);
    let _ = range.plan(&Chromosome::new(vec![0; 4]));
}

/// Every sequence of rewrite rules must preserve the polynomial value
/// (correctness by construction).
#[test]
fn rewrite_sequences_preserve_semantics() {
    let factory = PolyRewrite::new(10, 20);
    let space = factory.strategy_space();
    let mut rng = ChaCha8Rng::seed_from_u64(3);
    for _ in 0..15 {
        let chrom = Chromosome::random(&space, &mut rng);
        let inputs = factory.random_inputs(&mut rng);
        let (public, holds) = evaluate_plan(&factory.plan(&chrom), &inputs);
        assert!(
            holds && public == factory.reference_public_inputs(&inputs),
            "rewrite sequence {:?} changed the computed value",
            chrom.genes
        );
    }
}
