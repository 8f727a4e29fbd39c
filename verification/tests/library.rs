//! Tests of the library's functions on concrete values.

use rand::SeedableRng;
use rand_chacha::ChaCha8Rng;

use zk_gate_evo::circuits::exponentiation::Exponentiation;
use zk_gate_evo::circuits::plan::{below_pow, evaluate_plan, CircuitPlan, Step};
use zk_gate_evo::circuits::range_check::RangeCheck;
use zk_gate_evo::circuits::CircuitFactory;
use zk_gate_evo::ec::baselines;
use zk_gate_evo::ec::ga::{self, argmin, population_stats, tournament_winner, GaConfig, RATE_0_1, RATE_0_9};
use zk_gate_evo::ec::nsga2::{
    self, crowding_distance, crowding_greater, dominates, hypervolume_2d, non_dominated_sort, pareto_front,
    reference_point, Crowding, Nsga2Config,
};
use zk_gate_evo::ec::operators::{point_mutation, uniform_crossover};
use zk_gate_evo::ec::{Oracle, StaticOracle};
use zk_gate_evo::experiment::{compare_run, compare_settings, inspect_chromosomes, run_seed, Method, INSPECT_MIXES};
use zk_gate_evo::field::{field_add, field_mul, field_pow, from_canonical_u64, ORDER};
use zk_gate_evo::fitness::{median_index, Cost};
use zk_gate_evo::rewrite::factory::PolyRewrite;
use zk_gate_evo::rewrite::ir::{constant, eval_field, input, mul, node_count, square, to_circuit, Expr};
use zk_gate_evo::rewrite::rules::{apply, apply_sequence, rule_of, Rule};
use zk_gate_evo::rng::{draw_below, UNIT_53};
use zk_gate_evo::strategy::{enumerate, space_size, Chromosome};

fn cost(gates: usize, lde: usize) -> Cost {
    Cost {
        gate_count: gates,
        degree_bits: 0,
        lde_size: lde,
        num_gate_constraints: 0,
        quotient_degree_factor: 8,
        constraint_degree: 0,
    }
}

/// A factory whose cost is a weighted sum of the genes, with an interaction
/// between neighbouring genes; its optimum is all genes equal to 1.
#[derive(Clone, Copy)]
struct Landscape;

impl CircuitFactory for Landscape {
    fn name(&self) -> &str {
        "landscape"
    }
    fn strategy_space(&self) -> Vec<usize> {
        vec![3; 4]
    }
    fn static_cost(&self, chrom: &Chromosome) -> Cost {
        let mut g = 0usize;
        for (i, &v) in chrom.genes.iter().enumerate() {
            let d = if v == 1 { 0 } else { 2 + i };
            g += d;
        }
        cost(10 + g, 64 + 8 * g)
    }
}

/// Two conflicting objectives: gene sum against its complement.
struct TwoWay;

impl CircuitFactory for TwoWay {
    fn name(&self) -> &str {
        "two_way"
    }
    fn strategy_space(&self) -> Vec<usize> {
        vec![4; 3]
    }
    fn static_cost(&self, chrom: &Chromosome) -> Cost {
        let s: usize = chrom.genes.iter().map(|&v| v as usize).sum();
        cost(s, 9 - s)
    }
}

#[test]
fn field_arithmetic_exact_values() {
    assert_eq!(field_add(ORDER - 1, 1), 0);
    assert_eq!(field_add(5, 7), 12);
    // 2^64 = 2^32 - 1 in the field.
    assert_eq!(field_mul(1 << 32, 1 << 32), (1u64 << 32) - 1);
    assert_eq!(field_pow(2, 64), (1u64 << 32) - 1);
    assert_eq!(field_pow(7, 3), 343);
    assert_eq!(field_pow(3, 0), 1);
    assert_eq!(from_canonical_u64(5), 5);
}

#[test]
fn neighbors_exact_order() {
    let c = Chromosome::new(vec![0, 1]);
    let n: Vec<Vec<u8>> = c.neighbors(&[3, 2]).into_iter().map(|x| x.genes).collect();
    assert_eq!(n, vec![vec![1, 1], vec![2, 1], vec![0, 0]]);
    assert_eq!(c.len(), 2);
    assert!(!c.is_empty());
    assert!(Chromosome::new(vec![]).is_empty());
}

#[test]
fn hamming_counts_differences() {
    let a = Chromosome::new(vec![0, 1, 2]);
    let b = Chromosome::new(vec![0, 2, 2]);
    assert_eq!(a.hamming(&b), 1);
    assert_eq!(a.hamming(&a), 0);
    assert_eq!(a.hamming(&Chromosome::new(vec![1])), 1);
}

#[test]
fn space_size_and_enumeration() {
    assert_eq!(space_size(&[3, 3, 3]), 27);
    assert_eq!(space_size(&[]), 1);
    assert_eq!(space_size(&[6; 24]), 4_738_381_338_321_616_896);
    let all: Vec<Vec<u8>> = enumerate(&[2, 3]).into_iter().map(|c| c.genes).collect();
    assert_eq!(all, vec![vec![0, 0], vec![1, 0], vec![0, 1], vec![1, 1], vec![0, 2], vec![1, 2]]);
    assert!(enumerate(&[2, 0, 3]).is_empty());
    assert_eq!(enumerate(&[]).len(), 1);
}

#[test]
fn crossover_swaps_position_by_position() {
    let mut rng = ChaCha8Rng::seed_from_u64(5);
    let a = Chromosome::new(vec![0; 16]);
    let b = Chromosome::new(vec![1; 16]);
    let (c1, c2) = uniform_crossover(&a, &b, &mut rng);
    for i in 0..16 {
        assert_eq!(c1.genes[i] + c2.genes[i], 1);
    }
}

#[test]
fn mutation_rates_at_the_extremes() {
    let mut rng = ChaCha8Rng::seed_from_u64(9);
    let space = [3usize, 1, 4, 2];
    let c = Chromosome::new(vec![2, 0, 3, 1]);
    assert_eq!(point_mutation(&c, &space, 0, &mut rng).genes, c.genes);
    for _ in 0..20 {
        let m = point_mutation(&c, &space, UNIT_53, &mut rng);
        assert_ne!(m.genes[0], 2);
        assert_eq!(m.genes[1], 0);
        assert_ne!(m.genes[2], 3);
        assert_eq!(m.genes[3], 0);
        for (i, &g) in m.genes.iter().enumerate() {
            assert!((g as usize) < space[i]);
        }
    }
}

#[test]
fn draw_below_extremes() {
    let mut rng = ChaCha8Rng::seed_from_u64(2);
    for _ in 0..50 {
        assert!(!draw_below(&mut rng, 0));
        assert!(draw_below(&mut rng, UNIT_53));
    }
    assert_eq!(RATE_0_9, 8_106_479_329_266_893);
    assert_eq!(RATE_0_1, 900_719_925_474_100);
}

#[test]
fn cost_scalar_and_objectives() {
    let c = cost(5, 64);
    assert_eq!(c.scalar(), 5_000_064);
    assert_eq!(c.objectives(), vec![5, 64]);
    assert_eq!(cost(usize::MAX, 1).scalar(), u64::MAX);
}

#[test]
fn argmin_takes_first_minimum() {
    assert_eq!(argmin(&[4, 2, 7, 2]), 1);
    assert_eq!(argmin(&[3]), 0);
    assert_eq!(argmin(&[]), 0);
}

#[test]
fn population_stats_values() {
    let fit = vec![3u64, 1, 2];
    let pop = vec![
        Chromosome::new(vec![0, 0]),
        Chromosome::new(vec![1, 0]),
        Chromosome::new(vec![1, 1]),
    ];
    let s = population_stats(&fit, &pop);
    assert_eq!(s.fitness_sum, 6);
    assert_eq!(s.size, 3);
    assert_eq!(s.distance_sum, 4);
    assert_eq!(s.pairs, 3);
    assert_eq!(s.genes, 2);
}

#[test]
fn static_oracle_counts_distinct_builds() {
    let mut o = StaticOracle::new(Landscape);
    let a = Chromosome::new(vec![1, 1, 1, 1]);
    let b = Chromosome::new(vec![0, 1, 1, 1]);
    assert_eq!(o.scalar(&a), 10_000_064);
    assert_eq!(o.evaluations(), 1);
    assert_eq!(o.scalar(&a), 10_000_064);
    assert_eq!(o.evaluations(), 1);
    assert_eq!(o.objectives(&b), vec![12, 80]);
    assert_eq!(o.evaluations(), 2);
}

#[test]
fn uniform_sweep_keeps_best_uniform() {
    let mut o = StaticOracle::new(Landscape);
    let out = baselines::uniform_sweep(&[3, 3, 3, 3], &mut o);
    assert_eq!(out.best.genes, vec![1, 1, 1, 1]);
    assert_eq!(out.best_fitness, 10_000_064);
    assert_eq!(out.history.len(), 1);
    assert_eq!(out.history[0].evaluations, 3);
}

#[test]
fn exhaustive_finds_global_optimum_or_declines() {
    let mut o = StaticOracle::new(Landscape);
    let out = baselines::exhaustive(&[3, 3, 3, 3], 81, &mut o).expect("within the limit");
    assert_eq!(out.best.genes, vec![1, 1, 1, 1]);
    assert_eq!(out.best_fitness, 10_000_064);
    assert_eq!(o.evaluations(), 81);
    let mut o2 = StaticOracle::new(Landscape);
    assert!(baselines::exhaustive(&[3, 3, 3, 3], 80, &mut o2).is_none());
    assert_eq!(o2.evaluations(), 0);
}

#[test]
fn greedy_reaches_a_one_gene_optimum() {
    let mut rng = ChaCha8Rng::seed_from_u64(4);
    let mut o = StaticOracle::new(Landscape);
    let space = [3usize, 3, 3, 3];
    let out = baselines::greedy(&space, &mut o, &mut rng);
    assert_eq!(out.history.last().unwrap().evaluations, o.evaluations());
    assert_eq!(out.best.genes, vec![1, 1, 1, 1]);
    assert_eq!(out.history.last().unwrap().best, out.best_fitness);
    for n in out.best.neighbors(&space) {
        assert!(o.scalar(&n) >= out.best_fitness);
    }
}

#[test]
fn hill_climb_and_random_search_keep_their_best() {
    let space = [3usize, 3, 3, 3];
    let mut rng = ChaCha8Rng::seed_from_u64(8);
    let mut o = StaticOracle::new(Landscape);
    let hc = baselines::hill_climb(&space, 30, &mut o, &mut rng);
    assert_eq!(hc.history.last().unwrap().evaluations, o.evaluations());
    assert!(o.evaluations() >= 30);
    assert_eq!(hc.best_fitness, o.scalar(&hc.best));
    assert!(hc.history.iter().all(|r| hc.best_fitness <= r.best));
    let mut rng = ChaCha8Rng::seed_from_u64(8);
    let mut o = StaticOracle::new(Landscape);
    let rs = baselines::random_search(&space, 20, 5, &mut o, &mut rng);
    assert_eq!(rs.history.last().unwrap().evaluations, o.evaluations());
    assert!(rs.history[1..rs.history.len() - 1].iter().all(|r| r.evaluations % 5 == 0));
    assert_eq!(rs.best_fitness, o.scalar(&rs.best));
    assert_eq!(rs.history.last().unwrap().best, rs.best_fitness);
    assert!(rs.history.len() >= 2);
}

#[test]
fn ga_history_tracks_the_best() {
    let space = [3usize, 3, 3, 3];
    let cfg = GaConfig {
        pop_size: 8,
        generations: 6,
        ..GaConfig::default()
    };
    let mut rng = ChaCha8Rng::seed_from_u64(1);
    let mut o = StaticOracle::new(Landscape);
    let out = ga::run(&space, &cfg, &mut o, &mut rng);
    assert_eq!(out.history.len(), 7);
    assert_eq!(out.history.last().unwrap().evaluations, o.evaluations());
    let least = out.history.iter().map(|r| r.best).min().unwrap();
    assert_eq!(out.best_fitness, least);
    assert_eq!(o.scalar(&out.best), out.best_fitness);
    assert!(out.history.iter().all(|r| r.population.unwrap().size == 8));
}

#[test]
fn ga_without_operators_only_selects() {
    let space = [3usize, 3, 3, 3];
    let cfg = GaConfig {
        pop_size: 6,
        generations: 5,
        crossover_rate: 0,
        mutation_rate: 0,
        ..GaConfig::default()
    };
    let mut rng = ChaCha8Rng::seed_from_u64(7);
    let mut o = StaticOracle::new(Landscape);
    let out = ga::run(&space, &cfg, &mut o, &mut rng);
    assert_eq!(out.history.len(), 6);
    // Copies of copies: no generation finds anything the first lacked.
    assert!(out.history.iter().all(|r| r.best == out.history[0].best));
    assert_eq!(out.best_fitness, out.history[0].best);
    // Only the first generation's distinct chromosomes were ever built.
    assert!(o.evaluations() <= 6);
}

#[test]
fn hamming_is_a_metric_on_equal_lengths() {
    let a = Chromosome::new(vec![0, 1, 2, 3]);
    let b = Chromosome::new(vec![0, 2, 2, 0]);
    let c = Chromosome::new(vec![1, 2, 2, 3]);
    assert_eq!(a.hamming(&b), b.hamming(&a));
    assert_eq!(a.hamming(&b), 2);
    assert_eq!(c.hamming(&c), 0);
    assert!(a.hamming(&c) <= a.hamming(&b) + b.hamming(&c));
    assert_ne!(a.hamming(&c), 0);
}

#[test]
fn random_search_records_every_multiple() {
    let space = [3usize, 3, 3, 3];
    let mut rng = ChaCha8Rng::seed_from_u64(11);
    let mut o = StaticOracle::new(Landscape);
    let rs = baselines::random_search(&space, 12, 4, &mut o, &mut rng);
    let mids: Vec<usize> = rs.history[1..rs.history.len() - 1].iter().map(|r| r.evaluations).collect();
    // Each count is the number of distinct chromosomes built so far, so it
    // passes every multiple of 4 below the final count.
    for m in [4usize, 8] {
        if m <= o.evaluations() {
            assert!(mids.contains(&m));
        }
    }
    assert!(o.evaluations() >= 12);
}

#[test]
fn dominance_cases() {
    assert!(dominates(&vec![1, 2], &vec![2, 2]));
    assert!(!dominates(&vec![1, 2], &vec![1, 2]));
    assert!(!dominates(&vec![1, 3], &vec![2, 2]));
    assert!(dominates(&vec![0], &vec![1, 0]));
}

#[test]
fn non_dominated_sort_fronts() {
    let objs = vec![vec![1, 5], vec![2, 4], vec![3, 3], vec![2, 5], vec![4, 4], vec![5, 5]];
    assert_eq!(non_dominated_sort(&objs), vec![vec![0, 1, 2], vec![3, 4], vec![5]]);
    assert!(non_dominated_sort(&vec![]).is_empty());
}

#[test]
fn crowding_of_a_front() {
    let objs = vec![vec![1, 5], vec![2, 4], vec![3, 3]];
    let d = crowding_distance(&vec![0, 1, 2], &objs);
    assert_eq!(d, vec![Crowding::Infinite, Crowding::Finite(4, 4), Crowding::Infinite]);
    assert!(crowding_greater(Crowding::Infinite, Crowding::Finite(9, 9)));
    assert!(!crowding_greater(Crowding::Infinite, Crowding::Infinite));
    assert!(crowding_greater(Crowding::Finite(1, 5), Crowding::Finite(3, 2)));
    assert!(!crowding_greater(Crowding::Finite(3, 2), Crowding::Finite(2, 3)));
}

#[test]
fn hypervolume_in_hundredths() {
    assert_eq!(hypervolume_2d(&vec![vec![1, 1]], 30, 30), 400);
    assert_eq!(hypervolume_2d(&vec![vec![1, 2], vec![2, 1]], 30, 30), 300);
    assert_eq!(hypervolume_2d(&vec![vec![2, 1], vec![1, 2], vec![2, 2]], 30, 30), 300);
    assert_eq!(hypervolume_2d(&vec![vec![5, 5]], 30, 30), 0);
    assert_eq!(hypervolume_2d(&vec![], 30, 30), 0);
    assert_eq!(reference_point(&vec![vec![3, 7], vec![5, 2]]), (65, 87));
}

#[test]
fn pareto_front_sorted_and_deduplicated() {
    let pop: Vec<Chromosome> = (0..5u8).map(|i| Chromosome::new(vec![i])).collect();
    let objs = vec![vec![2, 4], vec![1, 5], vec![2, 4], vec![3, 3], vec![4, 4]];
    let front = pareto_front(&pop, &objs);
    let vs: Vec<Vec<u64>> = front.iter().map(|p| p.objectives.clone()).collect();
    assert_eq!(vs, vec![vec![1, 5], vec![2, 4], vec![3, 3]]);
    assert_eq!(front[0].chrom.genes, vec![1]);
    assert_eq!(front[1].chrom.genes, vec![0]);
}

#[test]
fn nsga2_front_is_a_staircase() {
    let cfg = Nsga2Config {
        pop_size: 12,
        generations: 5,
        ..Nsga2Config::default()
    };
    let mut rng = ChaCha8Rng::seed_from_u64(3);
    let mut o = StaticOracle::new(TwoWay);
    let out = nsga2::run(&[4, 4, 4], &cfg, &mut o, &mut rng);
    assert_eq!(out.history.len(), 6);
    assert_eq!(out.history.last().unwrap().evaluations, o.evaluations());
    assert!(!out.front.is_empty());
    for w in out.front.windows(2) {
        assert!(w[0].objectives[0] < w[1].objectives[0]);
        assert!(w[0].objectives[1] > w[1].objectives[1]);
    }
    for p in &out.front {
        assert_eq!(o.objectives(&p.chrom), p.objectives);
    }
}

#[test]
fn nsga2_on_a_single_point_space_builds_one_circuit() {
    let cfg = Nsga2Config {
        pop_size: 4,
        generations: 1,
        ..Nsga2Config::default()
    };
    let mut rng = ChaCha8Rng::seed_from_u64(0);
    let mut o = StaticOracle::new(TwoWay);
    let out = nsga2::run(&[1], &cfg, &mut o, &mut rng);
    assert_eq!(out.front.len(), 1);
    assert_eq!(out.front[0].chrom, Chromosome::new(vec![0]));
    assert_eq!(out.history.len(), 2);
    assert!(out.history.iter().all(|h| h.front_size == 4 && h.evaluations == 1));
    assert_eq!(o.evaluations(), 1);
}

#[test]
fn nsga2_without_operators_builds_only_the_first_population() {
    let cfg = Nsga2Config {
        pop_size: 6,
        generations: 4,
        crossover_rate: 0,
        mutation_rate: 0,
    };
    let mut rng = ChaCha8Rng::seed_from_u64(5);
    let mut o = StaticOracle::new(TwoWay);
    let out = nsga2::run(&[4, 4, 4], &cfg, &mut o, &mut rng);
    assert_eq!(out.history.len(), 5);
    assert!(o.evaluations() <= 6);
    assert!(out.history.iter().all(|h| h.evaluations == out.history[0].evaluations));
}

#[test]
fn exponentiation_plans_by_strategy() {
    let f = Exponentiation::new(1, 7);
    let ops = |g: u8| f.plan(&Chromosome::new(vec![g])).steps.len() - 3;
    assert_eq!(ops(0), 1);
    assert_eq!(ops(1), 6);
    // 7 = 0b111: one constant, three multiplies, two squarings.
    assert_eq!(ops(2), 6);
    for g in 0..3 {
        let (public, holds) = evaluate_plan(&f.plan(&Chromosome::new(vec![g])), &vec![3]);
        assert!(holds);
        assert_eq!(public, vec![3, 2187]);
    }
    assert_eq!(f.reference_public_inputs(&vec![3, 2]), vec![3, 2187, 2, 128]);
    assert_eq!(f.strategy_space(), vec![3]);
    assert_eq!(f.name(), "exponentiation");
}

#[test]
fn range_check_rejects_out_of_range() {
    let f = RangeCheck::new(1, 6);
    for g in 0..3 {
        let plan = f.plan(&Chromosome::new(vec![g]));
        assert_eq!(evaluate_plan(&plan, &vec![63]), (vec![63], true));
        assert_eq!(evaluate_plan(&plan, &vec![64]), (vec![64], false));
    }
    assert!(below_pow(63, 4, 3));
    assert!(!below_pow(64, 8, 2));
    assert!(below_pow(0, 1, 100));
    assert!(!below_pow(0, 0, 2));
    assert!(below_pow(u64::MAX, 2, 64));
    let mut rng = ChaCha8Rng::seed_from_u64(6);
    let r = RangeCheck::new(5, 12).random_inputs(&mut rng);
    assert!(r.iter().all(|&v| v < 4096));
}

#[test]
fn evaluate_plan_field_arithmetic() {
    let plan = CircuitPlan {
        steps: vec![
            Step::Input,
            Step::Constant(ORDER + 4),
            Step::Add(0, 1),
            Step::Mul(2, 2),
            Step::Square(3),
            Step::Exp(0, 3),
            Step::Public(4),
            Step::Public(5),
            Step::Split(0, 2, 3),
        ],
    };
    // x = 2: (2 + 4)^2 = 36, 36^2 = 1296, 2^3 = 8; 2 < 2^3.
    assert_eq!(evaluate_plan(&plan, &vec![2]), (vec![1296, 8], true));
    assert_eq!(evaluate_plan(&plan, &vec![9]), (vec![28561, 729], false));
}

#[test]
fn rewrite_rules_keep_values() {
    let e = zk_gate_evo::rewrite::ir::pow(input(), 5);
    let h = apply(Rule::ExpandHalve, &e);
    let expected = mul(square(zk_gate_evo::rewrite::ir::pow(input(), 2)), input());
    assert_eq!(*h, *expected);
    assert_eq!(eval_field(&h, 3), 243);
    let f = apply(Rule::ExpandFactor, &zk_gate_evo::rewrite::ir::pow(input(), 6));
    assert_eq!(*f, Expr::Pow(zk_gate_evo::rewrite::ir::pow(input(), 2), 3));
    assert_eq!(rule_of(7), Rule::ExpandMinusOne);
    assert_eq!(rule_of(12), Rule::NoOp);
    let sq = apply(Rule::FoldSquare, &mul(input(), input()));
    assert_eq!(*sq, Expr::Square(input()));
    let c = apply(Rule::CombineMul, &mul(input(), input()));
    assert_eq!(*c, Expr::Pow(input(), 2));
    assert_eq!(*apply(Rule::NoOp, &c), *c);
    // x^2 * 7 does not match CombineMul: unchanged.
    let m = mul(zk_gate_evo::rewrite::ir::pow(input(), 2), constant(7));
    assert_eq!(*apply(Rule::CombineMul, &m), *m);
}

#[test]
fn poly_rewrite_base_and_sequences() {
    let f = PolyRewrite::new(3, 4);
    let base = f.base();
    assert_eq!(eval_field(&base, 2), 15);
    assert_eq!(node_count(&base), 5);
    let expr = apply_sequence(&[2, 4, 5, 1], &base);
    assert_eq!(eval_field(&expr, 2), 15);
    assert_eq!(f.reference_public_inputs(&vec![2]), vec![2, 15]);
    assert_eq!(f.strategy_space(), vec![6; 4]);
    let (public, holds) = evaluate_plan(&f.plan(&Chromosome::new(vec![2, 4, 5, 1])), &vec![2]);
    assert!(holds);
    assert_eq!(public, vec![2, 15]);
    // Without rewriting: x, its registration, six operations, the output.
    assert_eq!(f.plan(&Chromosome::new(vec![0; 4])).steps.len(), 9);
}

#[test]
fn shared_subexpressions_are_emitted_once() {
    // x^2 * x^2 built from two separate x^2 nodes: one square, one product.
    let e = mul(square(input()), square(input()));
    let mut steps = vec![Step::Input];
    let y = to_circuit(&e, &mut steps, 0);
    assert_eq!(steps.len(), 3);
    assert_eq!(y, 2);
    assert_eq!(node_count(&e), 2);
    assert_eq!(node_count(&input()), 0);
    // Wrapping a shared node in a product with itself, or a square, adds one.
    let e2 = mul(e.clone(), e.clone());
    assert_eq!(node_count(&e2), node_count(&e) + 1);
    assert_eq!(node_count(&square(e.clone())), node_count(&e) + 1);
    steps.push(Step::Public(y));
    let (public, holds) = evaluate_plan(&CircuitPlan { steps }, &vec![3]);
    assert!(holds);
    assert_eq!(public, vec![81]);
}

#[test]
fn experiment_settings() {
    let cfg = GaConfig {
        pop_size: 30,
        generations: 30,
        ..GaConfig::default()
    };
    let s = compare_settings(&cfg);
    assert_eq!(s.budget, 930);
    assert_eq!(s.sample_every, 30);
    assert_eq!(s.xover_only.mutation_rate, 0);
    assert_eq!(s.xover_only.crossover_rate, RATE_0_9);
    assert_eq!(s.mut_only.crossover_rate, 0);
    assert_eq!(s.mut_only.mutation_rate, RATE_0_1);
    assert_eq!(run_seed(u64::MAX, 2), 1);
    assert_eq!(run_seed(7, 3), 10);
}

#[test]
fn comparison_run_covers_every_method() {
    let cfg = GaConfig {
        pop_size: 8,
        generations: 6,
        ..GaConfig::default()
    };
    let space = Landscape.strategy_space();
    let traces = compare_run(Landscape, &space, &cfg, 11);
    let methods: Vec<Method> = traces.iter().map(|t| t.method).collect();
    assert_eq!(
        methods,
        vec![
            Method::Ga,
            Method::GaXoverOnly,
            Method::GaMutOnly,
            Method::Random,
            Method::HillClimb,
            Method::Greedy
        ]
    );
    for t in &traces[..3] {
        assert_eq!(t.history.len(), 7);
    }
    for t in &traces {
        assert!(t.history.iter().all(|r| t.best_fitness <= r.best));
        assert_eq!(t.best_fitness, Landscape.static_cost(&t.best).scalar());
    }
    // Greedy descent from any start reaches the separable optimum.
    assert_eq!(traces[5].best.genes, vec![1u8; 4]);
    // Equal seeds give equal runs.
    let again = compare_run(Landscape, &space, &cfg, 11);
    for (a, b) in traces.iter().zip(again.iter()) {
        assert_eq!(a.best.genes, b.best.genes);
        assert_eq!(a.history.len(), b.history.len());
    }
}

#[test]
fn median_of_samples() {
    assert_eq!(median_index(&vec![5, 1, 4, 2, 3]), 4);
    // Even count: the upper of the two middle values.
    assert_eq!(median_index(&vec![4, 1, 3, 2]), 2);
    assert_eq!(median_index(&vec![7]), 0);
    let i = median_index(&vec![2, 9, 2, 2]);
    assert!(i != 1);
}

#[test]
fn inspection_uniform_then_random() {
    let space = vec![3, 2, 3];
    let chroms = inspect_chromosomes(&space, 4);
    assert_eq!(chroms.len(), 3 + INSPECT_MIXES);
    for s in 0..3u8 {
        assert_eq!(chroms[s as usize].genes, vec![s; 3]);
    }
    for c in &chroms[3..] {
        assert!(c.genes.iter().zip(space.iter()).all(|(&g, &n)| (g as usize) < n));
    }
    assert_eq!(inspect_chromosomes(&[], 4).len(), INSPECT_MIXES);
}

#[test]
fn tournament_winner_is_first_of_the_fittest_drawn() {
    let fit = [5u64, 3, 3, 1];
    assert_eq!(tournament_winner(&fit, &vec![0, 1, 2]), 1);
    assert_eq!(tournament_winner(&fit, &vec![2, 1]), 2);
    assert_eq!(tournament_winner(&fit, &vec![0, 3, 1]), 3);
    assert_eq!(tournament_winner(&fit, &vec![0]), 0);
}

#[test]
fn rules_accept_zero_exponents_and_heavy_powers() {
    let x0 = mul(zk_gate_evo::rewrite::ir::pow(input(), 0), input());
    let c = apply(Rule::CombineMul, &x0);
    assert_eq!(*c, Expr::Pow(input(), 1));
    assert_eq!(eval_field(&c, 5), eval_field(&x0, 5));
    // Nested powers of large total weight whose exponents do not overflow.
    let heavy = zk_gate_evo::rewrite::ir::pow(zk_gate_evo::rewrite::ir::pow(input(), 1 << 40), 1 << 30);
    let h = apply(Rule::ExpandHalve, &heavy);
    assert_eq!(eval_field(&h, 3), eval_field(&heavy, 3));
    let seq = apply_sequence(&[1, 2, 3], &heavy);
    assert_eq!(eval_field(&seq, 3), eval_field(&heavy, 3));
}
