//! The algorithm comparison and the cost inspection, short of their output.
//!
//! The experiment runners write CSV files and print; what they compute stands
//! here: the evaluation budget shared by every method, the ablated GA
//! configurations, the per-run seeds, one run of every compared method, and
//! the chromosomes whose costs the inspection reports.
use vstd::prelude::*;
use crate::circuits::CircuitFactory;
use crate::ec::baselines::{MAX_DRAWS, bests_non_increasing, greedy, hill_climb, random_search, uniform_chromosome, uniform_genes};
use crate::ec::ga::{self, GaConfig, sampleable, ga_evolution, elite_count};
use crate::ec::{Record, StaticOracle, cost_scalar};
use crate::rng::seeded;
use crate::strategy::{Chromosome, valid_genes, card_u8};

verus! {

/// Largest search space the exhaustive baseline will attempt to enumerate.
pub const EXHAUSTIVE_LIMIT: u128 = 200_000;

/// What the algorithm comparison derives from the GA configuration.
#[derive(Clone, Copy, Debug)]
pub struct CompareSettings {
    /// Evaluation budget of every method: what the GA spends,
    /// `pop_size * (generations + 1)`.
    pub budget: usize,
    /// Random search records its progress every `sample_every` evaluations:
    /// the population size, at least 1.
    pub sample_every: usize,
    /// The GA without mutation.
    pub xover_only: GaConfig,
    /// The GA without crossover.
    pub mut_only: GaConfig,
}

/// The comparison settings for the GA configuration `cfg`.
pub fn compare_settings(cfg: &GaConfig) -> (s: CompareSettings)
    requires
        cfg.generations < usize::MAX,
        cfg.pop_size * (cfg.generations + 1) <= usize::MAX,
    ensures
        s.budget == cfg.pop_size * (cfg.generations + 1),
        s.sample_every == if cfg.pop_size == 0 { 1 } else { cfg.pop_size },
        s.xover_only == (GaConfig { mutation_rate: 0, ..*cfg }),
        s.mut_only == (GaConfig { crossover_rate: 0, ..*cfg }),
{
    let budget = cfg.pop_size * (cfg.generations + 1);
    let sample_every = if cfg.pop_size == 0 {
        1
    } else {
        cfg.pop_size
    };
    let xover_only = GaConfig { mutation_rate: 0, ..*cfg };
    let mut_only = GaConfig { crossover_rate: 0, ..*cfg };
    CompareSettings { budget, sample_every, xover_only, mut_only }
}

/// The seed of run `run`: `seed + run`, wrapping.
pub fn run_seed(seed: u64, run: usize) -> (r: u64)
    ensures
        r == (seed as int + run as int) % 0x1_0000_0000_0000_0000,
{
    let r64: u64 = run as u64;
    proof {
        assert(run as int == r64 as int) by (bit_vector)
            requires r64 == run as u64;
    }
    seed.wrapping_add(r64)
}

/// The stochastic methods of the algorithm comparison, in the order in which
/// each run performs them.
#[derive(Clone, Copy, Debug, PartialEq, Eq, Structural)]
pub enum Method {
    /// The GA with the given configuration.
    Ga,
    /// The GA without mutation.
    GaXoverOnly,
    /// The GA without crossover.
    GaMutOnly,
    /// Random search on the GA's budget.
    Random,
    /// Hill climbing with restarts on the GA's budget.
    HillClimb,
    /// Greedy coordinate descent.
    Greedy,
}

/// The order of the methods in a comparison run.
pub open spec fn method_order() -> Seq<Method> {
    seq![Method::Ga, Method::GaXoverOnly, Method::GaMutOnly, Method::Random, Method::HillClimb, Method::Greedy]
}

/// What one method produced in one run.
pub struct Trace {
    pub method: Method,
    pub best: Chromosome,
    pub best_fitness: u64,
    pub history: Vec<Record>,
}

/// The best chromosome of a trace is valid, its fitness is the static cost
/// model's, and no recorded best is below it.
pub open spec fn trace_sound<F: CircuitFactory>(t: Trace, factory: F, space: Seq<usize>) -> bool {
    &&& valid_genes(t.best.genes@, space)
    &&& t.best_fitness == cost_scalar(factory.cost_model(t.best.genes@))
    &&& forall|g: int| 0 <= g < t.history@.len() ==> t.best_fitness <= (#[trigger] t.history@[g]).best
}

/// A GA trace under `cfg`: its history records generations that evolved as
/// [`ga_evolution`] says, scored by the static cost model of `factory`.
pub open spec fn ga_trace<F: CircuitFactory>(t: Trace, factory: F, space: Seq<usize>, cfg: GaConfig) -> bool {
    exists|o: StaticOracle<F>, pops: Seq<Seq<Seq<u8>>>, fits: Seq<Seq<u64>>|
        o.factory_view() == factory && #[trigger] ga_evolution(
            pops,
            fits,
            space,
            o,
            cfg.pop_size as nat,
            elite_count(cfg.elitism, cfg.pop_size),
            cfg.mutation_rate,
            cfg.crossover_rate,
            t.history@,
        )
}

/// One run of the algorithm comparison: every method of [`method_order`],
/// each with a fresh cache of static costs and a generator seeded with
/// `seed`. Random search and hill climbing get the GA's evaluation budget.
pub fn compare_run<F: CircuitFactory + Copy>(factory: F, space: &[usize], cfg: &GaConfig, seed: u64) -> (traces:
    Vec<Trace>)
    requires
        cfg.pop_size >= 1,
        cfg.generations < usize::MAX,
        cfg.pop_size * (cfg.generations + 1) <= usize::MAX,
        sampleable(space@),
        space@ == factory.space_model(),
    ensures
        traces@.len() == 6,
        forall|i: int| 0 <= i < 6 ==> (#[trigger] traces@[i]).method == method_order()[i],
        forall|i: int| 0 <= i < 6 ==> trace_sound(#[trigger] traces@[i], factory, space@),
        forall|i: int| 0 <= i < 3 ==> (#[trigger] traces@[i]).history@.len() == cfg.generations + 1,
        forall|i: int| 3 <= i < 6 ==> bests_non_increasing((#[trigger] traces@[i]).history@),
        traces@[4].history@.last().evaluations >= cfg.pop_size * (cfg.generations + 1) || traces@[4].history@.len()
            == MAX_DRAWS + 1,
        ga_trace(traces@[0], factory, space@, *cfg),
        ga_trace(traces@[1], factory, space@, (GaConfig { mutation_rate: 0, ..*cfg })),
        ga_trace(traces@[2], factory, space@, (GaConfig { crossover_rate: 0, ..*cfg })),
{
    let settings = compare_settings(cfg);
    let mut traces: Vec<Trace> = Vec::new();
    let configs = [*cfg, settings.xover_only, settings.mut_only];
    let methods = [Method::Ga, Method::GaXoverOnly, Method::GaMutOnly];
    for v in 0..3usize
        invariant
            traces@.len() == v,
            configs@ == seq![*cfg, settings.xover_only, settings.mut_only],
            methods@ == seq![Method::Ga, Method::GaXoverOnly, Method::GaMutOnly],
            settings.xover_only.pop_size == cfg.pop_size,
            settings.mut_only.pop_size == cfg.pop_size,
            settings.xover_only.generations == cfg.generations,
            settings.mut_only.generations == cfg.generations,
            cfg.pop_size >= 1,
            sampleable(space@),
            space@ == factory.space_model(),
            forall|i: int| 0 <= i < v ==> (#[trigger] traces@[i]).method == method_order()[i],
            forall|i: int| 0 <= i < v ==> trace_sound(#[trigger] traces@[i], factory, space@),
            forall|i: int| 0 <= i < v ==> (#[trigger] traces@[i]).history@.len() == cfg.generations + 1,
            forall|i: int| 0 <= i < v ==> ga_trace(#[trigger] traces@[i], factory, space@, configs@[i]),
    {
        let mut rng = seeded(seed);
        let mut oracle = StaticOracle::new(factory);
        let c = configs[v];
        let out = ga::run(space, &c, &mut oracle, &mut rng);
        let ghost hist = out.history@;
        traces.push(Trace { method: methods[v], best: out.best, best_fitness: out.best_fitness, history: out.history });
        proof {
            assert(traces@[v as int].history@ == hist);
        }
    }
    proof {
        assert(ga_trace(traces@[0], factory, space@, configs@[0]));
        assert(ga_trace(traces@[1], factory, space@, configs@[1]));
        assert(ga_trace(traces@[2], factory, space@, configs@[2]));
    }
    let mut rng = seeded(seed);
    let mut oracle = StaticOracle::new(factory);
    let out = random_search(space, settings.budget, settings.sample_every, &mut oracle, &mut rng);
    traces.push(Trace { method: Method::Random, best: out.best, best_fitness: out.best_fitness, history: out.history });
    let mut rng = seeded(seed);
    let mut oracle = StaticOracle::new(factory);
    let out = hill_climb(space, settings.budget, &mut oracle, &mut rng);
    traces.push(Trace { method: Method::HillClimb, best: out.best, best_fitness: out.best_fitness, history: out.history });
    let mut rng = seeded(seed);
    let mut oracle = StaticOracle::new(factory);
    let out = greedy(space, &mut oracle, &mut rng);
    traces.push(Trace { method: Method::Greedy, best: out.best, best_fitness: out.best_fitness, history: out.history });
    traces
}

/// Number of random mixes the cost inspection looks at.
pub const INSPECT_MIXES: usize = 5;

/// The chromosomes whose static costs the inspection reports: for each value
/// `s` below the first axis' cardinality, all genes equal to `s`; then
/// [`INSPECT_MIXES`] random chromosomes drawn from a generator seeded with
/// `seed`.
pub fn inspect_chromosomes(space: &[usize], seed: u64) -> (out: Vec<Chromosome>)
    requires
        forall|i: int| 0 <= i < space@.len() ==> card_u8(#[trigger] space@[i]) > 0,
        space@.len() > 0 ==> space@[0] <= 255,
    ensures
        out@.len() == (if space@.len() == 0 { 0 } else { space@[0] as int }) + INSPECT_MIXES,
        forall|v: int|
            0 <= v < (if space@.len() == 0 { 0 } else { space@[0] as int }) ==> (#[trigger] out@[v]).genes@
                == uniform_genes(v as u8, space@.len() as nat),
        forall|j: int|
            (if space@.len() == 0 { 0 } else { space@[0] as int }) <= j < out@.len() ==> valid_genes(
                (#[trigger] out@[j]).genes@,
                space@,
            ),
{
    let n_strategies: usize = if space.len() == 0 {
        0
    } else {
        space[0]
    };
    let mut out: Vec<Chromosome> = Vec::new();
    for v in 0..n_strategies
        invariant
            n_strategies <= 255,
            out@.len() == v,
            forall|w: int| 0 <= w < v ==> (#[trigger] out@[w]).genes@ == uniform_genes(w as u8, space@.len() as nat),
    {
        out.push(uniform_chromosome(v as u8, space.len()));
    }
    let mut rng = seeded(seed);
    for t in 0..INSPECT_MIXES
        invariant
            forall|i: int| 0 <= i < space@.len() ==> card_u8(#[trigger] space@[i]) > 0,
            out@.len() == n_strategies + t,
            forall|w: int| 0 <= w < n_strategies ==> (#[trigger] out@[w]).genes@ == uniform_genes(w as u8, space@.len() as nat),
            forall|j: int| n_strategies <= j < out@.len() ==> valid_genes((#[trigger] out@[j]).genes@, space@),
    {
        out.push(Chromosome::random(space, &mut rng));
    }
    out
}

} // verus!
