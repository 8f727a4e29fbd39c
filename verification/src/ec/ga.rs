//! Single-objective generational genetic algorithm.
//!
//! Tournament selection, uniform crossover, point mutation, and elitism. The
//! crossover and mutation rates are configurable so that ablations
//! (crossover-only, mutation-only) reduce to setting one rate to zero.
use vstd::prelude::*;
use rand_chacha::ChaCha8Rng;
use crate::ec::operators::{point_mutation_drawn, uniform_crossover_drawn, lemma_crossover_valid, lemma_mutation_valid, crossed_drawn, mutated_drawn};
use crate::ec::{Oracle, accepts_space, PopulationStats, Record};
use crate::rng::{Draws, UNIT_53};
use crate::strategy::{Chromosome, valid_genes, card_u8, hamming_dist};

verus! {

/// Genetic-algorithm hyperparameters. Rates are probabilities in units of
/// `2^-53` (a draw of 53 random bits falls below the rate with that
/// probability), so `0` never fires and `2^53` always does.
#[derive(Clone, Copy, Debug)]
pub struct GaConfig {
    pub pop_size: usize,
    pub generations: usize,
    pub tournament_k: usize,
    pub crossover_rate: u64,
    pub mutation_rate: u64,
    pub elitism: usize,
}

/// `0.9` in units of `2^-53` (the least integer not below `0.9 * 2^53`).
pub const RATE_0_9: u64 = 8106479329266893;

/// `0.1` in units of `2^-53` (the least integer not below `0.1 * 2^53`).
pub const RATE_0_1: u64 = 900719925474100;

impl Default for GaConfig {
    fn default() -> (c: Self)
        ensures
            c.pop_size == 60,
            c.generations == 80,
            c.tournament_k == 3,
            c.crossover_rate == RATE_0_9,
            c.mutation_rate == RATE_0_1,
            c.elitism == 2,
    {
        GaConfig {
            pop_size: 60,
            generations: 80,
            tournament_k: 3,
            crossover_rate: RATE_0_9,
            mutation_rate: RATE_0_1,
            elitism: 2,
        }
    }
}

/// Result of a GA run.
pub struct GaOutcome {
    pub best: Chromosome,
    pub best_fitness: u64,
    pub history: Vec<Record>,
}

/// Sum of a sequence of fitness values.
pub open spec fn fitness_sum(s: Seq<u64>) -> nat
    decreases s.len(),
{
    if s.len() == 0 {
        0
    } else {
        fitness_sum(s.drop_last()) + (s.last() as nat)
    }
}

/// Sum of the Hamming distances from individual `i` to individuals
/// `i + 1 .. j`.
pub open spec fn row_distance(pop: Seq<Chromosome>, i: int, j: int) -> nat
    decreases j - i,
{
    if j <= i + 1 {
        0
    } else {
        row_distance(pop, i, j - 1) + hamming_dist(pop[i].genes@, pop[j - 1].genes@)
    }
}

/// Sum of the Hamming distances over unordered pairs whose first member is
/// below `i`.
pub open spec fn pair_distance(pop: Seq<Chromosome>, i: nat) -> nat
    decreases i,
{
    if i == 0 {
        0
    } else {
        pair_distance(pop, (i - 1) as nat) + row_distance(pop, i - 1, pop.len() as int)
    }
}


/// Index of the minimum-fitness individual (the first one on ties).
pub fn argmin(fit: &[u64]) -> (best: usize)
    ensures
        fit@.len() == 0 ==> best == 0,
        fit@.len() > 0 ==> {
            &&& best < fit@.len()
            &&& forall|j: int| 0 <= j < fit@.len() ==> fit@[best as int] <= #[trigger] fit@[j]
            &&& forall|j: int| 0 <= j < best ==> fit@[best as int] < #[trigger] fit@[j]
        },
{
    let mut best: usize = 0;
    if fit.len() == 0 {
        return 0;
    }
    let n = fit.len();
    for i in 1..n
        invariant
            n == fit@.len(),
            n > 0,
            best < i,
            forall|j: int| 0 <= j < i ==> fit@[best as int] <= #[trigger] fit@[j],
            forall|j: int| 0 <= j < best ==> fit@[best as int] < #[trigger] fit@[j],
    {
        if fit[i] < fit[best] {
            best = i;
        }
    }
    best
}

/// The winner of a tournament among the drawn indices `draws`, in draw
/// order: a challenger replaces the current winner only when strictly
/// fitter, so the first drawn of the fittest wins.
pub open spec fn tournament_winner_spec(fit: Seq<u64>, draws: Seq<usize>) -> usize
    decreases draws.len(),
{
    if draws.len() <= 1 {
        draws[0]
    } else {
        let w = tournament_winner_spec(fit, draws.drop_last());
        if fit[draws.last() as int] < fit[w as int] {
            draws.last()
        } else {
            w
        }
    }
}

/// The winner of a tournament among the drawn indices `draws`: the first
/// drawn of those with the least fitness.
pub fn tournament_winner(fit: &[u64], draws: &Vec<usize>) -> (r: usize)
    requires
        draws@.len() > 0,
        forall|i: int| 0 <= i < draws@.len() ==> (#[trigger] draws@[i]) < fit@.len(),
    ensures
        r == tournament_winner_spec(fit@, draws@),
        exists|i: int| 0 <= i < draws@.len() && draws@[i] == r,
        forall|j: int| 0 <= j < draws@.len() ==> fit@[r as int] <= fit@[#[trigger] draws@[j] as int],
{
    let mut best = draws[0];
    let mut t: usize = 1;
    proof {
        assert(draws@.take(1).drop_last() =~= Seq::<usize>::empty());
        assert(draws@.take(1)[0] == draws@[0]);
    }
    while t < draws.len()
        invariant
            1 <= t <= draws@.len(),
            forall|i: int| 0 <= i < draws@.len() ==> (#[trigger] draws@[i]) < fit@.len(),
            best == tournament_winner_spec(fit@, draws@.take(t as int)),
            exists|i: int| 0 <= i < t && draws@[i] == best,
            forall|j: int| 0 <= j < t ==> fit@[best as int] <= fit@[#[trigger] draws@[j] as int],
        decreases draws@.len() - t,
    {
        let challenger = draws[t];
        proof {
            assert(draws@.take(t + 1).drop_last() =~= draws@.take(t as int));
            assert(draws@.take(t + 1).last() == challenger);
        }
        if fit[challenger] < fit[best] {
            best = challenger;
        }
        t = t + 1;
    }
    proof {
        assert(draws@.take(draws@.len() as int) =~= draws@);
    }
    best
}

/// `r` won a tournament of `max(k, 1)` index draws recorded from `d0` to
/// `d1`: it is one of them, none is fitter, and every one drawn before it is
/// strictly less fit.
pub open spec fn tourney_won(fit: Seq<u64>, k: usize, d0: Draws, d1: Draws, r: usize) -> bool {
    let m = d0.indices().len();
    &&& d1.coins() == d0.coins() && d1.values() == d0.values() && d1.words() == d0.words()
    &&& d1.indices().len() == m + (if k == 0 { 1 } else { k })
    &&& d1.indices().take(m as int) == d0.indices()
    &&& r < fit.len()
    &&& forall|j: int| m <= j < d1.indices().len() ==> (#[trigger] d1.indices()[j]) < fit.len()
    &&& forall|j: int| m <= j < d1.indices().len() ==> fit[r as int] <= fit[#[trigger] d1.indices()[j] as int]
    &&& exists|j: int|
        m <= j < d1.indices().len() && #[trigger] d1.indices()[j] == r && forall|i: int|
            m <= i < j ==> fit[r as int] < fit[#[trigger] d1.indices()[i] as int]
}

/// k-ary tournament selection: draw `k` random individuals (at least one),
/// return the index of the fittest (the first drawn on ties). The draws are
/// those recorded in `d`: the result is one of them, no drawn individual is
/// fitter, and every one drawn before it is strictly less fit.
fn tournament(fit: &[u64], k: usize, d: &mut Draws) -> (r: usize)
    requires
        fit@.len() > 0,
    ensures
        r < fit@.len(),
        tourney_won(fit@, k, *old(d), *final(d), r),
        final(d).coins() == old(d).coins(),
        final(d).indices().len() == old(d).indices().len() + (if k == 0 { 1 } else { k }),
        final(d).indices().take(old(d).indices().len() as int) == old(d).indices(),
        forall|j: int|
            old(d).indices().len() <= j < final(d).indices().len() ==> (#[trigger] final(d).indices()[j]) < fit@.len(),
        forall|j: int|
            old(d).indices().len() <= j < final(d).indices().len()
                ==> fit@[r as int] <= fit@[#[trigger] final(d).indices()[j] as int],
        exists|j: int|
            old(d).indices().len() <= j < final(d).indices().len() && #[trigger] final(d).indices()[j] == r
                && forall|i: int|
                old(d).indices().len() <= i < j ==> fit@[r as int] < fit@[#[trigger] final(d).indices()[i] as int],
        exists|draws: Seq<usize>|
            draws.len() == (if k == 0 { 1 } else { k }) && (forall|i: int|
                0 <= i < draws.len() ==> (#[trigger] draws[i]) < fit@.len()) && r == tournament_winner_spec(
                fit@,
                draws,
            ),
{
    let ghost base = d.indices();
    let n = fit.len();
    let mut draws: Vec<usize> = Vec::new();
    draws.push(d.index(n));
    let mut t: usize = 1;
    while t < k
        invariant
            n == fit@.len(),
            n > 0,
            1 <= t,
            t <= k || t == 1,
            draws@.len() == t,
            forall|i: int| 0 <= i < draws@.len() ==> (#[trigger] draws@[i]) < n,
            d.indices() == base + draws@,
            d.coins() == old(d).coins(),
            d.values() == old(d).values(),
            d.words() == old(d).words(),
            base == old(d).indices(),
        decreases k - t,
    {
        draws.push(d.index(n));
        t = t + 1;
    }
    let r = tournament_winner(fit, &draws);
    proof {
        let i = choose|i: int| 0 <= i < draws@.len() && draws@[i] == r;
        assert(draws@[i] < n);
        let all = d.indices();
        let m = base.len();
        assert(all.take(m as int) =~= base);
        assert forall|j: int| m <= j < all.len() implies (#[trigger] all[j]) < n by {
            assert(all[j] == draws@[j - m]);
        }
        assert forall|j: int| m <= j < all.len() implies fit@[r as int] <= fit@[#[trigger] all[j] as int] by {
            assert(all[j] == draws@[j - m]);
        }
        lemma_tournament_first(fit@, draws@);
        let f = choose|f: int| 0 <= f < draws@.len() && draws@[f] == r && forall|i2: int|
            0 <= i2 < f ==> fit@[r as int] < fit@[#[trigger] draws@[i2] as int];
        assert(all[m + f] == r);
        assert forall|i2: int| m <= i2 < m + f implies fit@[r as int] < fit@[#[trigger] all[i2] as int] by {
            assert(all[i2] == draws@[i2 - m]);
        }
    }
    r
}

/// The tournament winner is the first drawn individual of least fitness:
/// every one drawn before it is strictly less fit.
pub proof fn lemma_tournament_first(fit: Seq<u64>, draws: Seq<usize>)
    requires
        draws.len() > 0,
        forall|i: int| 0 <= i < draws.len() ==> (#[trigger] draws[i]) < fit.len(),
    ensures
        exists|f: int|
            0 <= f < draws.len() && draws[f] == tournament_winner_spec(fit, draws) && forall|i: int|
                0 <= i < f ==> fit[tournament_winner_spec(fit, draws) as int] < fit[#[trigger] draws[i] as int],
        forall|j: int| 0 <= j < draws.len() ==> fit[tournament_winner_spec(fit, draws) as int] <= fit[#[trigger] draws[j] as int],
    decreases draws.len(),
{
    if draws.len() > 1 {
        let init = draws.drop_last();
        lemma_tournament_first(fit, init);
        let w = tournament_winner_spec(fit, init);
        let f0 = choose|f: int| 0 <= f < init.len() && init[f] == w && forall|i: int|
            0 <= i < f ==> fit[w as int] < fit[#[trigger] init[i] as int];
        if fit[draws.last() as int] < fit[w as int] {
            let f = draws.len() - 1;
            assert forall|i: int| 0 <= i < f implies fit[draws.last() as int] < fit[#[trigger] draws[i] as int] by {
                assert(draws[i] == init[i]);
                assert(fit[w as int] <= fit[init[i] as int]);
            }
            assert(draws[f] == tournament_winner_spec(fit, draws));
        } else {
            assert(draws[f0] == init[f0]);
            assert forall|i: int| 0 <= i < f0 implies fit[w as int] < fit[#[trigger] draws[i] as int] by {
                assert(draws[i] == init[i]);
            }
        }
        assert forall|j: int| 0 <= j < draws.len() implies fit[tournament_winner_spec(fit, draws) as int] <= fit[#[trigger] draws[j] as int] by {
            if j < init.len() {
                assert(draws[j] == init[j]);
            }
        }
    } else {
        assert(draws[0] == tournament_winner_spec(fit, draws));
    }
}

/// `order` lists `0..n` sorted by fitness, ties by index (the order a stable
/// sort of the indices by fitness gives).
pub open spec fn is_fitness_order(fit: Seq<u64>, order: Seq<usize>) -> bool {
    &&& order.len() == fit.len()
    &&& forall|i: int| 0 <= i < order.len() ==> (#[trigger] order[i]) < fit.len()
    &&& forall|i: int, j: int|
        0 <= i < j < order.len() ==> (fit[#[trigger] order[i] as int] < fit[#[trigger] order[j] as int]
            || (fit[order[i] as int] == fit[order[j] as int] && order[i] < order[j]))
}

/// Indices of `fit` sorted by fitness, ties by index (insertion sort).
pub(crate) fn fitness_order(fit: &Vec<u64>) -> (order: Vec<usize>)
    ensures
        is_fitness_order(fit@, order@),
{
    let mut order: Vec<usize> = Vec::new();
    let n = fit.len();
    for k in 0..n
        invariant
            n == fit@.len(),
            order@.len() == k,
            forall|i: int| 0 <= i < order@.len() ==> (#[trigger] order@[i]) < k,
            forall|i: int, j: int|
                0 <= i < j < order@.len() ==> (fit@[#[trigger] order@[i] as int] < fit@[
                    #[trigger] order@[j] as int] || (fit@[order@[i] as int] == fit@[order@[j] as int]
                    && order@[i] < order@[j])),
    {
        let mut p: usize = 0;
        while p < order.len() && fit[order[p]] <= fit[k]
            invariant
                n == fit@.len(),
                k < n,
                order@.len() == k,
                p <= order@.len(),
                forall|i: int| 0 <= i < order@.len() ==> (#[trigger] order@[i]) < k,
                forall|i: int, j: int|
                    0 <= i < j < order@.len() ==> (fit@[#[trigger] order@[i] as int] < fit@[
                        #[trigger] order@[j] as int] || (fit@[order@[i] as int] == fit@[order@[j] as int]
                        && order@[i] < order@[j])),
                forall|i: int| 0 <= i < p ==> fit@[#[trigger] order@[i] as int] <= fit@[k as int],
            decreases order@.len() - p,
        {
            p = p + 1;
        }
        let ghost before = order@;
        proof {
            // Everything from `p` on is strictly worse than `k`.
            assert forall|i: int| p <= i < before.len() implies fit@[k as int] < fit@[#[trigger] before[i] as int] by {
                if i > p {
                    assert(fit@[before[p as int] as int] <= fit@[before[i] as int]);
                }
            }
        }
        order.insert(p, k);
        proof {
            assert(order@ == before.insert(p as int, k));
            assert forall|i: int, j: int| 0 <= i < j < order@.len() implies (fit@[
                #[trigger] order@[i] as int] < fit@[#[trigger] order@[j] as int] || (fit@[order@[i] as int]
                == fit@[order@[j] as int] && order@[i] < order@[j])) by {
                if i < p && j < p {
                    assert(order@[i] == before[i] && order@[j] == before[j]);
                } else if i < p && j == p {
                    assert(order@[i] == before[i]);
                } else if i < p && j > p {
                    assert(order@[i] == before[i] && order@[j] == before[j - 1]);
                } else if i == p {
                    assert(order@[j] == before[j - 1]);
                } else {
                    assert(order@[i] == before[i - 1] && order@[j] == before[j - 1]);
                }
            }
        }
    }
    order
}

/// `s` holds the statistics of `pop` with fitness values `fit`: the fitness
/// sum, the size, the pairwise Hamming distances (saturating), the number of
/// pairs, and the gene count of the first individual (at least 1).
pub open spec fn stats_of(s: PopulationStats, fit: Seq<u64>, pop: Seq<Chromosome>) -> bool {
    &&& s.fitness_sum == fitness_sum(fit)
    &&& s.size == pop.len()
    &&& s.distance_sum == if pair_distance(pop, pop.len() as nat) > u128::MAX as nat {
        u128::MAX as nat
    } else {
        pair_distance(pop, pop.len() as nat)
    }
    &&& s.pairs == pop.len() * (pop.len() - 1) / 2
    &&& s.genes == if pop.len() == 0 || pop[0].genes@.len() == 0 {
        1
    } else {
        pop[0].genes@.len()
    }
}

/// Statistics of a population and its fitness values (see [`stats_of`]).
#[verifier::spinoff_prover]
pub fn population_stats(fit: &Vec<u64>, pop: &Vec<Chromosome>) -> (s: PopulationStats)
    requires
        fit@.len() == pop@.len(),
    ensures
        stats_of(s, fit@, pop@),
{
    let n = pop.len();
    let mut total: u128 = 0;
    for i in 0..n
        invariant
            n == fit@.len(),
            total == fitness_sum(fit@.take(i as int)),
            total <= i * 0xFFFF_FFFF_FFFF_FFFFu128,
    {
        proof {
            assert(fit@.take(i as int + 1).drop_last() =~= fit@.take(i as int));
            assert(i * 0xFFFF_FFFF_FFFF_FFFFu128 + 0xFFFF_FFFF_FFFF_FFFFu128 <= 0xFFFF_FFFF_FFFF_FFFF_FFFF_FFFF_FFFF_FFFFu128)
                by (nonlinear_arith)
                requires i < 0x1_0000_0000_0000_0000u128;
            assert((i + 1) * 0xFFFF_FFFF_FFFF_FFFFu128 == i * 0xFFFF_FFFF_FFFF_FFFFu128 + 0xFFFF_FFFF_FFFF_FFFFu128)
                by (nonlinear_arith);
        }
        total = total + fit[i] as u128;
    }
    proof {
        assert(fit@.take(n as int) =~= fit@);
    }
    let mut distance: u128 = 0;
    let mut pairs: u128 = 0;
    let ghost mut exact: nat = 0;
    for i in 0..n
        invariant
            n == pop@.len(),
            exact == pair_distance(pop@, i as nat),
            distance == if exact > u128::MAX as nat { u128::MAX as nat } else { exact },
            pairs == i * (2 * n - i - 1) / 2,
            i <= n,
    {
        let mut j: usize = i + 1;
        let ghost row_start = exact;
        while j < n
            invariant
                n == pop@.len(),
                i < n,
                i + 1 <= j <= n,
                exact == row_start + row_distance(pop@, i as int, j as int),
                distance == if exact > u128::MAX as nat { u128::MAX as nat } else { exact },
                pairs == i * (2 * n - i - 1) / 2 + (j - i - 1),
            decreases n - j,
        {
            let h = pop[i].hamming(&pop[j]);
            proof {
                exact = exact + (h as nat);
            }
            if distance > u128::MAX - (h as u128) {
                distance = u128::MAX;
            } else {
                distance = distance + h as u128;
            }
            proof {
                assert(pairs < n * n) by (nonlinear_arith)
                    requires
                        pairs == i * (2 * n - i - 1) / 2 + (j - i - 1),
                        i < n,
                        j < n;
                assert(n * n <= 0xFFFF_FFFF_FFFF_FFFFu128 * 0xFFFF_FFFF_FFFF_FFFFu128) by (nonlinear_arith)
                    requires n <= 0xFFFF_FFFF_FFFF_FFFFu128;
            }
            pairs = pairs + 1;
            j = j + 1;
        }
        proof {
            assert((i + 1) * (2 * n - (i + 1) - 1) / 2 == i * (2 * n - i - 1) / 2 + (n - i - 1)) by (nonlinear_arith)
                requires i < n;
        }
    }
    proof {
        assert(n * (2 * n - n - 1) / 2 == n * (n - 1) / 2);
    }
    let genes = if n == 0 || pop[0].len() == 0 {
        1
    } else {
        pop[0].len()
    };
    PopulationStats { fitness_sum: total, size: n, distance_sum: distance, pairs, genes }
}

/// Fitness of every individual of `pop`, in order.
pub fn evaluate<O: Oracle>(pop: &Vec<Chromosome>, oracle: &mut O) -> (fit: Vec<u64>)
    requires
        forall|i: int| 0 <= i < pop@.len() ==> old(oracle).accepts(#[trigger] pop@[i].genes@),
    ensures
        fit@.len() == pop@.len(),
        forall|i: int| 0 <= i < pop@.len() ==> #[trigger] fit@[i] == old(oracle).fitness(pop@[i].genes@),
        final(oracle).evaluated() == old(oracle).evaluated() + population_genes(pop@).to_set(),
        final(oracle).queries() == old(oracle).queries() + pop@.len(),
        forall|g: Seq<u8>| #[trigger] final(oracle).fitness(g) == old(oracle).fitness(g),
        forall|g: Seq<u8>| #[trigger] final(oracle).accepts(g) == old(oracle).accepts(g),
        forall|g: Seq<u8>| #[trigger] final(oracle).objective_values(g) == old(oracle).objective_values(g),
{
    let ghost o0 = *oracle;
    let ghost mut seen: Seq<Seq<u8>> = Seq::empty();
    let mut fit: Vec<u64> = Vec::new();
    let n = pop.len();
    for i in 0..n
        invariant
            n == pop@.len(),
            fit@.len() == i,
            seen.len() == i,
            oracle.queries() == o0.queries() + i,
            forall|j: int| 0 <= j < i ==> #[trigger] seen[j] == pop@[j].genes@,
            oracle.evaluated() == o0.evaluated() + seen.to_set(),
            forall|j: int| 0 <= j < i ==> #[trigger] fit@[j] == o0.fitness(pop@[j].genes@),
            forall|g: Seq<u8>| #[trigger] oracle.fitness(g) == o0.fitness(g),
            forall|g: Seq<u8>| #[trigger] oracle.accepts(g) == o0.accepts(g),
            forall|j: int| 0 <= j < pop@.len() ==> o0.accepts(#[trigger] pop@[j].genes@),
            forall|g: Seq<u8>| #[trigger] oracle.objective_values(g) == o0.objective_values(g),
    {
        let ghost before = oracle.evaluated();
        let f = oracle.scalar(&pop[i]);
        fit.push(f);
        proof {
            seen.lemma_push_to_set_commute(pop@[i as int].genes@);
            seen = seen.push(pop@[i as int].genes@);
            assert(oracle.evaluated() =~= o0.evaluated() + seen.to_set());
        }
    }
    proof {
        assert(seen =~= population_genes(pop@));
    }
    fit
}

/// The progress record of a generation: the evaluation count, the best
/// fitness found so far, and the statistics of the population.
fn record(evaluations: usize, best: u64, fit: &Vec<u64>, pop: &Vec<Chromosome>) -> (r: Record)
    requires
        fit@.len() == pop@.len(),
    ensures
        r.evaluations == evaluations,
        r.best == best,
        r.population is Some,
        stats_of(r.population.unwrap(), fit@, pop@),
{
    Record { evaluations, best, population: Some(population_stats(fit, pop)) }
}


/// Every chromosome of `pop` is valid for `space`.
pub open spec fn all_valid(pop: Seq<Chromosome>, space: Seq<usize>) -> bool {
    forall|i: int| 0 <= i < pop.len() ==> valid_genes(#[trigger] pop[i].genes@, space)
}

/// The search space admits random sampling and point mutation: every axis is
/// non-empty as seen through a `u8`, and so is every axis less one value.
pub open spec fn sampleable(space: Seq<usize>) -> bool {
    &&& forall|i: int| 0 <= i < space.len() ==> card_u8(#[trigger] space[i]) > 0
    &&& forall|i: int|
        0 <= i < space.len() && (#[trigger] space[i]) > 1 ==> card_u8((space[i] - 1) as usize) > 0
}

/// The gene sequences of a population.
pub open spec fn population_genes(pop: Seq<Chromosome>) -> Seq<Seq<u8>> {
    pop.map_values(|c: Chromosome| c.genes@)
}

/// `gs` are `n` valid gene sequences and `fit` their fitness values.
pub open spec fn scored_generation<O: Oracle>(gs: Seq<Seq<u8>>, fit: Seq<u64>, space: Seq<usize>, oracle: O, n: nat) -> bool {
    &&& gs.len() == n
    &&& fit.len() == n
    &&& forall|i: int| 0 <= i < n ==> valid_genes(#[trigger] gs[i], space) && fit[i] == oracle.fitness(gs[i])
}

/// Elitism: the first `e` members of `next` are the `e` fittest of `prev`,
/// in the stable order by fitness.
pub open spec fn elites_kept(prev: Seq<Seq<u8>>, fit: Seq<u64>, next: Seq<Seq<u8>>, e: nat) -> bool {
    exists|order: Seq<usize>|
        #[trigger] is_fitness_order(fit, order) && e <= next.len() && e <= order.len() && forall|t: int|
            0 <= t < e ==> #[trigger] next[t] == prev[order[t] as int]
}

/// How many individuals elitism carries over: the configured number, at
/// most the whole population.
pub open spec fn elite_count(elitism: usize, pop_size: usize) -> nat {
    if elitism < pop_size {
        elitism as nat
    } else {
        pop_size as nat
    }
}

/// The least value of a non-empty sequence.
pub open spec fn seq_min(s: Seq<u64>) -> u64
    decreases s.len(),
{
    if s.len() <= 1 {
        s[0]
    } else {
        let m = seq_min(s.drop_last());
        if s.last() < m {
            s.last()
        } else {
            m
        }
    }
}

/// The least fitness over the generations `0..=g`.
pub open spec fn best_upto(fits: Seq<Seq<u64>>, g: int) -> u64
    decreases g,
{
    if g <= 0 {
        seq_min(fits[0])
    } else {
        let m = best_upto(fits, g - 1);
        if seq_min(fits[g]) < m {
            seq_min(fits[g])
        } else {
            m
        }
    }
}

/// The least value of a non-empty sequence is one of its elements and no
/// element is below it.
pub proof fn lemma_seq_min(s: Seq<u64>)
    requires
        s.len() > 0,
    ensures
        exists|i: int| 0 <= i < s.len() && s[i] == seq_min(s),
        forall|j: int| 0 <= j < s.len() ==> seq_min(s) <= #[trigger] s[j],
    decreases s.len(),
{
    if s.len() > 1 {
        let d = s.drop_last();
        lemma_seq_min(d);
        let i = choose|i: int| 0 <= i < d.len() && d[i] == seq_min(d);
        assert(s[i] == d[i]);
        assert forall|j: int| 0 <= j < s.len() implies seq_min(s) <= #[trigger] s[j] by {
            if j < d.len() {
                assert(s[j] == d[j]);
            }
        }
        if s.last() < seq_min(d) {
            assert(s[s.len() - 1] == seq_min(s));
        }
    } else {
        assert(s[0] == seq_min(s));
    }
}

/// An element no larger than any other is the least value.
proof fn lemma_seq_min_is(s: Seq<u64>, b: int)
    requires
        0 <= b < s.len(),
        forall|j: int| 0 <= j < s.len() ==> s[b] <= #[trigger] s[j],
    ensures
        seq_min(s) == s[b],
{
    lemma_seq_min(s);
    let i = choose|i: int| 0 <= i < s.len() && s[i] == seq_min(s);
    assert(s[b] <= s[i]);
}

/// The best over a prefix of generations ignores later ones.
proof fn lemma_best_upto_prefix(fits: Seq<Seq<u64>>, x: Seq<u64>, g: int)
    requires
        0 <= g < fits.len(),
    ensures
        best_upto(fits.push(x), g) == best_upto(fits, g),
    decreases g,
{
    assert(fits.push(x)[g] == fits[g]);
    if g > 0 {
        lemma_best_upto_prefix(fits, x, g - 1);
    }
}

/// Every gene sequence of any of the generations `pops`.
pub open spec fn all_members(pops: Seq<Seq<Seq<u8>>>) -> Set<Seq<u8>>
    decreases pops.len(),
{
    if pops.len() == 0 {
        Set::empty()
    } else {
        all_members(pops.drop_last()) + pops.last().to_set()
    }
}

/// Some member of `prev` holds `v` at locus `i`.
pub open spec fn allele_present(prev: Seq<Seq<u8>>, i: int, v: u8) -> bool {
    exists|k: int| 0 <= k < prev.len() && i < prev[k].len() && #[trigger] prev[k][i] == v
}

/// Every gene of `next` already stands at its locus in some member of
/// `prev`: no allele is new.
pub open spec fn alleles_inherited(prev: Seq<Seq<u8>>, next: Seq<Seq<u8>>) -> bool {
    forall|j: int, i: int|
        0 <= j < next.len() && 0 <= i < next[j].len() ==> allele_present(prev, i, #[trigger] next[j][i])
}

/// `c` is a member of `prev`.
pub open spec fn member_of(prev: Seq<Seq<u8>>, c: Seq<u8>) -> bool {
    exists|k: int| 0 <= k < prev.len() && #[trigger] prev[k] == c
}

/// Every member of `next` is a copy of a member of `prev`.
pub open spec fn copies_of(prev: Seq<Seq<u8>>, next: Seq<Seq<u8>>) -> bool {
    forall|j: int| 0 <= j < next.len() ==> member_of(prev, #[trigger] next[j])
}

/// The generations of a run, one per history record: each scored, each
/// record holding the least fitness of the generations up to its own and
/// the fitness sum of its own, each generation after the first beginning
/// with the elites of its predecessor. Without
/// mutation no generation holds an allele its predecessor lacked; without
/// mutation and crossover each generation only copies its predecessor.
pub open spec fn ga_evolution<O: Oracle>(
    pops: Seq<Seq<Seq<u8>>>,
    fits: Seq<Seq<u64>>,
    space: Seq<usize>,
    oracle: O,
    n: nat,
    e: nat,
    mutation_rate: u64,
    crossover_rate: u64,
    history: Seq<Record>,
) -> bool {
    &&& pops.len() == history.len() && fits.len() == history.len()
    &&& forall|g: int| 0 <= g < pops.len() ==> scored_generation(#[trigger] pops[g], fits[g], space, oracle, n)
    &&& forall|g: int|
        0 <= g < history.len() ==> (#[trigger] history[g]).best == best_upto(fits, g)
            && history[g].population is Some && history[g].population.unwrap().fitness_sum == fitness_sum(fits[g])
    &&& forall|g: int| 0 <= g < pops.len() - 1 ==> #[trigger] elites_kept(pops[g], fits[g], pops[g + 1], e)
    &&& mutation_rate == 0 ==> forall|g: int| 0 <= g < pops.len() - 1 ==> #[trigger] alleles_inherited(pops[g], pops[g + 1])
    &&& mutation_rate == 0 && crossover_rate == 0 ==> forall|g: int| 0 <= g < pops.len() - 1 ==> #[trigger] copies_of(pops[g], pops[g + 1])
}

/// Appending a child whose every gene comes, locus by locus, from one of two
/// members of `prev` keeps `next` free of new alleles.
pub(crate) proof fn lemma_push_inherits(prev: Seq<Seq<u8>>, next: Seq<Seq<u8>>, c: Seq<u8>, ka: int, kb: int)
    requires
        alleles_inherited(prev, next),
        0 <= ka < prev.len(),
        0 <= kb < prev.len(),
        prev[ka].len() == c.len(),
        prev[kb].len() == c.len(),
        forall|i: int| 0 <= i < c.len() ==> #[trigger] c[i] == prev[ka][i] || c[i] == prev[kb][i],
    ensures
        alleles_inherited(prev, next.push(c)),
{
    let nn = next.push(c);
    assert forall|j: int, i: int| 0 <= j < nn.len() && 0 <= i < nn[j].len() implies allele_present(prev, i, #[trigger] nn[j][i]) by {
        if j < next.len() {
            assert(nn[j] == next[j]);
        } else {
            assert(nn[j] == c);
            if c[i] == prev[ka][i] {
                assert(nn[j][i] == prev[ka][i]);
            } else {
                assert(nn[j][i] == prev[kb][i]);
            }
        }
    }
}

/// Appending a copy of a member of `prev` keeps `next` made of copies.
pub(crate) proof fn lemma_push_copies(prev: Seq<Seq<u8>>, next: Seq<Seq<u8>>, c: Seq<u8>, k: int)
    requires
        copies_of(prev, next),
        0 <= k < prev.len(),
        prev[k] == c,
    ensures
        copies_of(prev, next.push(c)),
{
    let nn = next.push(c);
    assert forall|j: int| 0 <= j < nn.len() implies member_of(prev, #[trigger] nn[j]) by {
        if j < next.len() {
            assert(nn[j] == next[j]);
        } else {
            assert(nn[j] == prev[k]);
        }
    }
}

/// Without mutation the GA never invents an allele: every gene of every
/// generation already stood at its locus in the first generation.
pub proof fn lemma_no_new_alleles<O: Oracle>(
    pops: Seq<Seq<Seq<u8>>>,
    fits: Seq<Seq<u64>>,
    space: Seq<usize>,
    oracle: O,
    n: nat,
    e: nat,
    crossover_rate: u64,
    history: Seq<Record>,
    g: int,
)
    requires
        ga_evolution(pops, fits, space, oracle, n, e, 0, crossover_rate, history),
        0 <= g < pops.len(),
    ensures
        alleles_inherited(pops[0], pops[g]),
    decreases g,
{
    if g == 0 {
        assert forall|j: int, i: int| 0 <= j < pops[0].len() && 0 <= i < pops[0][j].len() implies allele_present(
            pops[0],
            i,
            #[trigger] pops[0][j][i],
        ) by {
            assert(pops[0][j][i] == pops[0][j][i]);
        }
    } else {
        lemma_no_new_alleles(pops, fits, space, oracle, n, e, crossover_rate, history, g - 1);
        let h = g - 1;
        assert(alleles_inherited(pops[h], pops[h + 1]));
        assert(h + 1 == g);
        assert forall|j: int, i: int| 0 <= j < pops[g].len() && 0 <= i < pops[g][j].len() implies allele_present(
            pops[0],
            i,
            #[trigger] pops[g][j][i],
        ) by {
            assert(allele_present(pops[g - 1], i, pops[g][j][i]));
            let k = choose|k: int| 0 <= k < pops[g - 1].len() && i < pops[g - 1][k].len() && #[trigger] pops[g - 1][k][i] == pops[g][j][i];
            assert(allele_present(pops[0], i, pops[g - 1][k][i]));
        }
    }
}

/// The breeding of one pair of children from the draws recorded from `d0`
/// to `d6`: a tournament from `d0` to `d1` picks the first parent `p1`, one
/// from `d1` to `d2` the second `p2`; one Bernoulli trial (`d2` to `d3`)
/// against the crossover rate decides whether `x1`, `x2` are the uniform
/// crossover of the parents (`d3` to `d4`) or the parents themselves; `m1`
/// and `m2` are the point mutations of `x1` (`d4` to `d5`) and `x2` (`d5`
/// to `d6`).
pub open spec fn bred_pair(
    fit: Seq<u64>,
    pop: Seq<Seq<u8>>,
    space: Seq<usize>,
    cfg: GaConfig,
    d0: Draws,
    d1: Draws,
    d2: Draws,
    d3: Draws,
    d4: Draws,
    d5: Draws,
    d6: Draws,
    p1: usize,
    p2: usize,
    x1: Seq<u8>,
    x2: Seq<u8>,
    m1: Seq<u8>,
    m2: Seq<u8>,
) -> bool {
    &&& tourney_won(fit, cfg.tournament_k, d0, d1, p1)
    &&& tourney_won(fit, cfg.tournament_k, d1, d2, p2)
    &&& d3.indices() == d2.indices() && d3.coins() == d2.coins() && d3.values() == d2.values()
    &&& d3.words().len() == d2.words().len() + 1
    &&& d3.words().take(d2.words().len() as int) == d2.words()
    &&& d3.words().last() < UNIT_53
    &&& if d3.words().last() < cfg.crossover_rate {
        crossed_drawn(pop[p1 as int], pop[p2 as int], d3, d4, x1, x2)
    } else {
        x1 == pop[p1 as int] && x2 == pop[p2 as int] && d4 == d3
    }
    &&& mutated_drawn(x1, space, cfg.mutation_rate, d4, d5, m1)
    &&& mutated_drawn(x2, space, cfg.mutation_rate, d5, d6, m2)
}

/// One pair of children for the next generation (see [`bred_pair`]), with
/// the indices of their parents.
fn breed(pop: &Vec<Chromosome>, fit: &Vec<u64>, space: &[usize], cfg: &GaConfig, d: &mut Draws) -> (r: (
    Chromosome,
    Chromosome,
    usize,
    usize,
))
    requires
        pop@.len() > 0,
        fit@.len() == pop@.len(),
        sampleable(space@),
        all_valid(pop@, space@),
    ensures
        r.2 < pop@.len() && r.3 < pop@.len(),
        valid_genes(r.0.genes@, space@),
        valid_genes(r.1.genes@, space@),
        exists|d1: Draws, d2: Draws, d3: Draws, d4: Draws, d5: Draws, x1: Seq<u8>, x2: Seq<u8>|
            #[trigger] bred_pair(
                fit@,
                population_genes(pop@),
                space@,
                *cfg,
                *old(d),
                d1,
                d2,
                d3,
                d4,
                d5,
                *final(d),
                r.2,
                r.3,
                x1,
                x2,
                r.0.genes@,
                r.1.genes@,
            ),
        cfg.mutation_rate == 0 ==> forall|i: int|
            0 <= i < r.0.genes@.len() ==> #[trigger] r.0.genes@[i] == pop@[r.2 as int].genes@[i] || r.0.genes@[i]
                == pop@[r.3 as int].genes@[i],
        cfg.mutation_rate == 0 ==> forall|i: int|
            0 <= i < r.1.genes@.len() ==> #[trigger] r.1.genes@[i] == pop@[r.2 as int].genes@[i] || r.1.genes@[i]
                == pop@[r.3 as int].genes@[i],
        cfg.mutation_rate == 0 && cfg.crossover_rate == 0 ==> r.0.genes@ == pop@[r.2 as int].genes@ && r.1.genes@
            == pop@[r.3 as int].genes@,
{
    let ghost d0 = *d;
    let p1 = tournament(fit, cfg.tournament_k, d);
    let ghost d1 = *d;
    let p2 = tournament(fit, cfg.tournament_k, d);
    let ghost d2 = *d;
    let cross = d.below(cfg.crossover_rate);
    let ghost d3 = *d;
    let (c1, c2) = if cross {
        let r = uniform_crossover_drawn(&pop[p1], &pop[p2], d);
        proof {
            lemma_crossover_valid(pop@[p1 as int].genes@, pop@[p2 as int].genes@, r.0.genes@, r.1.genes@, space@);
        }
        r
    } else {
        (pop[p1].duplicate(), pop[p2].duplicate())
    };
    let ghost d4 = *d;
    let m1 = point_mutation_drawn(&c1, space, cfg.mutation_rate, d);
    let ghost d5 = *d;
    let m2 = point_mutation_drawn(&c2, space, cfg.mutation_rate, d);
    proof {
        lemma_mutation_valid(c1.genes@, space@, m1.genes@);
        lemma_mutation_valid(c2.genes@, space@, m2.genes@);
        let a = pop@[p1 as int].genes@;
        let b = pop@[p2 as int].genes@;
        assert(population_genes(pop@)[p1 as int] == a);
        assert(population_genes(pop@)[p2 as int] == b);
        assert(d3.words() == d2.words().push(d3.words().last()));
        assert(d3.words().take(d2.words().len() as int) =~= d2.words());
        if cross {
            assert(crossed_drawn(a, b, d3, d4, c1.genes@, c2.genes@));
        } else {
            assert(d4 == d3);
        }
        assert(bred_pair(fit@, population_genes(pop@), space@, *cfg, d0, d1, d2, d3, d4, d5, *d, p1, p2, c1.genes@,
            c2.genes@, m1.genes@, m2.genes@));
        if cfg.mutation_rate == 0 {
            assert forall|i: int| 0 <= i < m1.genes@.len() implies #[trigger] m1.genes@[i] == a[i] || m1.genes@[i] == b[i] by {
                assert(c1.genes@[i] == a[i] || c1.genes@[i] == b[i]);
            }
            assert forall|i: int| 0 <= i < m2.genes@.len() implies #[trigger] m2.genes@[i] == a[i] || m2.genes@[i] == b[i] by {
                assert(c1.genes@[i] == a[i] || c1.genes@[i] == b[i]);
                assert(c2.genes@[i] == a[i] || c2.genes@[i] == b[i]);
            }
        }
    }
    let out = (m1, m2, p1, p2);
    proof {
        assert(bred_pair(fit@, population_genes(pop@), space@, *cfg, d0, d1, d2, d3, d4, d5, *d, out.2, out.3,
            c1.genes@, c2.genes@, out.0.genes@, out.1.genes@));
    }
    out
}

/// Run the genetic algorithm.
///
/// The returned best is the fittest individual of any generation; each
/// history record holds the best fitness found up to its generation. The
/// generations evolve as [`ga_evolution`] says, and the oracle is asked
/// about exactly their members.
#[verifier::spinoff_prover]
pub fn run<O: Oracle>(space: &[usize], cfg: &GaConfig, oracle: &mut O, rng: &mut ChaCha8Rng) -> (out:
    GaOutcome)
    requires
        accepts_space(*old(oracle), space@),
        cfg.pop_size >= 1,
        sampleable(space@),
    ensures
        valid_genes(out.best.genes@, space@),
        out.best_fitness == old(oracle).fitness(out.best.genes@),
        out.history@.len() == cfg.generations + 1,
        final(oracle).queries() == old(oracle).queries() + cfg.pop_size * (cfg.generations + 1),
        out.history@.last().evaluations == final(oracle).evaluation_count(),
        forall|g: int| 0 <= g < out.history@.len() ==> out.best_fitness <= (#[trigger] out.history@[g]).best,
        exists|g: int| 0 <= g < out.history@.len() && out.best_fitness == (#[trigger] out.history@[g]).best,
        forall|g: int|
            0 <= g < out.history@.len() ==> (#[trigger] out.history@[g]).population is Some
                && out.history@[g].population.unwrap().size == cfg.pop_size,
        out.history@.last().best == out.best_fitness,
        exists|pops: Seq<Seq<Seq<u8>>>, fits: Seq<Seq<u64>>|
            #[trigger] ga_evolution(
                pops,
                fits,
                space@,
                *old(oracle),
                cfg.pop_size as nat,
                elite_count(cfg.elitism, cfg.pop_size),
                cfg.mutation_rate,
                cfg.crossover_rate,
                out.history@,
            ) && final(oracle).evaluated() == old(oracle).evaluated() + all_members(pops) && (forall|g: int|
                0 <= g < out.history@.len() ==> (#[trigger] out.history@[g]).evaluations == (old(oracle).evaluated()
                    + all_members(pops.take(g + 1))).len()) && exists|g: int, i: int|
                0 <= g < pops.len() && 0 <= i < pops[g].len() && #[trigger] pops[g][i] == out.best.genes@,
        forall|g: int, h: int|
            0 <= g <= h < out.history@.len() ==> (#[trigger] out.history@[h]).best <= (
            #[trigger] out.history@[g]).best,
        forall|g: Seq<u8>| #[trigger] final(oracle).fitness(g) == old(oracle).fitness(g),
        forall|g: Seq<u8>| #[trigger] final(oracle).accepts(g) == old(oracle).accepts(g),
        forall|g: Seq<u8>| #[trigger] final(oracle).objective_values(g) == old(oracle).objective_values(g),
{
    let ghost o0 = *oracle;
    let pop_size = cfg.pop_size;
    let elitism = if cfg.elitism < pop_size {
        cfg.elitism
    } else {
        pop_size
    };
    let mut pop: Vec<Chromosome> = Vec::new();
    for t in 0..pop_size
        invariant
            pop@.len() == t,
            sampleable(space@),
            all_valid(pop@, space@),
    {
        pop.push(Chromosome::random(space, rng));
    }
    let mut fit = evaluate(&pop, oracle);
    let mut best_idx = argmin(&fit);
    let mut best = pop[best_idx].duplicate();
    let mut best_fitness = fit[best_idx];
    proof {
        lemma_seq_min_is(fit@, best_idx as int);
    }
    let mut history: Vec<Record> = Vec::new();
    let first = record(oracle.evaluations(), best_fitness, &fit, &pop);
    history.push(first);
    assert(history@[0] == first);
    assert(best_fitness == history@[0].best);
    let ghost mut pops: Seq<Seq<Seq<u8>>> = seq![population_genes(pop@)];
    let ghost mut fits: Seq<Seq<u64>> = seq![fit@];
    proof {
        assert(scored_generation(population_genes(pop@), fit@, space@, o0, pop_size as nat)) by {
            assert forall|i: int| 0 <= i < pop_size implies valid_genes(#[trigger] population_genes(pop@)[i], space@)
                && fit@[i] == o0.fitness(population_genes(pop@)[i]) by {
                assert(population_genes(pop@)[i] == pop@[i].genes@);
            }
        }
        assert(best_upto(fits, 0) == seq_min(fit@));
        assert(ga_evolution(pops, fits, space@, o0, pop_size as nat, elitism as nat, cfg.mutation_rate, cfg.crossover_rate, history@));
        assert(pops[0][best_idx as int] == best.genes@);
        assert(pops.drop_last() =~= Seq::<Seq<Seq<u8>>>::empty());
        assert(all_members(Seq::<Seq<Seq<u8>>>::empty()) == Set::<Seq<u8>>::empty());
        assert(all_members(pops) == all_members(pops.drop_last()) + population_genes(pop@).to_set());
        assert(oracle.evaluated() =~= o0.evaluated() + all_members(pops));
        assert(pops.take(1) =~= pops);
    }
    for generation in 0..cfg.generations
        invariant
            pop_size == cfg.pop_size,
            pop_size >= 1,
            elitism <= pop_size,
            cfg.elitism >= 1 ==> elitism >= 1,
            sampleable(space@),
            pop@.len() == pop_size,
            fit@.len() == pop_size,
            all_valid(pop@, space@),
            forall|i: int| 0 <= i < pop_size ==> #[trigger] fit@[i] == o0.fitness(pop@[i].genes@),
            valid_genes(best.genes@, space@),
            best_fitness == o0.fitness(best.genes@),
            history@.len() == generation + 1,
            oracle.queries() == o0.queries() + pop_size * (generation + 1),
            forall|g: int| 0 <= g < history@.len() ==> best_fitness <= (#[trigger] history@[g]).best,
            exists|g: int| 0 <= g < history@.len() && best_fitness == (#[trigger] history@[g]).best,
            forall|g: int|
                0 <= g < history@.len() ==> (#[trigger] history@[g]).population is Some
                    && history@[g].population.unwrap().size == pop_size,
            history@.last().best == best_fitness,
            history@.last().evaluations == oracle.evaluation_count(),
            forall|g: int, h: int|
                0 <= g <= h < history@.len() ==> (#[trigger] history@[h]).best <= (
                #[trigger] history@[g]).best,
            forall|g: Seq<u8>| #[trigger] oracle.fitness(g) == o0.fitness(g),
            forall|g: Seq<u8>| #[trigger] oracle.accepts(g) == o0.accepts(g),
            accepts_space(o0, space@),
            forall|g: Seq<u8>| #[trigger] oracle.objective_values(g) == o0.objective_values(g),
            elitism == (if cfg.elitism < cfg.pop_size { cfg.elitism } else { cfg.pop_size }),
            ga_evolution(pops, fits, space@, o0, pop_size as nat, elitism as nat, cfg.mutation_rate, cfg.crossover_rate, history@),
            pops.last() == population_genes(pop@),
            fits.last() == fit@,
            oracle.evaluated() == o0.evaluated() + all_members(pops),
            best_fitness == best_upto(fits, fits.len() - 1),
            forall|g: int|
                0 <= g < history@.len() ==> (#[trigger] history@[g]).evaluations == (o0.evaluated() + all_members(
                    pops.take(g + 1),
                )).len(),
            exists|g: int, i: int| 0 <= g < pops.len() && 0 <= i < pops[g].len() && #[trigger] pops[g][i] == best.genes@,
    {
        // Elitism: carry over the fittest individuals unchanged.
        let order = fitness_order(&fit);
        let mut next: Vec<Chromosome> = Vec::new();
        for t in 0..elitism
            invariant
                elitism <= pop_size,
                order@.len() == pop_size,
                pop@.len() == pop_size,
                forall|i: int| 0 <= i < order@.len() ==> (#[trigger] order@[i]) < pop_size,
                all_valid(pop@, space@),
                next@.len() == t,
                all_valid(next@, space@),
                t >= 1 ==> next@[0].genes@ == pop@[order@[0] as int].genes@,
                forall|tt: int| 0 <= tt < t ==> (#[trigger] next@[tt]).genes@ == pop@[order@[tt] as int].genes@,
        {
            next.push(pop[order[t]].duplicate());
        }
        proof {
            let pg = population_genes(pop@);
            let ng = population_genes(next@);
            assert forall|j: int, i: int| 0 <= j < ng.len() && 0 <= i < ng[j].len() implies allele_present(pg, i, #[trigger] ng[j][i]) by {
                assert(ng[j] == pg[order@[j] as int]);
                assert(pg[order@[j] as int][i] == ng[j][i]);
            }
            assert forall|j: int| 0 <= j < ng.len() implies member_of(pg, #[trigger] ng[j]) by {
                assert(ng[j] == pg[order@[j] as int]);
            }
        }
        while next.len() < pop_size
            invariant
                pop_size >= 1,
                sampleable(space@),
                pop@.len() == pop_size,
                fit@.len() == pop_size,
                all_valid(pop@, space@),
                next@.len() <= pop_size,
                all_valid(next@, space@),
                elitism >= 1 ==> next@.len() >= 1 && next@[0].genes@ == pop@[order@[0] as int].genes@,
                order@.len() == pop_size,
                elitism <= next@.len(),
                forall|tt: int| 0 <= tt < elitism ==> (#[trigger] next@[tt]).genes@ == pop@[order@[tt] as int].genes@,
                cfg.mutation_rate == 0 ==> alleles_inherited(population_genes(pop@), population_genes(next@)),
                cfg.mutation_rate == 0 && cfg.crossover_rate == 0 ==> copies_of(population_genes(pop@), population_genes(next@)),
            decreases pop_size - next@.len(),
        {
            let mut d = Draws::take(rng);
            let (m1, m2, p1, p2) = breed(&pop, &fit, space, cfg, &mut d);
            d.give_back(rng);
            proof {
                let a = pop@[p1 as int].genes@;
                let b = pop@[p2 as int].genes@;
                assert(population_genes(pop@)[p1 as int] == a);
                assert(population_genes(pop@)[p2 as int] == b);
                assert(a.len() == space@.len() && b.len() == space@.len());
            }
            let ghost next_before = next@;
            next.push(m1);
            proof {
                assert(population_genes(next@) == population_genes(next_before).push(m1.genes@));
                if cfg.mutation_rate == 0 {
                    lemma_push_inherits(population_genes(pop@), population_genes(next_before), m1.genes@, p1 as int, p2 as int);
                    if cfg.crossover_rate == 0 {
                        lemma_push_copies(population_genes(pop@), population_genes(next_before), m1.genes@, p1 as int);
                    }
                }
            }
            if next.len() < pop_size {
                let ghost next_mid = next@;
                next.push(m2);
                proof {
                    assert(population_genes(next@) == population_genes(next_mid).push(m2.genes@));
                    if cfg.mutation_rate == 0 {
                        lemma_push_inherits(population_genes(pop@), population_genes(next_mid), m2.genes@, p1 as int, p2 as int);
                        if cfg.crossover_rate == 0 {
                            lemma_push_copies(population_genes(pop@), population_genes(next_mid), m2.genes@, p2 as int);
                        }
                    }
                }
            }
        }
        let ghost old_pop = pop@;
        pop = next;
        fit = evaluate(&pop, oracle);
        best_idx = argmin(&fit);
        proof {
            lemma_seq_min_is(fit@, best_idx as int);
        }
        let ghost prev_best = best_fitness;
        let ghost prev_genes = best.genes@;
        if fit[best_idx] < best_fitness {
            best_fitness = fit[best_idx];
            best = pop[best_idx].duplicate();
        }
        let rec = record(oracle.evaluations(), best_fitness, &fit, &pop);
        let ghost hist_before = history@;
        history.push(rec);
        proof {
            assert(pop_size * (generation + 1) + pop_size == pop_size * (generation + 2)) by (nonlinear_arith);
        }
        proof {
            let pops0 = pops;
            let fits0 = fits;
            pops = pops.push(population_genes(pop@));
            assert(pops.drop_last() =~= pops0);
            lemma_best_upto_prefix(fits0, fit@, fits0.len() - 1);
            assert(oracle.evaluated() =~= o0.evaluated() + all_members(pops));
            assert forall|g: int| 0 <= g < history@.len() implies (#[trigger] history@[g]).evaluations == (o0.evaluated()
                + all_members(pops.take(g + 1))).len() by {
                if g < hist_before.len() {
                    assert(history@[g] == hist_before[g]);
                    assert(pops.take(g + 1) =~= pops0.take(g + 1));
                } else {
                    assert(pops.take(g + 1) =~= pops);
                }
            }
            fits = fits.push(fit@);
            assert(scored_generation(population_genes(pop@), fit@, space@, o0, pop_size as nat)) by {
                assert forall|i: int| 0 <= i < pop_size implies valid_genes(#[trigger] population_genes(pop@)[i], space@)
                    && fit@[i] == o0.fitness(population_genes(pop@)[i]) by {
                    assert(population_genes(pop@)[i] == pop@[i].genes@);
                }
            }
            assert(elites_kept(pops0.last(), fits0.last(), population_genes(pop@), elitism as nat)) by {
                assert forall|t: int| 0 <= t < elitism implies #[trigger] population_genes(pop@)[t] == pops0.last()[order@[t] as int] by {
                    assert(population_genes(pop@)[t] == pop@[t].genes@);
                    assert(pops0.last()[order@[t] as int] == old_pop[order@[t] as int].genes@);
                }
                assert(is_fitness_order(fits0.last(), order@));
            }
            assert(ga_evolution(pops, fits, space@, o0, pop_size as nat, elitism as nat, cfg.mutation_rate, cfg.crossover_rate, history@)) by {
                assert forall|g: int| 0 <= g < pops.len() implies scored_generation(#[trigger] pops[g], fits[g], space@, o0, pop_size as nat) by {
                    if g < pops0.len() {
                        assert(pops[g] == pops0[g]);
                        assert(fits[g] == fits0[g]);
                    }
                }
                assert forall|g: int| 0 <= g < pops.len() - 1 implies #[trigger] elites_kept(pops[g], fits[g], pops[g + 1], elitism as nat) by {
                    if g < pops0.len() - 1 {
                        assert(pops[g] == pops0[g] && pops[g + 1] == pops0[g + 1] && fits[g] == fits0[g]);
                    } else {
                        assert(pops[g] == pops0.last() && fits[g] == fits0.last());
                    }
                }
                assert forall|g: int| 0 <= g < history@.len() implies (#[trigger] history@[g]).best == best_upto(fits, g)
                    && history@[g].population is Some && history@[g].population.unwrap().fitness_sum == fitness_sum(fits[g]) by {
                    if g < hist_before.len() {
                        assert(history@[g] == hist_before[g]);
                        lemma_best_upto_prefix(fits0, fit@, g);
                        assert(fits[g] == fits0[g]);
                    } else {
                        assert(history@[g] == rec);
                        assert(fits[g] == fit@);
                        assert(best_upto(fits, g - 1) == prev_best);
                    }
                }
            }
            assert(best_fitness == best_upto(fits, fits.len() - 1)) by {
                assert(fits[fits.len() - 1] == fit@);
                assert(best_upto(fits, fits.len() - 2) == prev_best);
            }
            if fit@[best_idx as int] < prev_best {
                assert(pops[pops.len() - 1][best_idx as int] == best.genes@);
            } else {
                let (wg, wi) = choose|g: int, i: int| 0 <= g < pops0.len() && 0 <= i < pops0[g].len() && #[trigger] pops0[g][i] == prev_genes;
                assert(pops[wg] == pops0[wg]);
                assert(pops[wg][wi] == best.genes@);
            }
            assert forall|g: int| 0 <= g < history@.len() implies best_fitness <= (#[trigger] history@[g]).best by {
                if g < hist_before.len() {
                    assert(history@[g] == hist_before[g]);
                }
            }
            assert(history@[history@.len() - 1] == rec);
            assert forall|g: int| 0 <= g < history@.len() implies (#[trigger] history@[g]).population is Some
                    && history@[g].population.unwrap().size == pop_size by {
                if g < hist_before.len() {
                    assert(history@[g] == hist_before[g]);
                }
            }
            assert forall|g: int, h: int|
                0 <= g <= h < history@.len() implies (#[trigger] history@[h]).best <= (
                #[trigger] history@[g]).best by {
                if h < hist_before.len() {
                    assert(history@[h] == hist_before[h]);
                    assert(history@[g] == hist_before[g]);
                } else if g < hist_before.len() {
                    assert(history@[g] == hist_before[g]);
                    assert(hist_before[hist_before.len() - 1].best <= hist_before[g].best);
                }
            }
        }
    }
    proof {
        let (wg, wi) = choose|g: int, i: int| 0 <= g < pops.len() && 0 <= i < pops[g].len() && #[trigger] pops[g][i] == best.genes@;
        assert(pops[wg][wi] == best.genes@);
        assert(elite_count(cfg.elitism, cfg.pop_size) == elitism as nat);
        assert(ga_evolution(pops, fits, space@, *old(oracle), pop_size as nat, elitism as nat, cfg.mutation_rate, cfg.crossover_rate, history@));
    }
    GaOutcome { best, best_fitness, history }
}

} // verus!
