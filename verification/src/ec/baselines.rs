//! Baseline optimisers used to judge whether the genetic algorithm earns its
//! keep: random search, hill climbing with restarts, greedy coordinate
//! descent, exhaustive enumeration, and a uniform-strategy sweep (a cheap
//! domain heuristic).
use vstd::prelude::*;
use rand_chacha::ChaCha8Rng;
use crate::ec::{Oracle, accepts_space, Record};
use crate::strategy::{
    Chromosome, valid_genes, card_u8, enumerate, space_size, space_size_spec, prefix_product, chrom_index,
    neighbors_spec, one_gene_change, lemma_neighbors_shape, lemma_one_gene_change_valid,
    lemma_update_valid, lemma_enumeration_complete, lemma_neighbors_complete,
};

verus! {

/// Outcome shared by all single-objective baselines.
pub struct SearchOutcome {
    pub best: Chromosome,
    pub best_fitness: u64,
    pub history: Vec<Record>,
}

/// The record of a non-population method.
pub open spec fn plain_record(evaluations: usize, best: u64) -> Record {
    Record { evaluations, best, population: None }
}

/// The best values recorded never increase along the history.
pub open spec fn bests_non_increasing(h: Seq<Record>) -> bool {
    forall|g: int, k: int| 0 <= g <= k < h.len() ==> (#[trigger] h[k]).best <= (#[trigger] h[g]).best
}

/// Append the record of a non-population method.
fn push_record(history: &mut Vec<Record>, evals: usize, best: u64)
    ensures
        final(history)@ == old(history)@.push(plain_record(evals, best)),
        bests_non_increasing(old(history)@) && (forall|g: int|
            0 <= g < old(history)@.len() ==> best <= (#[trigger] old(history)@[g]).best) ==> bests_non_increasing(
            final(history)@,
        ),
{
    history.push(Record { evaluations: evals, best, population: None });
    proof {
        if bests_non_increasing(old(history)@) && (forall|g: int|
            0 <= g < old(history)@.len() ==> best <= (#[trigger] old(history)@[g]).best) {
            assert forall|g: int, k: int| 0 <= g <= k < history@.len() implies (#[trigger] history@[k]).best <= (
            #[trigger] history@[g]).best by {
                if k < old(history)@.len() {
                    assert(history@[k] == old(history)@[k]);
                    assert(history@[g] == old(history)@[g]);
                } else if g < old(history)@.len() {
                    assert(history@[g] == old(history)@[g]);
                }
            }
        }
    }
}

/// `n` copies of the gene `v`.
pub open spec fn uniform_genes(v: u8, n: nat) -> Seq<u8> {
    Seq::new(n, |i: int| v)
}

/// The smallest cardinality of the first `n` axes (1 for none).
pub open spec fn min_card(space: Seq<usize>, n: nat) -> usize
    decreases n,
{
    if n == 0 {
        1
    } else if n == 1 {
        space[0]
    } else if space[n - 1] < min_card(space, (n - 1) as nat) {
        space[n - 1]
    } else {
        min_card(space, (n - 1) as nat)
    }
}

/// `min_card` bounds every axis it ranges over.
proof fn lemma_min_card(space: Seq<usize>, n: nat)
    requires
        n <= space.len(),
    ensures
        forall|i: int| 0 <= i < n ==> min_card(space, n) <= #[trigger] space[i],
    decreases n,
{
    if n > 1 {
        lemma_min_card(space, (n - 1) as nat);
    }
}

/// The chromosome of `n` equal genes `v`.
pub(crate) fn uniform_chromosome(v: u8, n: usize) -> (c: Chromosome)
    ensures
        c.genes@ == uniform_genes(v, n as nat),
{
    let mut genes: Vec<u8> = Vec::new();
    for i in 0..n
        invariant
            genes@ == uniform_genes(v, i as nat),
    {
        genes.push(v);
        assert(genes@ =~= uniform_genes(v, (i + 1) as nat));
    }
    Chromosome::new(genes)
}

/// The chromosomes of `n` equal genes, each below `card`.
pub open spec fn uniform_set(card: nat, n: nat) -> Set<Seq<u8>> {
    Set::new(|g: Seq<u8>| exists|v: u8| v < card && g == #[trigger] uniform_genes(v, n))
}

/// Uniform-strategy sweep: evaluate every chromosome whose genes all equal
/// the same value `v` (for `v` below the smallest cardinality, as a `u8`), and
/// keep the best (the first on ties).
pub fn uniform_sweep<O: Oracle>(space: &[usize], oracle: &mut O) -> (out: SearchOutcome)
    requires
        accepts_space(*old(oracle), space@),
        card_u8(min_card(space@, space@.len() as nat)) > 0,
    ensures
        valid_genes(out.best.genes@, space@),
        exists|v: u8|
            v < card_u8(min_card(space@, space@.len() as nat)) && out.best.genes@ == uniform_genes(
                v,
                space@.len() as nat,
            ) && forall|w: u8| w < v ==> out.best_fitness < old(oracle).fitness(
                #[trigger] uniform_genes(w, space@.len() as nat),
            ),
        out.best_fitness == old(oracle).fitness(out.best.genes@),
        forall|v: u8|
            v < card_u8(min_card(space@, space@.len() as nat)) ==> out.best_fitness <= old(
                oracle,
            ).fitness(#[trigger] uniform_genes(v, space@.len() as nat)),
        out.history@ == seq![plain_record(final(oracle).evaluation_count() as usize, out.best_fitness)],
        final(oracle).evaluated() == old(oracle).evaluated() + uniform_set(
            card_u8(min_card(space@, space@.len() as nat)),
            space@.len() as nat,
        ),
        forall|g: Seq<u8>| #[trigger] final(oracle).fitness(g) == old(oracle).fitness(g),
        forall|g: Seq<u8>| #[trigger] final(oracle).accepts(g) == old(oracle).accepts(g),
        forall|g: Seq<u8>| #[trigger] final(oracle).objective_values(g) == old(oracle).objective_values(g),
{
    let ghost o0 = *oracle;
    let n = space.len();
    let mut card: usize = 1;
    for i in 0..n
        invariant
            n == space@.len(),
            card == min_card(space@, i as nat),
    {
        if i == 0 || space[i] < card {
            card = space[i];
        }
    }
    let card8: u8 = (card % 256) as u8;
    proof {
        lemma_min_card(space@, n as nat);
    }
    let mut best = uniform_chromosome(0, n);
    let mut best_fitness = oracle.scalar(&best);
    proof {
        assert(oracle.evaluated() =~= o0.evaluated() + uniform_set(1, n as nat)) by {
            assert forall|g: Seq<u8>| uniform_set(1, n as nat).contains(g) implies g == uniform_genes(0, n as nat) by {
                let v = choose|v: u8| v < 1 && g == #[trigger] uniform_genes(v, n as nat);
            }
            assert(uniform_set(1, n as nat).contains(uniform_genes(0, n as nat)));
        }
    }
    let mut v: u8 = 1;
    while v < card8
        invariant
            n == space@.len(),
            card == min_card(space@, n as nat),
            card8 == card_u8(card),
            1 <= v <= card8,
            exists|w: u8|
                w < v && best.genes@ == uniform_genes(w, n as nat) && forall|u: u8|
                    u < w ==> best_fitness < o0.fitness(#[trigger] uniform_genes(u, n as nat)),
            best_fitness == o0.fitness(best.genes@),
            forall|w: u8| w < v ==> best_fitness <= o0.fitness(#[trigger] uniform_genes(w, n as nat)),
            forall|g: Seq<u8>| #[trigger] oracle.fitness(g) == o0.fitness(g),
            forall|g: Seq<u8>| #[trigger] oracle.accepts(g) == o0.accepts(g),
            accepts_space(o0, space@),
            forall|g: Seq<u8>| #[trigger] oracle.objective_values(g) == o0.objective_values(g),
            oracle.evaluated() == o0.evaluated() + uniform_set(v as nat, n as nat),
        decreases card8 - v,
    {
        let chrom = uniform_chromosome(v, n);
        proof {
            lemma_min_card(space@, n as nat);
            assert(card_u8(card) <= card);
            assert(valid_genes(chrom.genes@, space@));
        }
        let f = oracle.scalar(&chrom);
        proof {
            assert(oracle.evaluated() =~= o0.evaluated() + uniform_set((v + 1) as nat, n as nat)) by {
                assert forall|g: Seq<u8>| uniform_set((v + 1) as nat, n as nat).contains(g) implies (g
                    == uniform_genes(v, n as nat) || uniform_set(v as nat, n as nat).contains(g)) by {
                    let w = choose|w: u8| w < v + 1 && g == #[trigger] uniform_genes(w, n as nat);
                    if w != v {
                        assert(uniform_set(v as nat, n as nat).contains(g));
                    }
                }
                assert(uniform_set((v + 1) as nat, n as nat).contains(uniform_genes(v, n as nat)));
                assert forall|g: Seq<u8>| uniform_set(v as nat, n as nat).contains(g) implies uniform_set(
                    (v + 1) as nat,
                    n as nat,
                ).contains(g) by {
                    let w = choose|w: u8| w < v && g == #[trigger] uniform_genes(w, n as nat);
                }
            }
        }
        if f < best_fitness {
            best = chrom;
            best_fitness = f;
            proof {
                assert(forall|u: u8| u < v ==> best_fitness < o0.fitness(#[trigger] uniform_genes(u, n as nat)));
            }
        }
        v = v + 1;
    }
    proof {
        let w = choose|w: u8|
            w < v && best.genes@ == uniform_genes(w, n as nat) && forall|u: u8|
                u < w ==> best_fitness < o0.fitness(#[trigger] uniform_genes(u, n as nat));
        assert forall|i: int| 0 <= i < n implies (#[trigger] best.genes@[i]) < space@[i] by {
            assert(best.genes@[i] == w);
            assert(card_u8(card) <= card);
        }
    }
    let mut history: Vec<Record> = Vec::new();
    push_record(&mut history, oracle.evaluations(), best_fitness);
    SearchOutcome { best, best_fitness, history }
}

/// The largest number of candidate draws a budgeted search makes; it bounds
/// the loops of [`random_search`] and [`hill_climb`], whose evaluation budget
/// may be out of reach when the space is smaller than the budget.
pub const MAX_DRAWS: u64 = 0xFFFF_FFFF_FFFF_FFFF;

/// The fitness of `g` under `oracle`.
pub open spec fn best_fitness_of<O: Oracle>(oracle: O, g: Seq<u8>) -> u64 {
    oracle.fitness(g)
}

/// `samples` are valid chromosomes, exactly the ones asked about besides
/// those asked before (`after` is `before` with them), and `best` is the
/// first of them of least fitness, with that fitness.
pub open spec fn searched<O: Oracle>(
    samples: Seq<Seq<u8>>,
    best: Seq<u8>,
    best_fitness: u64,
    oracle: O,
    space: Seq<usize>,
    before: Set<Seq<u8>>,
    after: Set<Seq<u8>>,
) -> bool {
    &&& samples.len() >= 1
    &&& forall|j: int| 0 <= j < samples.len() ==> valid_genes(#[trigger] samples[j], space)
    &&& after == before + samples.to_set()
    &&& best_fitness == oracle.fitness(best)
    &&& forall|j: int| 0 <= j < samples.len() ==> best_fitness <= oracle.fitness(#[trigger] samples[j])
    &&& exists|i: int|
        0 <= i < samples.len() && samples[i] == best && forall|j: int|
            0 <= j < i ==> best_fitness_of(oracle, samples[j]) > best_fitness_of(oracle, best)
}

/// The recording period of random search: `sample_every`, at least 1.
pub open spec fn period(sample_every: usize) -> nat {
    if sample_every == 0 {
        1
    } else {
        sample_every as nat
    }
}

/// The evaluation counts at which random search records its progress:
/// after each sample but the first, the number of distinct chromosomes
/// evaluated so far (`before` and the samples up to it), kept where it is a
/// multiple of `every`.
pub open spec fn sample_counts(before: Set<Seq<u8>>, samples: Seq<Seq<u8>>, every: nat) -> Seq<nat>
    decreases samples.len(),
{
    if samples.len() <= 1 {
        Seq::empty()
    } else {
        let sub = sample_counts(before, samples.drop_last(), every);
        let c = (before + samples.to_set()).len();
        if c % every == 0 {
            sub.push(c)
        } else {
            sub
        }
    }
}

/// Uniform random sampling for a fixed evaluation budget. A record is taken
/// at the start, whenever the evaluation count is a multiple of
/// `sample_every` (at least 1), and at the end.
pub fn random_search<O: Oracle>(
    space: &[usize],
    budget: usize,
    sample_every: usize,
    oracle: &mut O,
    rng: &mut ChaCha8Rng,
) -> (out: SearchOutcome)
    requires
        accepts_space(*old(oracle), space@),
        forall|i: int| 0 <= i < space@.len() ==> card_u8(#[trigger] space@[i]) > 0,
    ensures
        valid_genes(out.best.genes@, space@),
        out.best_fitness == old(oracle).fitness(out.best.genes@),
        out.history@.len() >= 2,
        out.history@.last().best == out.best_fitness,
        bests_non_increasing(out.history@),
        out.history@.last().evaluations == final(oracle).evaluation_count(),
        forall|g: int|
            0 < g < out.history@.len() - 1 ==> (#[trigger] out.history@[g]).evaluations % (if sample_every == 0 {
                1
            } else {
                sample_every
            }) == 0,
        forall|g: int| 0 <= g < out.history@.len() ==> out.best_fitness <= (#[trigger] out.history@[g]).best,
        forall|g: int| 0 <= g < out.history@.len() ==> (#[trigger] out.history@[g]).population is None,
        exists|samples: Seq<Seq<u8>>|
            #[trigger] searched(
                samples,
                out.best.genes@,
                out.best_fitness,
                *old(oracle),
                space@,
                old(oracle).evaluated(),
                final(oracle).evaluated(),
            ) && (final(oracle).evaluation_count() >= budget || samples.len() == MAX_DRAWS + 1)
                && out.history@.len() == sample_counts(old(oracle).evaluated(), samples, period(sample_every)).len() + 2
                && forall|g: int|
                0 < g < out.history@.len() - 1 ==> (#[trigger] out.history@[g]).evaluations == sample_counts(
                    old(oracle).evaluated(),
                    samples,
                    period(sample_every),
                )[g - 1],
        forall|g: Seq<u8>| #[trigger] final(oracle).fitness(g) == old(oracle).fitness(g),
        forall|g: Seq<u8>| #[trigger] final(oracle).accepts(g) == old(oracle).accepts(g),
        forall|g: Seq<u8>| #[trigger] final(oracle).objective_values(g) == old(oracle).objective_values(g),
{
    let ghost o0 = *oracle;
    let mut best = Chromosome::random(space, rng);
    let mut best_fitness = oracle.scalar(&best);
    let ghost mut samples: Seq<Seq<u8>> = Seq::<Seq<u8>>::empty().push(best.genes@);
    proof {
        Seq::<Seq<u8>>::empty().lemma_push_to_set_commute(best.genes@);
        assert(Seq::<Seq<u8>>::empty().to_set() =~= Set::<Seq<u8>>::empty());
        assert(samples.to_set() =~= set![best.genes@]);
        assert(oracle.evaluated() =~= o0.evaluated() + samples.to_set());
        assert(samples[0] == best.genes@);
    }
    let mut history: Vec<Record> = Vec::new();
    push_record(&mut history, oracle.evaluations(), best_fitness);
    let every = if sample_every == 0 {
        1
    } else {
        sample_every
    };
    let mut draws: u64 = 0;
    while oracle.evaluations() < budget && draws < MAX_DRAWS
        invariant
            forall|i: int| 0 <= i < space@.len() ==> card_u8(#[trigger] space@[i]) > 0,
            valid_genes(best.genes@, space@),
            best_fitness == o0.fitness(best.genes@),
            history@.len() >= 1,
            bests_non_increasing(history@),
            every >= 1,
            every == if sample_every == 0 { 1 } else { sample_every },
            forall|g: int| 0 < g < history@.len() ==> (#[trigger] history@[g]).evaluations % every == 0,
            forall|g: int| 0 <= g < history@.len() ==> best_fitness <= (#[trigger] history@[g]).best,
            forall|g: int| 0 <= g < history@.len() ==> (#[trigger] history@[g]).population is None,
            forall|g: Seq<u8>| #[trigger] oracle.fitness(g) == o0.fitness(g),
            forall|g: Seq<u8>| #[trigger] oracle.accepts(g) == o0.accepts(g),
            accepts_space(o0, space@),
            forall|g: Seq<u8>| #[trigger] oracle.objective_values(g) == o0.objective_values(g),
            samples.len() == draws + 1,
            searched(samples, best.genes@, best_fitness, o0, space@, o0.evaluated(), oracle.evaluated()),
            every == period(sample_every),
            history@.len() == sample_counts(o0.evaluated(), samples, every as nat).len() + 1,
            forall|g: int|
                0 < g < history@.len() ==> (#[trigger] history@[g]).evaluations == sample_counts(
                    o0.evaluated(),
                    samples,
                    every as nat,
                )[g - 1],
        decreases MAX_DRAWS - draws,
    {
        draws = draws + 1;
        let cand = Chromosome::random(space, rng);
        let ghost s0 = samples;
        let ghost ev0 = oracle.evaluated();
        let ghost b0 = best.genes@;
        let f = oracle.scalar(&cand);
        proof {
            samples = samples.push(cand.genes@);
            s0.lemma_push_to_set_commute(cand.genes@);
            assert(oracle.evaluated() =~= o0.evaluated() + samples.to_set());
            assert(samples[s0.len() as int] == cand.genes@);
            assert forall|j: int| 0 <= j < samples.len() implies valid_genes(#[trigger] samples[j], space@) by {
                if j < s0.len() {
                    assert(samples[j] == s0[j]);
                }
            }
        }
        let ghost updated = f < best_fitness;
        if f < best_fitness {
            best_fitness = f;
            best = cand;
        }
        proof {
            let i0 = choose|i: int| 0 <= i < s0.len() && s0[i] == b0 && forall|j: int|
                0 <= j < i ==> best_fitness_of(o0, s0[j]) > best_fitness_of(o0, b0);
            assert forall|j: int| 0 <= j < samples.len() implies best_fitness <= o0.fitness(#[trigger] samples[j]) by {
                if j < s0.len() {
                    assert(samples[j] == s0[j]);
                }
            }
            if updated {
                assert(samples[s0.len() as int] == best.genes@);
                assert forall|j: int| 0 <= j < s0.len() implies best_fitness_of(o0, samples[j]) > best_fitness_of(o0, best.genes@) by {
                    assert(samples[j] == s0[j]);
                }
            } else {
                assert(samples[i0] == s0[i0]);
                assert forall|j: int| 0 <= j < i0 implies best_fitness_of(o0, samples[j]) > best_fitness_of(o0, best.genes@) by {
                    assert(samples[j] == s0[j]);
                }
            }
        }
        let evals = oracle.evaluations();
        proof {
            assert(samples.drop_last() =~= s0);
            assert(evals == (o0.evaluated() + samples.to_set()).len());
        }
        let ghost before = history@;
        if evals % every == 0 {
            push_record(&mut history, evals, best_fitness);
            proof {
                assert forall|g: int| 0 < g < history@.len() implies (#[trigger] history@[g]).evaluations % every == 0 by {
                    if g < before.len() {
                        assert(history@[g] == before[g]);
                    }
                }
            }
        }
        proof {
            let sc0 = sample_counts(o0.evaluated(), s0, every as nat);
            let sc = sample_counts(o0.evaluated(), samples, every as nat);
            assert forall|g: int| 0 < g < history@.len() implies (#[trigger] history@[g]).evaluations == sc[g - 1] by {
                if g < before.len() {
                    assert(history@[g] == before[g]);
                    assert(sc[g - 1] == sc0[g - 1]);
                }
            }
        }
    }
    let ghost before_last = history@;
    push_record(&mut history, oracle.evaluations(), best_fitness);
    proof {
        assert forall|g: int|
            0 < g < history@.len() - 1 implies (#[trigger] history@[g]).evaluations % every == 0 by {
            assert(history@[g] == before_last[g]);
        }
        assert forall|g: int|
            0 < g < history@.len() - 1 implies (#[trigger] history@[g]).evaluations == sample_counts(
                o0.evaluated(),
                samples,
                every as nat,
            )[g - 1] by {
            assert(history@[g] == before_last[g]);
        }
        assert(searched(samples, best.genes@, best_fitness, o0, space@, o0.evaluated(), oracle.evaluated()));
        assert(o0 == *old(oracle));
        assert(searched(samples, best.genes@, best_fitness, *old(oracle), space@, old(oracle).evaluated(), oracle.evaluated()));
        assert(oracle.evaluation_count() >= budget || samples.len() == MAX_DRAWS + 1);
    }
    let out = SearchOutcome { best, best_fitness, history };
    proof {
        assert(searched(samples, out.best.genes@, out.best_fitness, *old(oracle), space@, old(oracle).evaluated(), oracle.evaluated()));
    }
    out
}

/// A climb that ended at `end`, between records with bests `before` and
/// `after`: `end` is a valid chromosome, a local optimum for single-gene
/// changes unless the budget was hit (`hit`), and the record after it keeps
/// the better of the best so far and the climb's end.
pub open spec fn climb_ok<O: Oracle>(end: Seq<u8>, before: u64, after: u64, oracle: O, space: Seq<usize>, hit: bool) -> bool {
    &&& valid_genes(end, space)
    &&& (is_one_opt(oracle, end, space) || hit)
    &&& after == if oracle.fitness(end) < before { oracle.fitness(end) } else { before }
}

/// `ends` lists the end points of the climbs, one per record after the
/// first; the budget counts as hit where `count >= budget`.
pub open spec fn climbs_end<O: Oracle>(
    ends: Seq<Seq<u8>>,
    history: Seq<Record>,
    oracle: O,
    space: Seq<usize>,
    count: nat,
    budget: nat,
) -> bool {
    &&& ends.len() + 1 == history.len()
    &&& forall|c: int|
        0 <= c < ends.len() ==> climb_ok(
            #[trigger] ends[c],
            history[c].best,
            history[c + 1].best,
            oracle,
            space,
            count >= budget,
        )
}

/// Steepest-descent hill climbing with random restarts until the budget is
/// hit: each climb moves to the best single-gene neighbour while that
/// improves, and a record of the best so far is taken after each climb.
#[verifier::spinoff_prover]
pub fn hill_climb<O: Oracle>(space: &[usize], budget: usize, oracle: &mut O, rng: &mut ChaCha8Rng) -> (out:
    SearchOutcome)
    requires
        accepts_space(*old(oracle), space@),
        forall|i: int| 0 <= i < space@.len() ==> card_u8(#[trigger] space@[i]) > 0,
    ensures
        valid_genes(out.best.genes@, space@),
        out.best_fitness == old(oracle).fitness(out.best.genes@),
        out.history@.len() >= 1,
        out.history@.last().best == out.best_fitness,
        out.history@.last().evaluations == final(oracle).evaluation_count(),
        bests_non_increasing(out.history@),
        forall|g: int| 0 <= g < out.history@.len() ==> out.best_fitness <= (#[trigger] out.history@[g]).best,
        forall|g: int| 0 <= g < out.history@.len() ==> (#[trigger] out.history@[g]).population is None,
        final(oracle).evaluation_count() >= budget || out.history@.len() == MAX_DRAWS + 1,
        exists|ends: Seq<Seq<u8>>|
            #[trigger] climbs_end(ends, out.history@, *old(oracle), space@, final(oracle).evaluation_count(), budget as nat),
        exists|g0: Seq<u8>|
            #[trigger] valid_genes(g0, space@) && out.history@[0].best == old(oracle).fitness(g0)
                && final(oracle).evaluated().contains(g0),
        forall|g: Seq<u8>| #[trigger] final(oracle).fitness(g) == old(oracle).fitness(g),
        forall|g: Seq<u8>| #[trigger] final(oracle).accepts(g) == old(oracle).accepts(g),
        forall|g: Seq<u8>| #[trigger] final(oracle).objective_values(g) == old(oracle).objective_values(g),
{
    let ghost o0 = *oracle;
    let mut global = Chromosome::random(space, rng);
    let mut global_fitness = oracle.scalar(&global);
    let ghost g0 = global.genes@;
    let mut history: Vec<Record> = Vec::new();
    push_record(&mut history, oracle.evaluations(), global_fitness);
    let mut draws: u64 = 0;
    let ghost mut ends: Seq<Seq<u8>> = Seq::empty();
    while oracle.evaluations() < budget && draws < MAX_DRAWS
        invariant
            forall|i: int| 0 <= i < space@.len() ==> card_u8(#[trigger] space@[i]) > 0,
            valid_genes(global.genes@, space@),
            global_fitness == o0.fitness(global.genes@),
            history@.len() >= 1,
            bests_non_increasing(history@),
            history@.last().best == global_fitness,
            history@.last().evaluations == oracle.evaluation_count(),
            forall|g: int| 0 <= g < history@.len() ==> global_fitness <= (#[trigger] history@[g]).best,
            forall|g: int| 0 <= g < history@.len() ==> (#[trigger] history@[g]).population is None,
            history@.len() == draws + 1,
            valid_genes(g0, space@),
            history@[0].best == o0.fitness(g0),
            oracle.evaluated().contains(g0),
            climbs_end(ends, history@, o0, space@, oracle.evaluation_count(), budget as nat),
            forall|g: Seq<u8>| #[trigger] oracle.fitness(g) == o0.fitness(g),
            forall|g: Seq<u8>| #[trigger] oracle.accepts(g) == o0.accepts(g),
            accepts_space(o0, space@),
            forall|g: Seq<u8>| #[trigger] oracle.objective_values(g) == o0.objective_values(g),
        decreases MAX_DRAWS - draws,
    {
        let ghost old_hit = oracle.evaluation_count() >= budget;
        proof {
            assert(!old_hit);
        }
        draws = draws + 1;
        // One climb from a random start.
        let mut current = Chromosome::random(space, rng);
        let mut current_fitness = oracle.scalar(&current);
        loop
            invariant
                forall|i: int| 0 <= i < space@.len() ==> card_u8(#[trigger] space@[i]) > 0,
                valid_genes(current.genes@, space@),
                current_fitness == o0.fitness(current.genes@),
                oracle.evaluated().contains(g0),
                forall|g: Seq<u8>| #[trigger] oracle.fitness(g) == o0.fitness(g),
                forall|g: Seq<u8>| #[trigger] oracle.accepts(g) == o0.accepts(g),
                accepts_space(o0, space@),
                forall|g: Seq<u8>| #[trigger] oracle.objective_values(g) == o0.objective_values(g),
            ensures
                oracle.evaluated().contains(g0),
                valid_genes(current.genes@, space@),
                current_fitness == o0.fitness(current.genes@),
                is_one_opt(o0, current.genes@, space@) || oracle.evaluation_count() >= budget,
                forall|g: Seq<u8>| #[trigger] oracle.fitness(g) == o0.fitness(g),
                forall|g: Seq<u8>| #[trigger] oracle.accepts(g) == o0.accepts(g),
                accepts_space(o0, space@),
                forall|g: Seq<u8>| #[trigger] oracle.objective_values(g) == o0.objective_values(g),
            decreases current_fitness,
        {
            if oracle.evaluations() >= budget {
                break;
            }
            // Evaluate the full single-gene neighbourhood, take the best move.
            let mut improved = false;
            let mut best_neighbor = current.duplicate();
            let mut best_neighbor_fit = current_fitness;
            let neighbors = current.neighbors(space);
            proof {
                lemma_neighbors_shape(current.genes@, space@, space@.len() as nat);
            }
            let m = neighbors.len();
            let mut t: usize = 0;
            while t < m
                invariant
                    m == neighbors@.len(),
                    forall|j: int|
                        0 <= j < m ==> (#[trigger] neighbors@[j]).genes@ == neighbors_spec(
                            current.genes@,
                            space@,
                            space@.len() as nat,
                        )[j],
                    forall|j: int|
                        0 <= j < m ==> one_gene_change(
                            #[trigger] neighbors_spec(current.genes@, space@, space@.len() as nat)[j],
                            current.genes@,
                            space@,
                            space@.len() as nat,
                        ),
                    valid_genes(current.genes@, space@),
                    valid_genes(best_neighbor.genes@, space@),
                    best_neighbor_fit == o0.fitness(best_neighbor.genes@),
                    improved ==> best_neighbor_fit < current_fitness,
                    !improved ==> best_neighbor_fit == current_fitness,
                    t <= m,
                    oracle.evaluated().contains(g0),
                    forall|j: int| 0 <= j < t ==> best_neighbor_fit <= o0.fitness(#[trigger] neighbors@[j].genes@),
                    forall|g: Seq<u8>| #[trigger] oracle.fitness(g) == o0.fitness(g),
                    forall|g: Seq<u8>| #[trigger] oracle.accepts(g) == o0.accepts(g),
                    accepts_space(o0, space@),
                    forall|g: Seq<u8>| #[trigger] oracle.objective_values(g) == o0.objective_values(g),
                ensures
                    t == m || oracle.evaluation_count() >= budget,
                    oracle.evaluated().contains(g0),
                decreases m - t,
            {
                let f = oracle.scalar(&neighbors[t]);
                if f < best_neighbor_fit {
                    proof {
                        let ghost ns = neighbors_spec(current.genes@, space@, space@.len() as nat);
                        assert(one_gene_change(ns[t as int], current.genes@, space@, space@.len() as nat));
                        lemma_one_gene_change_valid(ns[t as int], current.genes@, space@, space@.len() as nat);
                    }
                    best_neighbor_fit = f;
                    best_neighbor = neighbors[t].duplicate();
                    improved = true;
                }
                if oracle.evaluations() >= budget {
                    break;
                }
                t = t + 1;
            }
            if improved {
                current = best_neighbor;
                current_fitness = best_neighbor_fit;
            } else {
                proof {
                    if oracle.evaluation_count() < budget {
                        assert forall|i: int, w: u8|
                            0 <= i < space@.len() && w < card_u8(space@[i]) && w != current.genes@[i] implies o0.fitness(
                                current.genes@,
                            ) <= #[trigger] o0.fitness(current.genes@.update(i, w)) by {
                            lemma_neighbors_complete(current.genes@, space@, space@.len() as nat, i, w);
                            let ns = neighbors_spec(current.genes@, space@, space@.len() as nat);
                            let j = choose|j: int| 0 <= j < ns.len() && ns[j] == current.genes@.update(i, w);
                            assert(neighbors@[j].genes@ == ns[j]);
                        }
                    }
                }
                break;  // local optimum
            }
        }
        if current_fitness < global_fitness {
            global_fitness = current_fitness;
            global = current;
        }
        let ghost before = history@;
        let ghost ends0 = ends;
        push_record(&mut history, oracle.evaluations(), global_fitness);
        proof {
            ends = ends.push(current.genes@);
            assert(climbs_end(ends, history@, o0, space@, oracle.evaluation_count(), budget as nat)) by {
                assert forall|c: int| 0 <= c < ends.len() implies climb_ok(
                    #[trigger] ends[c],
                    history@[c].best,
                    history@[c + 1].best,
                    o0,
                    space@,
                    oracle.evaluation_count() >= budget,
                ) by {
                    if c < ends0.len() {
                        assert(ends[c] == ends0[c]);
                        assert(history@[c] == before[c]);
                        assert(history@[c + 1] == before[c + 1]);
                        assert(climb_ok(ends0[c], before[c].best, before[c + 1].best, o0, space@, old_hit));
                    } else {
                        assert(history@[c] == before[before.len() - 1]);
                    }
                }
            }
            assert forall|g: int| 0 <= g < history@.len() implies global_fitness <= (#[trigger] history@[g]).best by {
                if g < before.len() {
                    assert(history@[g] == before[g]);
                }
            }
            assert forall|g: int| 0 <= g < history@.len() implies (#[trigger] history@[g]).population is None by {
                if g < before.len() {
                    assert(history@[g] == before[g]);
                }
            }
            assert(history@[0] == before[0]);
        }
    }
    proof {
        assert(valid_genes(g0, space@) && history@[0].best == o0.fitness(g0) && oracle.evaluated().contains(g0));
    }
    SearchOutcome { best: global, best_fitness: global_fitness, history }
}

/// `g` is a local optimum for single-gene changes: no change of one gene to
/// another value below the axis' `u8` cardinality gives a lower fitness.
pub open spec fn is_one_opt<O: Oracle>(oracle: O, g: Seq<u8>, space: Seq<usize>) -> bool {
    forall|i: int, w: u8|
        0 <= i < space.len() && w < card_u8(space[i]) && w != g[i] ==> oracle.fitness(g)
            <= #[trigger] oracle.fitness(g.update(i, w))
}

/// Greedy coordinate descent: repeatedly sweep the genes, fixing each to its
/// locally best value given the others, until a full sweep yields no change.
/// The result is a local optimum for single-gene changes.
#[verifier::spinoff_prover]
pub fn greedy<O: Oracle>(space: &[usize], oracle: &mut O, rng: &mut ChaCha8Rng) -> (out: SearchOutcome)
    requires
        accepts_space(*old(oracle), space@),
        forall|i: int| 0 <= i < space@.len() ==> card_u8(#[trigger] space@[i]) > 0,
    ensures
        valid_genes(out.best.genes@, space@),
        out.best_fitness == old(oracle).fitness(out.best.genes@),
        is_one_opt(*old(oracle), out.best.genes@, space@),
        out.history@.len() >= 2,
        out.history@.last().best == out.best_fitness,
        out.history@.last().evaluations == final(oracle).evaluation_count(),
        bests_non_increasing(out.history@),
        forall|g: int| 0 <= g < out.history@.len() ==> out.best_fitness <= (#[trigger] out.history@[g]).best,
        forall|g: int| 0 <= g < out.history@.len() ==> (#[trigger] out.history@[g]).population is None,
        forall|g: Seq<u8>| #[trigger] final(oracle).fitness(g) == old(oracle).fitness(g),
        forall|g: Seq<u8>| #[trigger] final(oracle).accepts(g) == old(oracle).accepts(g),
        forall|g: Seq<u8>| #[trigger] final(oracle).objective_values(g) == old(oracle).objective_values(g),
{
    let ghost o0 = *oracle;
    let mut current = Chromosome::random(space, rng);
    let mut current_fitness = oracle.scalar(&current);
    let mut history: Vec<Record> = Vec::new();
    push_record(&mut history, oracle.evaluations(), current_fitness);
    let n = space.len();
    loop
        invariant
            n == space@.len(),
            valid_genes(current.genes@, space@),
            current_fitness == o0.fitness(current.genes@),
            history@.len() >= 1,
            bests_non_increasing(history@),
            forall|g: int| 0 <= g < history@.len() ==> current_fitness <= (#[trigger] history@[g]).best,
            forall|g: int| 0 <= g < history@.len() ==> (#[trigger] history@[g]).population is None,
            forall|g: Seq<u8>| #[trigger] oracle.fitness(g) == o0.fitness(g),
            forall|g: Seq<u8>| #[trigger] oracle.accepts(g) == o0.accepts(g),
            accepts_space(o0, space@),
            forall|g: Seq<u8>| #[trigger] oracle.objective_values(g) == o0.objective_values(g),
        ensures
            valid_genes(current.genes@, space@),
            current_fitness == o0.fitness(current.genes@),
            is_one_opt(o0, current.genes@, space@),
            history@.len() >= 2,
            history@.last().best == current_fitness,
            history@.last().evaluations == oracle.evaluation_count(),
            bests_non_increasing(history@),
            forall|g: int| 0 <= g < history@.len() ==> current_fitness <= (#[trigger] history@[g]).best,
            forall|g: int| 0 <= g < history@.len() ==> (#[trigger] history@[g]).population is None,
            forall|g: Seq<u8>| #[trigger] oracle.fitness(g) == o0.fitness(g),
            forall|g: Seq<u8>| #[trigger] oracle.accepts(g) == o0.accepts(g),
            accepts_space(o0, space@),
            forall|g: Seq<u8>| #[trigger] oracle.objective_values(g) == o0.objective_values(g),
        decreases current_fitness,
    {
        let ghost start_fitness = current_fitness;
        let mut changed = false;
        for i in 0..n
            invariant
                n == space@.len(),
                valid_genes(current.genes@, space@),
                current_fitness == o0.fitness(current.genes@),
                changed ==> current_fitness < start_fitness,
                !changed ==> current_fitness == start_fitness,
                !changed ==> forall|k: int, w: u8|
                    0 <= k < i && w < card_u8(space@[k]) && w != current.genes@[k] ==> current_fitness
                        <= #[trigger] o0.fitness(current.genes@.update(k, w)),
                forall|g: Seq<u8>| #[trigger] oracle.fitness(g) == o0.fitness(g),
                forall|g: Seq<u8>| #[trigger] oracle.accepts(g) == o0.accepts(g),
                accepts_space(o0, space@),
                forall|g: Seq<u8>| #[trigger] oracle.objective_values(g) == o0.objective_values(g),
        {
            let card8: u8 = (space[i] % 256) as u8;
            let gi = current.genes[i];
            let mut best_val: u8 = gi;
            let mut best_fit: u64 = current_fitness;
            let mut v: u8 = 0;
            while v < card8
                invariant
                    n == space@.len(),
                    i < n,
                    card8 == card_u8(space@[i as int]),
                    gi == current.genes@[i as int],
                    valid_genes(current.genes@, space@),
                    current_fitness == o0.fitness(current.genes@),
                    best_fit <= current_fitness,
                    best_val == gi ==> best_fit == current_fitness,
                    best_val != gi ==> best_fit < current_fitness && best_val < card8 && best_fit
                        == o0.fitness(current.genes@.update(i as int, best_val)),
                    forall|w: u8|
                        w < v && w != gi ==> best_fit <= #[trigger] o0.fitness(
                            current.genes@.update(i as int, w),
                        ),
                    forall|g: Seq<u8>| #[trigger] oracle.fitness(g) == o0.fitness(g),
                    forall|g: Seq<u8>| #[trigger] oracle.accepts(g) == o0.accepts(g),
                    accepts_space(o0, space@),
                    forall|g: Seq<u8>| #[trigger] oracle.objective_values(g) == o0.objective_values(g),
                decreases card8 - v,
            {
                if v != gi {
                    let mut trial = current.duplicate();
                    trial.genes.set(i, v);
                    let f = oracle.scalar(&trial);
                    if f < best_fit {
                        best_fit = f;
                        best_val = v;
                    }
                }
                v = v + 1;
            }
            if best_val != gi {
                proof {
                    lemma_update_valid(current.genes@, space@, i as int, best_val);
                }
                current.genes.set(i, best_val);
                current_fitness = best_fit;
                changed = true;
            }
        }
        let ghost before = history@;
        push_record(&mut history, oracle.evaluations(), current_fitness);
        proof {
            assert forall|g: int| 0 <= g < history@.len() implies current_fitness <= (#[trigger] history@[g]).best by {
                if g < before.len() {
                    assert(history@[g] == before[g]);
                }
            }
            assert forall|g: int| 0 <= g < history@.len() implies (#[trigger] history@[g]).population is None by {
                if g < before.len() {
                    assert(history@[g] == before[g]);
                }
            }
        }
        if !changed {
            break;
        }
    }
    proof {
        assert forall|i: int, w: u8|
            0 <= i < space@.len() && w < card_u8(space@[i]) && w != current.genes@[i] implies old(
                oracle,
            ).fitness(current.genes@) <= #[trigger] old(oracle).fitness(current.genes@.update(i, w)) by {
            assert(o0.fitness(current.genes@.update(i, w)) == old(oracle).fitness(current.genes@.update(i, w)));
        }
    }
    SearchOutcome { best: current, best_fitness: current_fitness, history }
}

/// The gene sequences of the first `j` enumerated chromosomes.
pub open spec fn enumerated_prefix(all: Seq<Chromosome>, j: int) -> Set<Seq<u8>> {
    Set::new(|g: Seq<u8>| exists|k: int| 0 <= k < j && (#[trigger] all[k]).genes@ == g)
}

/// Exhaustive enumeration of the entire search space: the global optimum
/// (the first in enumeration order on ties). Returns `None` if the space has
/// more than `limit` points. Spaces within the limit have non-empty axes of
/// at most 255 values (genes are `u8`).
pub fn exhaustive<O: Oracle>(space: &[usize], limit: u128, oracle: &mut O) -> (r: Option<SearchOutcome>)
    requires
        accepts_space(*old(oracle), space@),
        forall|n: nat| n <= space@.len() ==> #[trigger] prefix_product(space@, n) <= u128::MAX,
        space_size_spec(space@) <= limit ==> forall|i: int|
            0 <= i < space@.len() ==> 0 < (#[trigger] space@[i]) <= 255,
    ensures
        r is None <==> space_size_spec(space@) > limit,
        r is None ==> *final(oracle) == *old(oracle),
        r matches Some(out) ==> {
            &&& valid_genes(out.best.genes@, space@)
            &&& out.best_fitness == old(oracle).fitness(out.best.genes@)
            &&& forall|g: Seq<u8>| valid_genes(g, space@) ==> out.best_fitness <= #[trigger] old(oracle).fitness(g)
            &&& forall|g: Seq<u8>|
                valid_genes(g, space@) && chrom_index(g, space@) < chrom_index(out.best.genes@, space@)
                    ==> out.best_fitness < #[trigger] old(oracle).fitness(g)
            &&& out.history@ == seq![plain_record(final(oracle).evaluation_count() as usize, out.best_fitness)]
            &&& final(oracle).evaluated() == old(oracle).evaluated() + Set::new(|g: Seq<u8>| valid_genes(g, space@))
        },
        forall|g: Seq<u8>| #[trigger] final(oracle).fitness(g) == old(oracle).fitness(g),
        forall|g: Seq<u8>| #[trigger] final(oracle).accepts(g) == old(oracle).accepts(g),
        forall|g: Seq<u8>| #[trigger] final(oracle).objective_values(g) == old(oracle).objective_values(g),
{
    if space_size(space) > limit {
        return None;
    }
    let ghost o0 = *oracle;
    let all = enumerate(space);
    proof {
        assert(forall|i: int| 0 <= i < space@.len() ==> (#[trigger] space@[i]) > 0);
        if all@.len() == 0 {
            // The all-zero chromosome is valid, so the space has a point.
            let z = Seq::new(space@.len(), |i: int| 0u8);
            assert(valid_genes(z, space@));
            lemma_enumeration_complete(all@, space@, z);
        }
    }
    let mut best = all[0].duplicate();
    let mut best_fitness = oracle.scalar(&best);
    let ghost mut best_pos: int = 0;
    proof {
        assert(oracle.evaluated() =~= o0.evaluated() + enumerated_prefix(all@, 1));
    }
    let m = all.len();
    for j in 1..m
        invariant
            0 <= best_pos < j,
            best.genes@ == all@[best_pos].genes@,
            forall|k: int| 0 <= k < best_pos ==> best_fitness < o0.fitness(#[trigger] all@[k].genes@),
            m == all@.len(),
            m == space_size_spec(space@),
            forall|k: int|
                0 <= k < all@.len() ==> valid_genes((#[trigger] all@[k]).genes@, space@)
                    && crate::strategy::chrom_index(all@[k].genes@, space@) == k,
            valid_genes(best.genes@, space@),
            best_fitness == o0.fitness(best.genes@),
            forall|k: int| 0 <= k < j ==> best_fitness <= o0.fitness(#[trigger] all@[k].genes@),
            forall|g: Seq<u8>| #[trigger] oracle.fitness(g) == o0.fitness(g),
            forall|g: Seq<u8>| #[trigger] oracle.accepts(g) == o0.accepts(g),
            accepts_space(o0, space@),
            forall|g: Seq<u8>| #[trigger] oracle.objective_values(g) == o0.objective_values(g),
            oracle.evaluated() == o0.evaluated() + enumerated_prefix(all@, j as int),
    {
        let f = oracle.scalar(&all[j]);
        proof {
            assert(oracle.evaluated() =~= o0.evaluated() + enumerated_prefix(all@, j + 1)) by {
                assert forall|g: Seq<u8>| enumerated_prefix(all@, j + 1).contains(g) implies (g == all@[j as int].genes@
                    || enumerated_prefix(all@, j as int).contains(g)) by {
                    let k = choose|k: int| 0 <= k < j + 1 && (#[trigger] all@[k]).genes@ == g;
                    if k < j {
                        assert(enumerated_prefix(all@, j as int).contains(g));
                    }
                }
                assert(enumerated_prefix(all@, j + 1).contains(all@[j as int].genes@));
                assert forall|g: Seq<u8>| enumerated_prefix(all@, j as int).contains(g) implies enumerated_prefix(
                    all@,
                    j + 1,
                ).contains(g) by {
                    let k = choose|k: int| 0 <= k < j && (#[trigger] all@[k]).genes@ == g;
                }
            }
        }
        if f < best_fitness {
            best = all[j].duplicate();
            best_fitness = f;
            proof {
                best_pos = j as int;
            }
        }
    }
    proof {
        assert forall|g: Seq<u8>| valid_genes(g, space@) implies best_fitness <= #[trigger] old(oracle).fitness(g) by {
            lemma_enumeration_complete(all@, space@, g);
            let k = crate::strategy::chrom_index(g, space@) as int;
            assert(all@[k].genes@ == g);
        }
        assert(chrom_index(best.genes@, space@) == best_pos);
        assert forall|g: Seq<u8>|
            valid_genes(g, space@) && chrom_index(g, space@) < chrom_index(best.genes@, space@) implies best_fitness
                < #[trigger] old(oracle).fitness(g) by {
            lemma_enumeration_complete(all@, space@, g);
            let k = chrom_index(g, space@) as int;
            assert(all@[k].genes@ == g);
        }
    }
    proof {
        assert(enumerated_prefix(all@, m as int) =~= Set::new(|g: Seq<u8>| valid_genes(g, space@))) by {
            assert forall|g: Seq<u8>| valid_genes(g, space@) implies enumerated_prefix(all@, m as int).contains(g) by {
                lemma_enumeration_complete(all@, space@, g);
                let k = chrom_index(g, space@) as int;
                assert(all@[k].genes@ == g);
            }
            assert forall|g: Seq<u8>| enumerated_prefix(all@, m as int).contains(g) implies valid_genes(g, space@) by {
                let k = choose|k: int| 0 <= k < m && (#[trigger] all@[k]).genes@ == g;
            }
        }
    }
    let mut history: Vec<Record> = Vec::new();
    push_record(&mut history, oracle.evaluations(), best_fitness);
    Some(SearchOutcome { best, best_fitness, history })
}

} // verus!
