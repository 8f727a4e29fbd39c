//! Evolutionary and baseline optimisers.
//!
//! All optimisers consume an [`Oracle`], which maps a chromosome to a scalar
//! fitness (single-objective) or an objective vector (multi-objective) while
//! caching results and counting true evaluations (circuit builds). Counting
//! evaluations rather than generations lets every algorithm be compared on the
//! same budget.
use vstd::prelude::*;
use crate::circuits::CircuitFactory;
use crate::fitness::{Cost, scalar_exact};
use crate::strategy::{Chromosome, valid_genes};

pub mod baselines;
pub mod ga;
pub mod nsga2;
pub mod operators;

verus! {

/// Fitness statistics of a population (for population-based methods).
#[derive(Clone, Copy, Debug)]
pub struct PopulationStats {
    /// Sum of the scalar fitness values of the population; with `size` it
    /// gives the mean fitness.
    pub fitness_sum: u128,
    /// Number of individuals.
    pub size: usize,
    /// Sum, over unordered pairs of individuals, of their Hamming distance
    /// (saturating at `u128::MAX`).
    pub distance_sum: u128,
    /// Number of unordered pairs.
    pub pairs: u128,
    /// The gene count used to normalise distances: that of the first
    /// individual, at least 1.
    pub genes: usize,
}

/// One sampled point in an optimiser's progress trace.
#[derive(Clone, Copy, Debug)]
pub struct Record {
    /// Number of true fitness evaluations performed so far.
    pub evaluations: usize,
    /// Best scalar fitness found so far (lower is better).
    pub best: u64,
    /// Population statistics; `None` for non-population methods.
    pub population: Option<PopulationStats>,
}

/// The scalar fitness of a cost: [`Cost::scalar`].
pub open spec fn cost_scalar(c: Cost) -> u64 {
    if scalar_exact(c) > u64::MAX as int {
        u64::MAX
    } else {
        scalar_exact(c) as u64
    }
}

/// The objective vector of a cost: [`Cost::objectives`].
pub open spec fn cost_objectives(c: Cost) -> Seq<u64> {
    seq![c.gate_count as u64, c.lde_size as u64]
}

/// Fitness oracle. The fitness of a chromosome is a fixed function of its
/// genes ([`Oracle::fitness`]); asking for it may update caches and
/// counters, but never changes that function.
pub trait Oracle {
    /// Scalar fitness of `genes` (lower is better).
    spec fn fitness(&self, genes: Seq<u8>) -> u64;

    /// Objective vector of `genes`, minimised component-wise.
    spec fn objective_values(&self, genes: Seq<u8>) -> Seq<u64>;

    /// Number of true evaluations performed so far.
    spec fn evaluation_count(&self) -> nat;

    /// Number of fitness or objective queries answered so far, repeats
    /// included.
    spec fn queries(&self) -> nat;

    /// The gene sequences the oracle has been asked about so far.
    spec fn evaluated(&self) -> Set<Seq<u8>>;

    /// The gene sequences the oracle can score.
    spec fn accepts(&self, genes: Seq<u8>) -> bool;

    /// Scalar fitness (lower is better).
    fn scalar(&mut self, chrom: &Chromosome) -> (r: u64)
        requires
            old(self).accepts(chrom.genes@),
        ensures
            r == old(self).fitness(chrom.genes@),
            forall|g: Seq<u8>| #[trigger] final(self).accepts(g) == old(self).accepts(g),
            final(self).evaluated() == old(self).evaluated().insert(chrom.genes@),
            final(self).queries() == old(self).queries() + 1,
            forall|g: Seq<u8>| #[trigger] final(self).fitness(g) == old(self).fitness(g),
            forall|g: Seq<u8>| #[trigger] final(self).objective_values(g) == old(self).objective_values(g),
    ;

    /// Objective vector to be minimised component-wise.
    fn objectives(&mut self, chrom: &Chromosome) -> (r: Vec<u64>)
        requires
            old(self).accepts(chrom.genes@),
        ensures
            r@ == old(self).objective_values(chrom.genes@),
            forall|g: Seq<u8>| #[trigger] final(self).accepts(g) == old(self).accepts(g),
            final(self).evaluated() == old(self).evaluated().insert(chrom.genes@),
            final(self).queries() == old(self).queries() + 1,
            forall|g: Seq<u8>| #[trigger] final(self).fitness(g) == old(self).fitness(g),
            forall|g: Seq<u8>| #[trigger] final(self).objective_values(g) == old(self).objective_values(g),
    ;

    /// Number of distinct circuits actually built so far: one per distinct
    /// chromosome the oracle has been asked about.
    fn evaluations(&self) -> (n: usize)
        ensures
            n == self.evaluation_count(),
            self.evaluated().finite(),
            n == self.evaluated().len(),
    ;
}

/// The oracle scores every valid chromosome of `space`.
pub open spec fn accepts_space<O: Oracle>(oracle: O, space: Seq<usize>) -> bool {
    forall|g: Seq<u8>| valid_genes(g, space) ==> #[trigger] oracle.accepts(g)
}

/// Oracle backed by static (non-proving) cost metrics, with memoisation:
/// a chromosome's circuit is built once, repeats come from the cache.
pub struct StaticOracle<F: CircuitFactory> {
    factory: F,
    cache: Vec<(Chromosome, Cost)>,
    answered: Ghost<nat>,
}

impl<F: CircuitFactory> StaticOracle<F> {
    /// Every cached cost is the factory's cost of its chromosome, and no
    /// chromosome is cached twice.
    #[verifier::type_invariant]
    spec fn well_formed(self) -> bool {
        &&& forall|i: int|
            0 <= i < self.cache@.len() ==> (#[trigger] self.cache@[i]).1 == self.factory.cost_model(
                self.cache@[i].0.genes@,
            )
        &&& forall|i: int, j: int|
            0 <= i < j < self.cache@.len() ==> (#[trigger] self.cache@[i]).0.genes@
                != (#[trigger] self.cache@[j]).0.genes@
    }

    /// The factory behind this oracle.
    pub closed spec fn factory_view(&self) -> F {
        self.factory
    }

    /// The gene sequences whose circuits have been built.
    pub closed spec fn cached(&self) -> Set<Seq<u8>> {
        Set::new(|g: Seq<u8>| exists|i: int| 0 <= i < self.cache@.len() && #[trigger] self.cache@[i].0.genes@ == g)
    }

    /// Number of circuits built.
    pub closed spec fn build_count(&self) -> nat {
        self.cache@.len()
    }

    /// Number of queries answered.
    pub closed spec fn answered(&self) -> nat {
        self.answered@
    }

    /// An oracle with an empty cache.
    pub fn new(factory: F) -> (o: Self)
        ensures
            o.factory_view() == factory,
            o.cached() == Set::<Seq<u8>>::empty(),
            o.build_count() == 0,
            o.answered() == 0,
    {
        let o = StaticOracle { factory, cache: Vec::new(), answered: Ghost(0) };
        assert(o.cached() =~= Set::<Seq<u8>>::empty());
        o
    }

    /// The cost of `chrom`: from the cache, or built (and cached) on first use.
    fn cost(&mut self, chrom: &Chromosome) -> (c: Cost)
        requires
            valid_genes(chrom.genes@, old(self).factory_view().space_model()),
        ensures
            c == old(self).factory_view().cost_model(chrom.genes@),
            final(self).factory_view() == old(self).factory_view(),
            final(self).answered() == old(self).answered(),
            final(self).cached() == old(self).cached().insert(chrom.genes@),
            final(self).build_count() == old(self).build_count() + if old(self).cached().contains(
                chrom.genes@,
            ) {
                0nat
            } else {
                1nat
            },
    {
        proof {
            use_type_invariant(&*self);
        }
        let n = self.cache.len();
        for i in 0..n
            invariant
                n == self.cache@.len(),
                forall|j: int| 0 <= j < i ==> self.cache@[j].0.genes@ != chrom.genes@,
                forall|j: int|
                    0 <= j < n ==> (#[trigger] self.cache@[j]).1 == self.factory.cost_model(
                        self.cache@[j].0.genes@,
                    ),
        {
            if self.cache[i].0.same_genes(chrom) {
                let c = self.cache[i].1;
                proof {
                    assert(self.cached().contains(chrom.genes@));
                    assert(self.cached().insert(chrom.genes@) =~= self.cached());
                }
                return c;
            }
        }
        let c = self.factory.static_cost(chrom);
        let ghost before = self.cached();
        let ghost old_cache = self.cache@;
        proof {
            assert(!before.contains(chrom.genes@));
        }
        let mut cache: Vec<(Chromosome, Cost)> = Vec::new();
        std::mem::swap(&mut cache, &mut self.cache);
        cache.push((chrom.duplicate(), c));
        self.cache = cache;
        proof {
            assert(self.cached() =~= before.insert(chrom.genes@)) by {
                assert forall|g: Seq<u8>| self.cached().contains(g) implies before.insert(chrom.genes@).contains(g) by {
                    let i = choose|i: int| 0 <= i < self.cache@.len() && #[trigger] self.cache@[i].0.genes@ == g;
                    if i < n {
                        assert(before.contains(g));
                    }
                }
                assert forall|g: Seq<u8>| before.insert(chrom.genes@).contains(g) implies self.cached().contains(g) by {
                    if g == chrom.genes@ {
                        assert(self.cache@[n as int].0.genes@ == g);
                    } else {
                        let i = choose|i: int| 0 <= i < old_cache.len() && #[trigger] old_cache[i].0.genes@ == g;
                        assert(self.cache@[i] == old_cache[i]);
                    }
                }
            }
        }
        c
    }
}

impl<F: CircuitFactory> Oracle for StaticOracle<F> {
    open spec fn fitness(&self, genes: Seq<u8>) -> u64 {
        cost_scalar(self.factory_view().cost_model(genes))
    }

    open spec fn objective_values(&self, genes: Seq<u8>) -> Seq<u64> {
        cost_objectives(self.factory_view().cost_model(genes))
    }

    open spec fn evaluation_count(&self) -> nat {
        self.build_count()
    }

    open spec fn evaluated(&self) -> Set<Seq<u8>> {
        self.cached()
    }

    open spec fn queries(&self) -> nat {
        self.answered()
    }

    open spec fn accepts(&self, genes: Seq<u8>) -> bool {
        valid_genes(genes, self.factory_view().space_model())
    }

    fn scalar(&mut self, chrom: &Chromosome) -> (r: u64)
        ensures
            final(self).cached() == old(self).cached().insert(chrom.genes@),
            final(self).build_count() == old(self).build_count() + if old(self).cached().contains(
                chrom.genes@,
            ) {
                0nat
            } else {
                1nat
            },
    {
        let r = self.cost(chrom).scalar();
        proof {
            use_type_invariant(&*self);
        }
        self.answered = Ghost(self.answered@ + 1);
        r
    }

    fn objectives(&mut self, chrom: &Chromosome) -> (r: Vec<u64>)
        ensures
            final(self).cached() == old(self).cached().insert(chrom.genes@),
            final(self).build_count() == old(self).build_count() + if old(self).cached().contains(
                chrom.genes@,
            ) {
                0nat
            } else {
                1nat
            },
    {
        let r = self.cost(chrom).objectives();
        proof {
            use_type_invariant(&*self);
        }
        self.answered = Ghost(self.answered@ + 1);
        r
    }

    fn evaluations(&self) -> (n: usize)
        ensures
            self.cached().finite(),
            n == self.cached().len(),
    {
        proof {
            use_type_invariant(self);
            let gs = self.cache@.map_values(|e: (Chromosome, Cost)| e.0.genes@);
            assert(gs.no_duplicates()) by {
                assert forall|i: int, j: int| 0 <= i < gs.len() && 0 <= j < gs.len() && i != j implies gs[i] != gs[j] by {
                    if i < j {
                        assert(self.cache@[i].0.genes@ != self.cache@[j].0.genes@);
                    } else {
                        assert(self.cache@[j].0.genes@ != self.cache@[i].0.genes@);
                    }
                }
            }
            gs.unique_seq_to_set();
            assert(gs.to_set() =~= self.cached()) by {
                assert forall|g: Seq<u8>| gs.to_set().contains(g) implies self.cached().contains(g) by {
                    let i = choose|i: int| 0 <= i < gs.len() && gs[i] == g;
                    assert(self.cache@[i].0.genes@ == g);
                }
                assert forall|g: Seq<u8>| self.cached().contains(g) implies gs.to_set().contains(g) by {
                    let i = choose|i: int| 0 <= i < self.cache@.len() && #[trigger] self.cache@[i].0.genes@ == g;
                    assert(gs[i] == g);
                }
            }
        }
        self.cache.len()
    }
}

} // verus!
