//! Parameterised circuit factories.
//!
//! A [`CircuitFactory`] turns a [`Chromosome`] into a compiled circuit. Each
//! gene selects between implementations that compute the same relation, so
//! only the cost varies: every candidate is correct by construction. The
//! factories here describe their circuits as [`plan::CircuitPlan`]s, whose
//! outputs are proved equal to the reference relation.
use vstd::prelude::*;
use crate::fitness::Cost;
use crate::strategy::{Chromosome, valid_genes};

pub mod exponentiation;
pub mod plan;
pub mod range_check;

verus! {

/// Admits every cost model: the models of [`CircuitFactory::cost_model`]
/// are left unconstrained.
pub open spec fn any_cost_model<T>(model: spec_fn(T, Seq<u8>) -> Cost) -> bool {
    true
}

/// Admits every search-space model.
pub open spec fn any_space_model<T>(model: spec_fn(T) -> Seq<usize>) -> bool {
    true
}

/// Maps strategy chromosomes to compiled circuits and their costs.
///
/// Implemented where circuits are compiled. Compiling is deterministic: the
/// static cost of a chromosome is a function of its genes, named
/// [`CircuitFactory::cost_model`]. Code generic over factories sees that
/// function only through [`CircuitFactory::static_cost`].
pub trait CircuitFactory: Sized {
    /// The static cost of the circuit compiled for `genes`: some fixed
    /// function of the factory and the genes, left unknown here (the
    /// implementations compile circuits outside the verified code).
    closed spec fn cost_model(&self, genes: Seq<u8>) -> Cost {
        (choose|model: spec_fn(Self, Seq<u8>) -> Cost| #[trigger] any_cost_model(model))(*self, genes)
    }

    /// Human-readable benchmark name (used in CSV output).
    fn name(&self) -> &str;

    /// The per-gene cardinalities of the search space: some fixed function of
    /// the factory, left unknown here.
    closed spec fn space_model(&self) -> Seq<usize> {
        (choose|model: spec_fn(Self) -> Seq<usize>| #[trigger] any_space_model(model))(*self)
    }

    /// Per-gene cardinalities of the strategy search space.
    fn strategy_space(&self) -> (s: Vec<usize>)
        ensures
            s@ == self.space_model(),
    ;

    /// Compile the circuit selected by `chrom`, whose genes must lie in the
    /// search space, and read its static cost.
    fn static_cost(&self, chrom: &Chromosome) -> (c: Cost)
        requires
            valid_genes(chrom.genes@, self.space_model()),
        ensures
            c == self.cost_model(chrom.genes@),
    ;
}

} // verus!
