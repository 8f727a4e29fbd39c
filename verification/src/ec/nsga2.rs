//! NSGA-II: multi-objective evolutionary optimisation.
//!
//! Produces a Pareto front trading off the two static objectives
//! (`gate_count`, `lde_size`). Implements fast non-dominated sorting,
//! crowding-distance assignment, crowded-comparison tournament selection, and
//! (μ+λ) elitist replacement, following Deb et al. (2002). Front quality over
//! time is tracked with the 2-D hypervolume indicator.
use vstd::prelude::*;
use vstd::set_lib::{lemma_int_range, lemma_len_subset, set_int_range};
use rand_chacha::ChaCha8Rng;
use crate::ec::ga::{fitness_order, is_fitness_order};
use crate::ec::ga::{all_members, all_valid, alleles_inherited, copies_of, lemma_push_copies, lemma_push_inherits, sampleable, RATE_0_1, RATE_0_9};
use crate::ec::operators::{point_mutation_drawn, uniform_crossover_drawn, lemma_crossover_valid, lemma_mutation_valid, crossed_drawn, mutated_drawn};
use crate::circuits::CircuitFactory;
use crate::ec::{Oracle, accepts_space, StaticOracle};
use crate::rng::{Draws, UNIT_53};
use crate::strategy::{Chromosome, valid_genes};

verus! {

/// NSGA-II hyperparameters. Rates are probabilities in units of `2^-53`, as
/// in [`crate::ec::ga::GaConfig`].
#[derive(Clone, Copy, Debug)]
pub struct Nsga2Config {
    pub pop_size: usize,
    pub generations: usize,
    pub crossover_rate: u64,
    pub mutation_rate: u64,
}

impl Default for Nsga2Config {
    fn default() -> (c: Self)
        ensures
            c.pop_size == 60,
            c.generations == 80,
            c.crossover_rate == RATE_0_9,
            c.mutation_rate == RATE_0_1,
    {
        Nsga2Config { pop_size: 60, generations: 80, crossover_rate: RATE_0_9, mutation_rate: RATE_0_1 }
    }
}

/// A non-dominated solution.
#[derive(Clone, Debug)]
pub struct ParetoPoint {
    pub chrom: Chromosome,
    pub objectives: Vec<u64>,
}

/// Progress record: hypervolume of the current first front.
#[derive(Clone, Copy, Debug)]
pub struct HvRecord {
    pub evaluations: usize,
    /// Hypervolume in hundredths (see [`hypervolume_2d`]).
    pub hypervolume: u128,
    pub front_size: usize,
}

/// Result of an NSGA-II run.
pub struct Nsga2Outcome {
    pub front: Vec<ParetoPoint>,
    pub history: Vec<HvRecord>,
}

/// Whether objective vector `a` Pareto-dominates `b` (minimisation), over
/// their common prefix: no component is worse and some component is better.
pub open spec fn dominates_spec(a: Seq<u64>, b: Seq<u64>) -> bool {
    let n = if a.len() <= b.len() {
        a.len()
    } else {
        b.len()
    };
    &&& forall|i: int| 0 <= i < n ==> #[trigger] a[i] <= b[i]
    &&& exists|i: int| 0 <= i < n && #[trigger] a[i] < b[i]
}

/// Whether objective vector `a` Pareto-dominates `b` (minimisation).
pub fn dominates(a: &Vec<u64>, b: &Vec<u64>) -> (r: bool)
    ensures
        r == dominates_spec(a@, b@),
{
    let n = if a.len() <= b.len() {
        a.len()
    } else {
        b.len()
    };
    let mut strictly_better = false;
    for i in 0..n
        invariant
            n == if a@.len() <= b@.len() {
                a@.len()
            } else {
                b@.len()
            },
            forall|j: int| 0 <= j < i ==> #[trigger] a@[j] <= b@[j],
            strictly_better == exists|j: int| 0 <= j < i && #[trigger] a@[j] < b@[j],
    {
        if a[i] > b[i] {
            return false;
        }
        if a[i] < b[i] {
            strictly_better = true;
        }
    }
    strictly_better
}

/// Every objective vector has the same number of components.
pub open spec fn same_lengths(objs: Seq<Vec<u64>>) -> bool {
    forall|p: int, q: int|
        0 <= p < objs.len() && 0 <= q < objs.len() ==> (#[trigger] objs[p])@.len()
            == (#[trigger] objs[q])@.len()
}

/// `objs[p]` dominates `objs[q]`.
pub open spec fn dom(objs: Seq<Vec<u64>>, p: int, q: int) -> bool {
    dominates_spec(objs[p]@, objs[q]@)
}

/// Sum of the components of an objective vector.
pub open spec fn obj_sum(a: Seq<u64>) -> nat
    decreases a.len(),
{
    if a.len() == 0 {
        0
    } else {
        obj_sum(a.drop_last()) + (a.last() as nat)
    }
}

/// Component-wise `<=` gives `<=` of the sums, and a strictly smaller
/// component a strictly smaller sum.
proof fn lemma_obj_sum_le(a: Seq<u64>, b: Seq<u64>)
    requires
        a.len() == b.len(),
        forall|i: int| 0 <= i < a.len() ==> #[trigger] a[i] <= b[i],
    ensures
        obj_sum(a) <= obj_sum(b),
        (exists|i: int| 0 <= i < a.len() && #[trigger] a[i] < b[i]) ==> obj_sum(a) < obj_sum(b),
    decreases a.len(),
{
    if a.len() > 0 {
        let ad = a.drop_last();
        let bd = b.drop_last();
        assert forall|i: int| 0 <= i < ad.len() implies #[trigger] ad[i] <= bd[i] by {
            assert(ad[i] == a[i] && bd[i] == b[i]);
        }
        lemma_obj_sum_le(ad, bd);
        if exists|i: int| 0 <= i < a.len() && #[trigger] a[i] < b[i] {
            let i = choose|i: int| 0 <= i < a.len() && #[trigger] a[i] < b[i];
            if i < a.len() - 1 {
                assert(ad[i] == a[i] && bd[i] == b[i]);
            }
        }
    }
}

/// Domination between vectors of equal length strictly lowers the sum; so
/// domination is irreflexive and acyclic.
pub proof fn lemma_dominates_sum(a: Seq<u64>, b: Seq<u64>)
    requires
        a.len() == b.len(),
        dominates_spec(a, b),
    ensures
        obj_sum(a) < obj_sum(b),
{
    lemma_obj_sum_le(a, b);
}

/// Number of indices `p < k` with `done[p]` false whose vector dominates
/// `objs[q]`.
pub open spec fn dcount(objs: Seq<Vec<u64>>, q: int, done: Seq<bool>, k: nat) -> nat
    decreases k,
{
    if k == 0 {
        0
    } else {
        dcount(objs, q, done, (k - 1) as nat) + if !done[k - 1] && dom(objs, k - 1, q) {
            1nat
        } else {
            0nat
        }
    }
}

/// Marking `p` done lowers the count by one exactly when `p` dominates.
proof fn lemma_dcount_mark(objs: Seq<Vec<u64>>, q: int, done: Seq<bool>, p: int, k: nat)
    requires
        0 <= p < done.len(),
        !done[p],
        k <= done.len(),
    ensures
        dcount(objs, q, done.update(p, true), k) + (if p < k && dom(objs, p, q) {
            1nat
        } else {
            0nat
        }) == dcount(objs, q, done, k),
    decreases k,
{
    if k > 0 {
        lemma_dcount_mark(objs, q, done, p, (k - 1) as nat);
    }
}

/// The count is zero exactly when every dominator below `k` is done.
proof fn lemma_dcount_zero(objs: Seq<Vec<u64>>, q: int, done: Seq<bool>, k: nat)
    requires
        k <= done.len(),
    ensures
        dcount(objs, q, done, k) == 0 <==> forall|p: int|
            0 <= p < k && #[trigger] dom(objs, p, q) ==> done[p],
    decreases k,
{
    if k > 0 {
        lemma_dcount_zero(objs, q, done, (k - 1) as nat);
        if dcount(objs, q, done, k) == 0 {
            assert forall|p: int| 0 <= p < k && #[trigger] dom(objs, p, q) implies done[p] by {
                if p < k - 1 {
                } else {
                }
            }
        }
    }
}

/// Among the indices of negative `rank`, any one leads to one that no index
/// of negative `rank` dominates.
proof fn lemma_undominated_member(objs: Seq<Vec<u64>>, rank: Seq<int>, q0: int) -> (q: int)
    requires
        same_lengths(objs),
        rank.len() == objs.len(),
        0 <= q0 < objs.len(),
        rank[q0] < 0,
    ensures
        0 <= q < objs.len(),
        rank[q] < 0,
        forall|p: int| 0 <= p < objs.len() && rank[p] < 0 ==> !#[trigger] dom(objs, p, q),
    decreases obj_sum(objs[q0]@),
{
    if exists|p: int| 0 <= p < objs.len() && rank[p] < 0 && #[trigger] dom(objs, p, q0) {
        let p = choose|p: int| 0 <= p < objs.len() && rank[p] < 0 && #[trigger] dom(objs, p, q0);
        lemma_dominates_sum(objs[p]@, objs[q0]@);
        lemma_undominated_member(objs, rank, p)
    } else {
        q0
    }
}

/// `row` lists, in increasing order, exactly the indices below `k` whose
/// vectors `objs[p]` dominates.
pub open spec fn is_dominated_row(objs: Seq<Vec<u64>>, p: int, row: Seq<usize>, k: int) -> bool {
    &&& forall|a: int, b: int| 0 <= a < b < row.len() ==> #[trigger] row[a] < #[trigger] row[b]
    &&& forall|j: int| 0 <= j < row.len() ==> (#[trigger] row[j]) < k
    &&& forall|x: int| 0 <= x < k ==> (dom(objs, p, x) <==> #[trigger] row.contains(x as usize))
}

/// Index `q` lies in one of the `fronts`.
pub open spec fn in_some_front(fronts: Seq<Vec<usize>>, q: int) -> bool {
    exists|r: int| 0 <= r < fronts.len() && #[trigger] fronts[r]@.contains(q as usize)
}

/// A member of a dominated row is a dominated index.
proof fn lemma_row_member(objs: Seq<Vec<u64>>, p: int, row: Seq<usize>, k: int, j: int)
    requires
        is_dominated_row(objs, p, row, k),
        0 <= j < row.len(),
    ensures
        row[j] < k,
        dom(objs, p, row[j] as int),
{
    assert(row.contains(row[j]));
    assert(row.contains((row[j] as int) as usize));
}

/// `fronts` is the non-dominated sorting of `objs`: the fronts are non-empty,
/// split the indices `0..n` (each index in exactly one front, once), and
/// an index lies in front `r` exactly when all its dominators lie in earlier
/// fronts and, for `r > 0`, one of them lies in front `r - 1`.
pub open spec fn is_nd_sort(objs: Seq<Vec<u64>>, fronts: Seq<Vec<usize>>) -> bool {
    &&& forall|r: int| 0 <= r < fronts.len() ==> (#[trigger] fronts[r])@.len() > 0
    &&& forall|r: int| 0 <= r < fronts.len() ==> (#[trigger] fronts[r])@.no_duplicates()
    &&& forall|r: int, j: int|
        0 <= r < fronts.len() && 0 <= j < fronts[r]@.len() ==> (#[trigger] fronts[r]@[j]) < objs.len()
    &&& forall|q: int| 0 <= q < objs.len() ==> #[trigger] in_some_front(fronts, q)
    &&& forall|r1: int, r2: int, q: usize|
        0 <= r1 < fronts.len() && 0 <= r2 < fronts.len() && #[trigger] fronts[r1]@.contains(q)
            && #[trigger] fronts[r2]@.contains(q) ==> r1 == r2
    &&& forall|r: int, q: usize, p: int|
        0 <= r < fronts.len() && #[trigger] fronts[r]@.contains(q) && 0 <= p < objs.len() && #[trigger] dom(
            objs,
            p,
            q as int,
        ) ==> exists|r2: int| 0 <= r2 < r && #[trigger] fronts[r2]@.contains(p as usize)
    &&& forall|r: int, q: usize|
        0 < r < fronts.len() && #[trigger] fronts[r]@.contains(q) ==> exists|p: int|
            0 <= p < objs.len() && #[trigger] fronts[r - 1]@.contains(p as usize) && dom(objs, p, q as int)
}


/// The list of indices whose vectors `objs[p]` dominates, in increasing order,
/// and the number of vectors that dominate `objs[p]`.
fn dominance_row(objs: &Vec<Vec<u64>>, p: usize) -> (r: (Vec<usize>, usize))
    requires
        same_lengths(objs@),
        p < objs@.len(),
    ensures
        is_dominated_row(objs@, p as int, r.0@, objs@.len() as int),
        r.1 == dcount(objs@, p as int, Seq::new(objs@.len(), |x: int| false), objs@.len() as nat),
{
    let n = objs.len();
    let ghost none = Seq::new(n as nat, |x: int| false);
    let mut row: Vec<usize> = Vec::new();
    let mut c: usize = 0;
    for q in 0..n
        invariant
            n == objs@.len(),
            p < n,
            same_lengths(objs@),
            none == Seq::new(n as nat, |x: int| false),
            is_dominated_row(objs@, p as int, row@, q as int),
            c == dcount(objs@, p as int, none, q as nat),
            c <= q,
    {
        let ghost before = row@;
        if p != q {
            if dominates(&objs[p], &objs[q]) {
                row.push(q);
                proof {
                    lemma_dominates_sum(objs@[p as int]@, objs@[q as int]@);
                }
            } else if dominates(&objs[q], &objs[p]) {
                c = c + 1;
            }
        } else {
            assert(!dom(objs@, p as int, p as int));
        }
        proof {
            assert forall|x: int| 0 <= x < q + 1 implies (dom(objs@, p as int, x) <==> #[trigger] row@.contains(
                x as usize,
            )) by {
                if x < q {
                    if before.contains(x as usize) {
                        let j = choose|j: int| 0 <= j < before.len() && before[j] == x as usize;
                        assert(row@[j] == before[j]);
                    }
                    if row@.contains(x as usize) {
                        let j = choose|j: int| 0 <= j < row@.len() && row@[j] == x as usize;
                        if j < before.len() {
                            assert(before[j] == row@[j]);
                        }
                    }
                } else {
                    if dom(objs@, p as int, x) {
                        assert(row@[row@.len() - 1] == x as usize);
                    } else if row@.contains(x as usize) {
                        let j = choose|j: int| 0 <= j < row@.len() && row@[j] == x as usize;
                        assert(row@[j] == before[j]);
                    }
                }
            }
            if p != q && !dom(objs@, p as int, q as int) && dom(objs@, q as int, p as int) {
                assert(dcount(objs@, p as int, none, (q + 1) as nat) == c);
            }
        }
    }
    (row, c)
}


/// Position `t` of `front` holds the last member of `front` that dominates
/// `objs[q]`.
pub open spec fn last_dominator_at(objs: Seq<Vec<u64>>, front: Seq<usize>, q: int, t: int) -> bool {
    &&& 0 <= t < front.len()
    &&& dom(objs, front[t] as int, q)
    &&& forall|j: int| t < j < front.len() ==> !#[trigger] dom(objs, front[j] as int, q)
}

/// `next` lists its members by the position in `prev` of their last
/// dominator there, then by index: the order in which processing `prev`
/// member by member releases them.
pub open spec fn follows_order(objs: Seq<Vec<u64>>, prev: Seq<usize>, next: Seq<usize>) -> bool {
    forall|a: int, b: int, ta: int, tb: int|
        #![trigger last_dominator_at(objs, prev, next[a] as int, ta), last_dominator_at(objs, prev, next[b] as int, tb)]
        0 <= a < b < next.len() && last_dominator_at(objs, prev, next[a] as int, ta) && last_dominator_at(
            objs,
            prev,
            next[b] as int,
            tb,
        ) ==> ta < tb || (ta == tb && next[a] < next[b])
}

/// The position of the last dominator is unique.
proof fn lemma_last_dominator_unique(objs: Seq<Vec<u64>>, front: Seq<usize>, q: int, t1: int, t2: int)
    requires
        last_dominator_at(objs, front, q, t1),
        last_dominator_at(objs, front, q, t2),
    ensures
        t1 == t2,
{
    if t1 < t2 {
        assert(!dom(objs, front[t2] as int, q));
    } else if t2 < t1 {
        assert(!dom(objs, front[t1] as int, q));
    }
}

/// Fast non-dominated sort. Returns fronts as lists of indices into `objs`:
/// the first front holds the non-dominated vectors in index order, and each
/// further front those whose dominators all lie in earlier fronts.
#[verifier::spinoff_prover]
#[verifier::rlimit(60)]
pub fn non_dominated_sort(objs: &Vec<Vec<u64>>) -> (fronts: Vec<Vec<usize>>)
    requires
        same_lengths(objs@),
    ensures
        is_nd_sort(objs@, fronts@),
        objs@.len() == 0 <==> fronts@.len() == 0,
        fronts@.len() > 0 ==> forall|a: int, b: int|
            0 <= a < b < fronts@[0]@.len() ==> #[trigger] fronts@[0]@[a] < #[trigger] fronts@[0]@[b],
        forall|r: int| 0 <= r < fronts@.len() - 1 ==> follows_order(objs@, #[trigger] fronts@[r]@, fronts@[r + 1]@),
{
    let n = objs.len();
    let ghost none = Seq::new(n as nat, |x: int| false);
    let ghost mut rank: Seq<int> = Seq::new(n as nat, |x: int| -1int);
    let ghost mut placed: Set<int> = Set::empty();
    let mut dominated_by: Vec<Vec<usize>> = Vec::new();
    let mut count: Vec<usize> = Vec::new();
    let mut front0: Vec<usize> = Vec::new();
    for p in 0..n
        invariant
            n == objs@.len(),
            same_lengths(objs@),
            none == Seq::new(n as nat, |x: int| false),
            dominated_by@.len() == p,
            count@.len() == p,
            rank.len() == n,
            forall|x: int| 0 <= x < p ==> is_dominated_row(objs@, x, (#[trigger] dominated_by@[x])@, n as int),
            forall|x: int| 0 <= x < p ==> #[trigger] count@[x] == dcount(objs@, x, none, n as nat),
            forall|x: int| p <= x < n ==> #[trigger] rank[x] == -1,
            forall|x: int| 0 <= x < p ==> (#[trigger] rank[x] == 0 <==> count@[x] == 0),
            forall|x: int| 0 <= x < p ==> (#[trigger] rank[x] == 0 || rank[x] == -1),
            forall|a: int, b: int| 0 <= a < b < front0@.len() ==> #[trigger] front0@[a] < #[trigger] front0@[b],
            forall|j: int| 0 <= j < front0@.len() ==> (#[trigger] front0@[j]) < p && rank[front0@[j] as int] == 0,
            forall|x: int| 0 <= x < p && rank[x] == 0 ==> #[trigger] front0@.contains(x as usize),
            placed.finite(),
            placed.len() == front0@.len(),
            forall|x: int| #[trigger] placed.contains(x) <==> (0 <= x < n && rank[x] >= 0),
    {
        let (row, c) = dominance_row(objs, p);
        dominated_by.push(row);
        count.push(c);
        let ghost f_before = front0@;
        if c == 0 {
            front0.push(p);
            proof {
                let r_before = rank;
                assert(!placed.contains(p as int));
                rank = rank.update(p as int, 0);
                placed = placed.insert(p as int);
                assert forall|x: int| 0 <= x < p + 1 && rank[x] == 0 implies #[trigger] front0@.contains(x as usize) by {
                    if x < p {
                        assert(r_before[x] == 0);
                        assert(f_before.contains(x as usize));
                        let j = choose|j: int| 0 <= j < f_before.len() && f_before[j] == x as usize;
                        assert(front0@[j] == f_before[j]);
                    } else {
                        assert(front0@[front0@.len() - 1] == x as usize);
                    }
                }
            }
        }
    }
    proof {
        assert forall|x: int, y: int|
            0 <= x < n && 0 <= y < n && rank[y] >= 0 && #[trigger] dom(objs@, x, y) implies 0 <= #[trigger] rank[x]
                < rank[y] by {
            lemma_dcount_zero(objs@, y, none, n as nat);
        }
    }
    let mut fronts: Vec<Vec<usize>> = Vec::new();
    fronts.push(front0);
    let mut i: usize = 0;
    let ghost mut done: Seq<bool> = none;
    while fronts[i].len() > 0
        invariant
            n == objs@.len(),
            same_lengths(objs@),
            dominated_by@.len() == n,
            count@.len() == n,
            rank.len() == n,
            done.len() == n,
            fronts@.len() == i + 1,
            i <= n,
            forall|x: int| 0 <= x < n ==> is_dominated_row(objs@, x, (#[trigger] dominated_by@[x])@, n as int),
            forall|x: int| 0 <= x < n ==> (#[trigger] done[x] <==> 0 <= rank[x] < i),
            forall|x: int| 0 <= x < n ==> -1 <= #[trigger] rank[x] <= i,
            forall|x: int| 0 <= x < n && #[trigger] rank[x] < 0 ==> count@[x] == dcount(objs@, x, done, n as nat)
                && count@[x] > 0,
            forall|r: int, j: int|
                0 <= r <= i && 0 <= j < fronts@[r]@.len() ==> (#[trigger] fronts@[r]@[j]) < n
                    && rank[fronts@[r]@[j] as int] == r,
            forall|x: int| 0 <= x < n && #[trigger] rank[x] >= 0 ==> fronts@[rank[x]]@.contains(x as usize),
            forall|r: int| 0 <= r <= i ==> (#[trigger] fronts@[r])@.no_duplicates(),
            forall|r: int| 0 <= r < i ==> (#[trigger] fronts@[r])@.len() > 0,
            forall|x: int, y: int|
                0 <= x < n && 0 <= y < n && rank[y] >= 0 && #[trigger] dom(objs@, x, y) ==> 0 <= #[trigger] rank[x]
                    < rank[y],
            forall|y: int|
                0 <= y < n && #[trigger] rank[y] > 0 ==> exists|x: int|
                    0 <= x < n && #[trigger] rank[x] == rank[y] - 1 && dom(objs@, x, y),
            forall|a: int, b: int|
                0 <= a < b < fronts@[0]@.len() ==> #[trigger] fronts@[0]@[a] < #[trigger] fronts@[0]@[b],
            placed.finite(),
            forall|x: int| #[trigger] placed.contains(x) <==> (0 <= x < n && rank[x] >= 0),
            placed.len() >= i + if fronts@[i as int]@.len() > 0 { 1int } else { 0int },
            forall|r: int| 0 <= r < i ==> follows_order(objs@, #[trigger] fronts@[r]@, fronts@[r + 1]@),
        decreases n - i,
    {
        proof {
            assert(placed.subset_of(set_int_range(0, n as int)));
            lemma_int_range(0, n as int);
            lemma_len_subset(placed, set_int_range(0, n as int));
        }
        let ghost base = placed.len();
        let mut next: Vec<usize> = Vec::new();
        let ghost mut pos: Seq<int> = Seq::empty();
        let m = fronts[i].len();
        for t in 0..m
            invariant
                n == objs@.len(),
                same_lengths(objs@),
                dominated_by@.len() == n,
                count@.len() == n,
                rank.len() == n,
                done.len() == n,
                fronts@.len() == i + 1,
                i < n,
                m == fronts@[i as int]@.len(),
                forall|x: int| 0 <= x < n ==> is_dominated_row(objs@, x, (#[trigger] dominated_by@[x])@, n as int),
                forall|x: int|
                    0 <= x < n ==> (#[trigger] done[x] <==> (0 <= rank[x] < i || (rank[x] == i
                        && fronts@[i as int]@.subrange(0, t as int).contains(x as usize)))),
                forall|x: int| 0 <= x < n ==> -1 <= #[trigger] rank[x] <= i + 1,
                forall|x: int|
                    0 <= x < n && (#[trigger] rank[x] < 0 || rank[x] == i + 1) ==> count@[x] == dcount(
                        objs@,
                        x,
                        done,
                        n as nat,
                    ),
                forall|x: int| 0 <= x < n && #[trigger] rank[x] < 0 ==> count@[x] > 0,
                forall|x: int| 0 <= x < n && #[trigger] rank[x] == i + 1 ==> count@[x] == 0,
                forall|r: int, j: int|
                    0 <= r <= i && 0 <= j < fronts@[r]@.len() ==> (#[trigger] fronts@[r]@[j]) < n
                        && rank[fronts@[r]@[j] as int] == r,
                forall|x: int|
                    0 <= x < n && 0 <= #[trigger] rank[x] <= i ==> fronts@[rank[x]]@.contains(x as usize),
                forall|r: int| 0 <= r <= i ==> (#[trigger] fronts@[r])@.no_duplicates(),
                forall|j: int| 0 <= j < next@.len() ==> (#[trigger] next@[j]) < n && rank[next@[j] as int] == i + 1,
                forall|x: int| 0 <= x < n && #[trigger] rank[x] == i + 1 ==> next@.contains(x as usize),
                next@.no_duplicates(),
                forall|x: int, y: int|
                    0 <= x < n && 0 <= y < n && rank[y] >= 0 && #[trigger] dom(objs@, x, y) ==> 0
                        <= #[trigger] rank[x] < rank[y],
                forall|y: int|
                    0 <= y < n && #[trigger] rank[y] > 0 ==> exists|x: int|
                        0 <= x < n && #[trigger] rank[x] == rank[y] - 1 && dom(objs@, x, y),
                placed.finite(),
                forall|x: int| #[trigger] placed.contains(x) <==> (0 <= x < n && rank[x] >= 0),
                placed.len() == base + next@.len(),
                pos.len() == next@.len(),
                forall|j: int|
                    0 <= j < next@.len() ==> last_dominator_at(objs@, fronts@[i as int]@, #[trigger] next@[j] as int, pos[j]),
                forall|a: int, b: int|
                    0 <= a < b < next@.len() ==> #[trigger] pos[a] < #[trigger] pos[b] || (pos[a] == pos[b] && next@[a]
                        < next@[b]),
                forall|j: int| 0 <= j < next@.len() ==> #[trigger] pos[j] < t,
                forall|r: int| 0 <= r < i ==> follows_order(objs@, #[trigger] fronts@[r]@, fronts@[r + 1]@),
        {
            let p = fronts[i][t];
            let ghost s1 = fronts@[i as int]@.subrange(0, t + 1);
            proof {
                assert(fronts@[i as int]@[t as int] == p);
                assert(rank[p as int] == i);
                assert(!fronts@[i as int]@.subrange(0, t as int).contains(p)) by {
                    if fronts@[i as int]@.subrange(0, t as int).contains(p) {
                        let j = choose|j: int| 0 <= j < t && fronts@[i as int]@.subrange(0, t as int)[j] == p;
                        assert(fronts@[i as int]@[j] == p);
                    }
                }
                assert(!done[p as int]);
                assert forall|x: int| 0 <= x < n && #[trigger] rank[x] == i + 1 implies !dom(objs@, p as int, x) by {
                    lemma_dcount_zero(objs@, x, done, n as nat);
                }
                assert forall|x: int| 0 <= x < n && (#[trigger] rank[x] < 0 || rank[x] == i + 1) implies count@[x]
                    == dcount(objs@, x, done.update(p as int, true), n as nat) + (if dom(objs@, p as int, x) {
                    1nat
                } else {
                    0nat
                }) by {
                    lemma_dcount_mark(objs@, x, done, p as int, n as nat);
                }
                done = done.update(p as int, true);
                let s0 = fronts@[i as int]@.subrange(0, t as int);
                assert forall|x: int|
                    0 <= x < n implies (#[trigger] done[x] <==> (0 <= rank[x] < i || (rank[x] == i
                        && s1.contains(x as usize)))) by {
                    if s0.contains(x as usize) {
                        let j = choose|j: int| 0 <= j < s0.len() && s0[j] == x as usize;
                        assert(s1[j] == x as usize);
                    }
                    if s1.contains(x as usize) && x != p {
                        let j = choose|j: int| 0 <= j < s1.len() && s1[j] == x as usize;
                        assert(s0[j] == x as usize);
                    }
                    if x == p {
                        assert(s1[t as int] == x as usize);
                    }
                }
            }
            let row = &dominated_by[p];
            let k = row.len();
            assert(row@.subrange(0, k as int) =~= row@);
            for u in 0..k
                invariant
                    n == objs@.len(),
                    same_lengths(objs@),
                    p < n,
                    dominated_by@.len() == n,
                    row@ == dominated_by@[p as int]@,
                    k == row@.len(),
                    is_dominated_row(objs@, p as int, row@, n as int),
                    count@.len() == n,
                    rank.len() == n,
                    done.len() == n,
                    i < n,
                    rank[p as int] == i,
                    done[p as int],
                    forall|x: int| 0 <= x < n ==> -1 <= #[trigger] rank[x] <= i + 1,
                    forall|x: int|
                        0 <= x < n && (#[trigger] rank[x] < 0 || rank[x] == i + 1) ==> count@[x] == dcount(
                            objs@,
                            x,
                            done,
                            n as nat,
                        ) + (if row@.subrange(u as int, k as int).contains(x as usize) {
                            1nat
                        } else {
                            0nat
                        }),
                    forall|x: int| 0 <= x < n && #[trigger] rank[x] < 0 ==> count@[x] > 0,
                    forall|x: int|
                        0 <= x < n && #[trigger] rank[x] == i + 1 ==> count@[x] == 0
                            && !row@.subrange(u as int, k as int).contains(x as usize),
                    forall|r: int, j: int|
                        0 <= r <= i && 0 <= j < fronts@[r]@.len() ==> (#[trigger] fronts@[r]@[j]) < n
                            && rank[fronts@[r]@[j] as int] == r,
                    forall|x: int|
                        0 <= x < n && 0 <= #[trigger] rank[x] <= i ==> fronts@[rank[x]]@.contains(x as usize),
                    forall|x: int| 0 <= x < n && #[trigger] rank[x] == i + 1 ==> dcount(objs@, x, done, n as nat) == 0,
                    forall|j: int| 0 <= j < next@.len() ==> (#[trigger] next@[j]) < n && rank[next@[j] as int] == i + 1,
                    forall|x: int| 0 <= x < n && #[trigger] rank[x] == i + 1 ==> next@.contains(x as usize),
                    next@.no_duplicates(),
                    forall|x: int|
                        0 <= x < n ==> (#[trigger] done[x] <==> (0 <= rank[x] < i || (rank[x] == i
                            && s1.contains(x as usize)))),
                    forall|x: int, y: int|
                        0 <= x < n && 0 <= y < n && rank[y] >= 0 && #[trigger] dom(objs@, x, y) ==> 0
                            <= #[trigger] rank[x] < rank[y],
                    forall|y: int|
                        0 <= y < n && #[trigger] rank[y] > 0 ==> exists|x: int|
                            0 <= x < n && #[trigger] rank[x] == rank[y] - 1 && dom(objs@, x, y),
                    placed.finite(),
                    forall|x: int| #[trigger] placed.contains(x) <==> (0 <= x < n && rank[x] >= 0),
                    placed.len() == base + next@.len(),
                    t < m,
                    m == fronts@[i as int]@.len(),
                    fronts@.len() == i + 1,
                    s1 == fronts@[i as int]@.subrange(0, t + 1),
                    p == fronts@[i as int]@[t as int],
                    fronts@[i as int]@.no_duplicates(),
                    pos.len() == next@.len(),
                    forall|j: int|
                        0 <= j < next@.len() ==> last_dominator_at(objs@, fronts@[i as int]@, #[trigger] next@[j] as int, pos[j]),
                    forall|a: int, b: int|
                        0 <= a < b < next@.len() ==> #[trigger] pos[a] < #[trigger] pos[b] || (pos[a] == pos[b]
                            && next@[a] < next@[b]),
                    forall|j: int| 0 <= j < next@.len() ==> #[trigger] pos[j] <= t,
                    forall|j: int| 0 <= j < next@.len() && pos[j] == t && u < k ==> #[trigger] next@[j] < row@[u as int],
            {
                let q = row[u];
                proof {
                    assert(row@.subrange(u as int, k as int)[0] == q);
                    lemma_row_member(objs@, p as int, row@, n as int, u as int);
                    if 0 <= rank[q as int] <= i {
                        assert(0 <= rank[p as int] < rank[q as int]);
                    }
                    // Entries after `u` are larger, so `q` does not occur there.
                    let tail0 = row@.subrange(u as int, k as int);
                    let tail1 = row@.subrange(u + 1, k as int);
                    assert(!tail1.contains(q)) by {
                        if tail1.contains(q) {
                            let j = choose|j: int| 0 <= j < tail1.len() && tail1[j] == q;
                            assert(row@[u + 1 + j] == q);
                        }
                    }
                    assert forall|x: int| 0 <= x < n && x != q implies (tail0.contains(x as usize)
                        <==> #[trigger] tail1.contains(x as usize)) by {
                        if tail0.contains(x as usize) {
                            let j = choose|j: int| 0 <= j < tail0.len() && tail0[j] == x as usize;
                            assert(j != 0);
                            assert(tail1[j - 1] == x as usize);
                        }
                        if tail1.contains(x as usize) {
                            let j = choose|j: int| 0 <= j < tail1.len() && tail1[j] == x as usize;
                            assert(tail0[j + 1] == x as usize);
                        }
                    }
                }
                let cq = count[q] - 1;
                count.set(q, cq);
                if cq == 0 {
                    let ghost nb = next@;
                    next.push(q);
                    proof {
                        let r_before = rank;
                        assert(!placed.contains(q as int));
                        lemma_dcount_zero(objs@, q as int, done, n as nat);
                        let pos_before = pos;
                        pos = pos.push(t as int);
                        let fi = fronts@[i as int]@;
                        assert(last_dominator_at(objs@, fi, q as int, t as int)) by {
                            assert forall|j: int| t < j < fi.len() implies !#[trigger] dom(objs@, fi[j] as int, q as int) by {
                                assert(rank[fi[j] as int] == i);
                                if s1.contains(fi[j]) {
                                    let j2 = choose|j2: int| 0 <= j2 < s1.len() && s1[j2] == fi[j];
                                    assert(fi[j2] == fi[j]);
                                }
                                assert(!done[fi[j] as int]);
                            }
                        }
                        assert forall|j: int|
                            0 <= j < next@.len() implies last_dominator_at(objs@, fi, #[trigger] next@[j] as int, pos[j]) by {
                            if j < nb.len() {
                                assert(next@[j] == nb[j]);
                                assert(pos[j] == pos_before[j]);
                            }
                        }
                        assert forall|a: int, b: int|
                            0 <= a < b < next@.len() implies #[trigger] pos[a] < #[trigger] pos[b] || (pos[a] == pos[b]
                                && next@[a] < next@[b]) by {
                            if b < nb.len() {
                                assert(next@[a] == nb[a] && next@[b] == nb[b]);
                                assert(pos[a] == pos_before[a] && pos[b] == pos_before[b]);
                            } else {
                                assert(next@[a] == nb[a]);
                                assert(pos[a] == pos_before[a]);
                            }
                        }
                        rank = rank.update(q as int, i + 1);
                        placed = placed.insert(q as int);
                        assert(next@.no_duplicates()) by {
                            assert(!nb.contains(q));
                        }
                        assert forall|x: int| 0 <= x < n && #[trigger] rank[x] == i + 1 implies next@.contains(x as usize) by {
                            if x != q {
                                let j = choose|j: int| 0 <= j < nb.len() && nb[j] == x as usize;
                                assert(next@[j] == nb[j]);
                            } else {
                                assert(next@[next@.len() - 1] == q);
                            }
                        }
                        assert forall|x: int, y: int|
                            0 <= x < n && 0 <= y < n && rank[y] >= 0 && #[trigger] dom(objs@, x, y) implies 0
                                <= #[trigger] rank[x] < rank[y] by {
                            if y == q {
                                assert(done[x]);
                            }
                        }
                        assert forall|y: int| 0 <= y < n && #[trigger] rank[y] > 0 implies exists|x: int|
                            0 <= x < n && #[trigger] rank[x] == rank[y] - 1 && dom(objs@, x, y) by {
                            if y == q {
                                assert(rank[p as int] == rank[y] - 1);
                                assert(dom(objs@, p as int, y));
                            } else {
                                let x = choose|x: int|
                                    0 <= x < n && #[trigger] r_before[x] == r_before[y] - 1 && dom(objs@, x, y);
                                assert(rank[x] == r_before[x]);
                            }
                        }
                    }
                }
                proof {
                    assert forall|j: int|
                        0 <= j < next@.len() && pos[j] == t && u + 1 < k implies #[trigger] next@[j] < row@[u + 1] by {
                        assert(row@[u as int] < row@[u + 1]);
                        if next@[j] != q {
                            assert(next@[j] < row@[u as int]);
                        }
                    }
                }
            }
            proof {
                assert forall|x: int| 0 <= x < n && #[trigger] rank[x] == i + 1 implies count@[x] == 0 by {
                    assert(!row@.subrange(k as int, k as int).contains(x as usize));
                }
                assert forall|x: int|
                    0 <= x < n && (#[trigger] rank[x] < 0 || rank[x] == i + 1) implies count@[x] == dcount(
                        objs@,
                        x,
                        done,
                        n as nat,
                    ) by {
                    assert(!row@.subrange(k as int, k as int).contains(x as usize));
                }
            }
        }
        proof {
            assert forall|x: int| 0 <= x < n implies (#[trigger] done[x] <==> 0 <= rank[x] < i + 1) by {
                assert(fronts@[i as int]@.subrange(0, m as int) =~= fronts@[i as int]@);
            }
        }
        proof {
            let fi = fronts@[i as int]@;
            assert forall|a: int, b: int, ta: int, tb: int|
                #![trigger last_dominator_at(objs@, fi, next@[a] as int, ta), last_dominator_at(objs@, fi, next@[b] as int, tb)]
                0 <= a < b < next@.len() && last_dominator_at(objs@, fi, next@[a] as int, ta) && last_dominator_at(
                    objs@,
                    fi,
                    next@[b] as int,
                    tb,
                ) implies ta < tb || (ta == tb && next@[a] < next@[b]) by {
                lemma_last_dominator_unique(objs@, fi, next@[a] as int, ta, pos[a]);
                lemma_last_dominator_unique(objs@, fi, next@[b] as int, tb, pos[b]);
            }
            assert(follows_order(objs@, fi, next@));
        }
        let ghost before_push = fronts@;
        fronts.push(next);
        proof {
            assert forall|r: int| 0 <= r < i + 1 implies follows_order(objs@, #[trigger] fronts@[r]@, fronts@[r + 1]@) by {
                assert(fronts@[r] == before_push[r]);
                if r < i {
                    assert(fronts@[r + 1] == before_push[r + 1]);
                }
            }
        }
        i = i + 1;
    }
    proof {
        assert forall|x: int| 0 <= x < n implies #[trigger] rank[x] >= 0 by {
            if rank[x] < 0 {
                let q = lemma_undominated_member(objs@, rank, x);
                lemma_dcount_zero(objs@, q, done, n as nat);
                let y = choose|y: int| 0 <= y < n && #[trigger] dom(objs@, y, q) && !done[y];
                if rank[y] == i {
                    assert(fronts@[i as int]@.contains(y as usize));
                }
            }
        }
    }
    let ghost full = fronts@;
    fronts.pop();
    proof {
        assert forall|x: int| 0 <= x < n implies 0 <= #[trigger] rank[x] < i by {
            if rank[x] == i {
                assert(full[i as int]@.contains(x as usize));
            }
        }
        assert forall|r: int| 0 <= r < fronts@.len() implies (#[trigger] fronts@[r])@.len() > 0 by {
            assert(fronts@[r] == full[r]);
        }
        assert forall|r: int| 0 <= r < fronts@.len() implies (#[trigger] fronts@[r])@.no_duplicates() by {
            assert(fronts@[r] == full[r]);
        }
        assert forall|r: int, j: int|
            0 <= r < fronts@.len() && 0 <= j < fronts@[r]@.len() implies (#[trigger] fronts@[r]@[j]) < n by {
            assert(fronts@[r] == full[r]);
        }
        assert forall|q: int| 0 <= q < n implies #[trigger] in_some_front(fronts@, q) by {
            assert(fronts@[rank[q]] == full[rank[q]]);
            assert(fronts@[rank[q]]@.contains(q as usize));
        }
        assert forall|r1: int, r2: int, q: usize|
            0 <= r1 < fronts@.len() && 0 <= r2 < fronts@.len() && #[trigger] fronts@[r1]@.contains(q)
                && #[trigger] fronts@[r2]@.contains(q) implies r1 == r2 by {
            assert(fronts@[r1] == full[r1]);
            assert(fronts@[r2] == full[r2]);
            let j1 = choose|j: int| 0 <= j < fronts@[r1]@.len() && fronts@[r1]@[j] == q;
            let j2 = choose|j: int| 0 <= j < fronts@[r2]@.len() && fronts@[r2]@[j] == q;
            assert(full[r1]@[j1] == q);
            assert(full[r2]@[j2] == q);
        }
        assert forall|r: int, q: usize, p: int|
            0 <= r < fronts@.len() && #[trigger] fronts@[r]@.contains(q) && 0 <= p < n && #[trigger] dom(
                objs@,
                p,
                q as int,
            ) implies exists|r2: int| 0 <= r2 < r && #[trigger] fronts@[r2]@.contains(p as usize) by {
            assert(fronts@[r] == full[r]);
            let j = choose|j: int| 0 <= j < fronts@[r]@.len() && fronts@[r]@[j] == q;
            assert(full[r]@[j] == q);
            assert(rank[q as int] == r);
            assert(fronts@[rank[p]] == full[rank[p]]);
            assert(fronts@[rank[p]]@.contains(p as usize));
        }
        assert forall|r: int, q: usize| 0 < r < fronts@.len() && #[trigger] fronts@[r]@.contains(q) implies exists|p: int|
            0 <= p < n && #[trigger] fronts@[r - 1]@.contains(p as usize) && dom(objs@, p, q as int) by {
            assert(fronts@[r] == full[r]);
            let j = choose|j: int| 0 <= j < fronts@[r]@.len() && fronts@[r]@[j] == q;
            assert(full[r]@[j] == q);
            assert(rank[q as int] == r);
            let p = choose|p: int| 0 <= p < n && #[trigger] rank[p] == rank[q as int] - 1 && dom(objs@, p, q as int);
            assert(fronts@[r - 1] == full[r - 1]);
            assert(fronts@[r - 1]@.contains(p as usize));
        }
        if n == 0 {
            assert(fronts@.len() == 0);
        } else {
            assert(rank[0] < i);
        }
        if fronts@.len() > 0 {
            assert(fronts@[0] == full[0]);
        }
        assert forall|r: int| 0 <= r < fronts@.len() - 1 implies follows_order(objs@, #[trigger] fronts@[r]@, fronts@[r + 1]@) by {
            assert(fronts@[r] == full[r]);
            assert(fronts@[r + 1] == full[r + 1]);
        }
    }
    fronts
}

/// Law: the first front holds exactly the indices that no vector dominates.
pub proof fn lemma_first_front(objs: Seq<Vec<u64>>, fronts: Seq<Vec<usize>>, q: usize)
    requires
        is_nd_sort(objs, fronts),
        fronts.len() > 0,
        q < objs.len(),
    ensures
        fronts[0]@.contains(q) <==> forall|p: int| 0 <= p < objs.len() ==> !#[trigger] dom(objs, p, q as int),
{
    if fronts[0]@.contains(q) {
        assert forall|p: int| 0 <= p < objs.len() implies !#[trigger] dom(objs, p, q as int) by {
            if dom(objs, p, q as int) {
                let r2 = choose|r2: int| 0 <= r2 < 0 && #[trigger] fronts[r2]@.contains(p as usize);
            }
        }
    } else {
        assert(in_some_front(fronts, q as int));
        let r = choose|r: int| 0 <= r < fronts.len() && #[trigger] fronts[r]@.contains(q);
        assert(r > 0);
        let p = choose|p: int| 0 <= p < objs.len() && #[trigger] fronts[r - 1]@.contains(p as usize) && dom(objs, p, q as int);
        assert(dom(objs, p, q as int));
    }
}

/// Law: no member of a front dominates another member of the same front.
pub proof fn lemma_front_nondominated(objs: Seq<Vec<u64>>, fronts: Seq<Vec<usize>>, r: int, p: usize, q: usize)
    requires
        is_nd_sort(objs, fronts),
        0 <= r < fronts.len(),
        fronts[r]@.contains(p),
        fronts[r]@.contains(q),
    ensures
        !dom(objs, p as int, q as int),
{
    let j = choose|j: int| 0 <= j < fronts[r]@.len() && fronts[r]@[j] == p;
    assert(fronts[r]@[j] < objs.len());
    if dom(objs, p as int, q as int) {
        let r2 = choose|r2: int| 0 <= r2 < r && #[trigger] fronts[r2]@.contains(p as usize);
        assert(fronts[r2]@.contains(p));
    }
}

/// Crowding distance of a front member. A finite distance `Finite(t0, t1)`
/// stands for `(t0 + t1) / (R0 * R1)`, where `R0`, `R1` are the ranges of the
/// two objectives over the front (1 where a range is 0): the common
/// denominator of the front's distances, so comparing `t0 + t1` compares
/// distances exactly.
#[derive(Clone, Copy, Debug, PartialEq, Eq, Structural)]
pub enum Crowding {
    /// A boundary member of some objective's order.
    Infinite,
    Finite(u128, u128),
}

/// The numerator of a crowding distance; infinity lies above every finite
/// numerator (each term is below `2^128`).
pub open spec fn crowd_value(c: Crowding) -> int {
    match c {
        Crowding::Infinite => 0x4_0000_0000_0000_0000_0000_0000_0000_0000int,
        Crowding::Finite(t0, t1) => t0 + t1,
    }
}

/// Whether crowding distance `a` exceeds `b` (within one front).
pub fn crowding_greater(a: Crowding, b: Crowding) -> (r: bool)
    ensures
        r == (crowd_value(a) > crowd_value(b)),
{
    match (a, b) {
        (Crowding::Infinite, Crowding::Infinite) => false,
        (Crowding::Infinite, Crowding::Finite(_, _)) => true,
        (Crowding::Finite(_, _), Crowding::Infinite) => false,
        (Crowding::Finite(a0, a1), Crowding::Finite(b0, b1)) => {
            if a0 >= b0 {
                let d = a0 - b0;
                if a1 >= b1 {
                    d > 0 || a1 > b1
                } else {
                    d > b1 - a1
                }
            } else {
                let d = b0 - a0;
                a1 > b1 && a1 - b1 > d
            }
        },
    }
}

/// The keys of a front under objective `k`.
pub open spec fn front_keys(front: Seq<usize>, objs: Seq<Vec<u64>>, k: int) -> Seq<u64> {
    Seq::new(front.len(), |a: int| objs[front[a] as int]@[k])
}

/// The range of a sorted key sequence (its last minus its first key), or 1
/// where that is 0.
pub open spec fn key_range(keys: Seq<u64>, o: Seq<usize>) -> nat {
    let d = keys[o[o.len() - 1] as int] - keys[o[0] as int];
    if d <= 0 {
        1
    } else {
        d as nat
    }
}

/// The gap between the neighbours of position `pos` in order `o`.
pub open spec fn key_gap(keys: Seq<u64>, o: Seq<usize>, pos: int) -> nat {
    (keys[o[pos + 1] as int] - keys[o[pos - 1] as int]) as nat
}

/// The crowding distance of the member at position `pos0` of the order by
/// the first objective and `pos1` of the order by the second: infinite at a
/// boundary of either order, else the neighbour gaps over the ranges.
pub open spec fn crowd_at(
    keys0: Seq<u64>,
    keys1: Seq<u64>,
    o0: Seq<usize>,
    o1: Seq<usize>,
    pos0: int,
    pos1: int,
) -> Crowding {
    let m = o0.len() as int;
    if pos0 == 0 || pos0 == m - 1 || pos1 == 0 || pos1 == m - 1 {
        Crowding::Infinite
    } else {
        Crowding::Finite(
            (key_gap(keys0, o0, pos0) * key_range(keys1, o1)) as u128,
            (key_gap(keys1, o1, pos1) * key_range(keys0, o0)) as u128,
        )
    }
}

/// An order by key has distinct entries and non-decreasing keys.
proof fn lemma_order_facts(keys: Seq<u64>, o: Seq<usize>)
    requires
        is_fitness_order(keys, o),
    ensures
        forall|i: int, j: int| 0 <= i < j < o.len() ==> #[trigger] o[i] != #[trigger] o[j],
        forall|i: int, j: int| 0 <= i <= j < o.len() ==> keys[#[trigger] o[i] as int] <= keys[#[trigger] o[j] as int],
{
    assert forall|i: int, j: int| 0 <= i <= j < o.len() implies keys[#[trigger] o[i] as int] <= keys[#[trigger] o[j] as int] by {
        if i < j {
            assert(keys[o[i] as int] < keys[o[j] as int] || keys[o[i] as int] == keys[o[j] as int]);
        }
    }
}

/// Position of each entry of `o` (entries below `m`): `inv[o[pos]] == pos`.
fn inverse_positions(o: &Vec<usize>, m: usize) -> (inv: Vec<usize>)
    requires
        o@.len() == m,
        forall|i: int| 0 <= i < m ==> (#[trigger] o@[i]) < m,
        forall|i: int, j: int| 0 <= i < j < m ==> #[trigger] o@[i] != #[trigger] o@[j],
    ensures
        inv@.len() == m,
        forall|a: int| 0 <= a < m ==> (#[trigger] inv@[a]) < m,
        forall|pos: int| 0 <= pos < m ==> inv@[#[trigger] o@[pos] as int] == pos,
{
    let mut inv: Vec<usize> = Vec::new();
    for a in 0..m
        invariant
            inv@.len() == a,
            forall|b: int| 0 <= b < a ==> (#[trigger] inv@[b]) < m,
    {
        inv.push(0);
    }
    for pos in 0..m
        invariant
            m == o@.len(),
            inv@.len() == m,
            forall|i: int| 0 <= i < m ==> (#[trigger] o@[i]) < m,
            forall|i: int, j: int| 0 <= i < j < m ==> #[trigger] o@[i] != #[trigger] o@[j],
            forall|b: int| 0 <= b < m ==> (#[trigger] inv@[b]) < m,
            forall|p: int| 0 <= p < pos ==> inv@[#[trigger] o@[p] as int] == p,
    {
        inv.set(o[pos], pos);
        proof {
            assert forall|p: int| 0 <= p < pos + 1 implies inv@[#[trigger] o@[p] as int] == p by {
                if p < pos {
                    assert(o@[p] != o@[pos as int]);
                }
            }
        }
    }
    inv
}

/// `d` is the crowding distance of the members of `front`: for each member,
/// infinite at a boundary of the stable order by either objective, else the
/// neighbour gaps over the ranges ([`crowd_at`]).
pub open spec fn front_crowding(front: Seq<usize>, objs: Seq<Vec<u64>>, d: Seq<Crowding>) -> bool {
    &&& d.len() == front.len()
    &&& front.len() > 0 ==> exists|o0: Seq<usize>, o1: Seq<usize>|
        {
            &&& is_fitness_order(front_keys(front, objs, 0), o0)
            &&& is_fitness_order(front_keys(front, objs, 1), o1)
            &&& forall|pos0: int, pos1: int|
                0 <= pos0 < front.len() && 0 <= pos1 < front.len() && #[trigger] o0[pos0] == #[trigger] o1[pos1]
                    ==> d[o0[pos0] as int] == crowd_at(
                    front_keys(front, objs, 0),
                    front_keys(front, objs, 1),
                    o0,
                    o1,
                    pos0,
                    pos1,
                )
        }
}

/// A sequence of `m` distinct indices below `m` lists every index below `m`.
proof fn lemma_perm_covers(o: Seq<usize>, a: int)
    requires
        forall|i: int| 0 <= i < o.len() ==> (#[trigger] o[i]) < o.len(),
        forall|i: int, j: int| 0 <= i < j < o.len() ==> #[trigger] o[i] != #[trigger] o[j],
        0 <= a < o.len(),
    ensures
        exists|t: int| 0 <= t < o.len() && #[trigger] o[t] == a,
{
    let m = o.len() as int;
    let s = o.map_values(|x: usize| x as int);
    assert(s.no_duplicates()) by {
        assert forall|i: int, j: int| 0 <= i < s.len() && 0 <= j < s.len() && i != j implies s[i] != s[j] by {
            if i < j {
                assert(o[i] != o[j]);
            } else {
                assert(o[j] != o[i]);
            }
        }
    }
    s.unique_seq_to_set();
    lemma_int_range(0, m);
    assert(s.to_set().subset_of(set_int_range(0, m))) by {
        assert forall|x: int| s.to_set().contains(x) implies set_int_range(0, m).contains(x) by {
            let i = choose|i: int| 0 <= i < s.len() && s[i] == x;
            assert(o[i] < m);
        }
    }
    vstd::set_lib::lemma_subset_equality(s.to_set(), set_int_range(0, m));
    assert(set_int_range(0, m).contains(a));
    assert(s.to_set().contains(a));
    let t = choose|t: int| 0 <= t < s.len() && s[t] == a;
    assert(o[t] == a);
}

/// Crowding distance for the members of one front (of two-objective
/// vectors): infinite for the first and last member of the order by either
/// objective, else the sum over objectives of the gap between the member's
/// neighbours divided by that objective's range over the front. The orders
/// are stable (ties by position in the front).
#[verifier::spinoff_prover]
pub fn crowding_distance(front: &Vec<usize>, objs: &Vec<Vec<u64>>) -> (d: Vec<Crowding>)
    requires
        forall|a: int|
            0 <= a < front@.len() ==> (#[trigger] front@[a]) < objs@.len() && objs@[front@[a] as int]@.len() == 2,
    ensures
        front_crowding(front@, objs@, d@),
{
    let m = front.len();
    let mut d: Vec<Crowding> = Vec::new();
    if m == 0 {
        return d;
    }
    let mut keys0: Vec<u64> = Vec::new();
    let mut keys1: Vec<u64> = Vec::new();
    for a in 0..m
        invariant
            m == front@.len(),
            forall|b: int|
                0 <= b < front@.len() ==> (#[trigger] front@[b]) < objs@.len() && objs@[front@[b] as int]@.len() == 2,
            keys0@ == front_keys(front@, objs@, 0).take(a as int),
            keys1@ == front_keys(front@, objs@, 1).take(a as int),
    {
        keys0.push(objs[front[a]][0]);
        keys1.push(objs[front[a]][1]);
        proof {
            assert(keys0@ =~= front_keys(front@, objs@, 0).take(a + 1));
            assert(keys1@ =~= front_keys(front@, objs@, 1).take(a + 1));
        }
    }
    proof {
        assert(keys0@ =~= front_keys(front@, objs@, 0));
        assert(keys1@ =~= front_keys(front@, objs@, 1));
    }
    let o0 = fitness_order(&keys0);
    let o1 = fitness_order(&keys1);
    proof {
        lemma_order_facts(keys0@, o0@);
        lemma_order_facts(keys1@, o1@);
    }
    let inv0 = inverse_positions(&o0, m);
    let inv1 = inverse_positions(&o1, m);
    let w0: u64 = keys0[o0[m - 1]] - keys0[o0[0]];
    let w1: u64 = keys1[o1[m - 1]] - keys1[o1[0]];
    let r0: u128 = if w0 == 0 {
        1
    } else {
        w0 as u128
    };
    let r1: u128 = if w1 == 0 {
        1
    } else {
        w1 as u128
    };
    proof {
        assert(r0 == key_range(keys0@, o0@));
        assert(r1 == key_range(keys1@, o1@));
    }
    for a in 0..m
        invariant
            m == front@.len(),
            m > 0,
            keys0@ == front_keys(front@, objs@, 0),
            keys1@ == front_keys(front@, objs@, 1),
            is_fitness_order(keys0@, o0@),
            is_fitness_order(keys1@, o1@),
            forall|i: int, j: int| 0 <= i <= j < m ==> keys0@[#[trigger] o0@[i] as int] <= keys0@[#[trigger] o0@[j] as int],
            forall|i: int, j: int| 0 <= i <= j < m ==> keys1@[#[trigger] o1@[i] as int] <= keys1@[#[trigger] o1@[j] as int],
            inv0@.len() == m,
            inv1@.len() == m,
            forall|b: int| 0 <= b < m ==> (#[trigger] inv0@[b]) < m,
            forall|b: int| 0 <= b < m ==> (#[trigger] inv1@[b]) < m,
            r0 == key_range(keys0@, o0@),
            r1 == key_range(keys1@, o1@),
            r0 <= 0xFFFF_FFFF_FFFF_FFFFu128,
            r1 <= 0xFFFF_FFFF_FFFF_FFFFu128,
            d@.len() == a,
            forall|b: int| 0 <= b < a ==> #[trigger] d@[b] == crowd_at(keys0@, keys1@, o0@, o1@, inv0@[b] as int, inv1@[b] as int),
    {
        let p0 = inv0[a];
        let p1 = inv1[a];
        if p0 == 0 || p0 == m - 1 || p1 == 0 || p1 == m - 1 {
            d.push(Crowding::Infinite);
        } else {
            let g0: u64 = keys0[o0[p0 + 1]] - keys0[o0[p0 - 1]];
            let g1: u64 = keys1[o1[p1 + 1]] - keys1[o1[p1 - 1]];
            proof {
                assert(g0 * r1 <= 0xFFFF_FFFF_FFFF_FFFFu128 * 0xFFFF_FFFF_FFFF_FFFFu128) by (nonlinear_arith)
                    requires g0 <= 0xFFFF_FFFF_FFFF_FFFFu64, r1 <= 0xFFFF_FFFF_FFFF_FFFFu128;
                assert(g1 * r0 <= 0xFFFF_FFFF_FFFF_FFFFu128 * 0xFFFF_FFFF_FFFF_FFFFu128) by (nonlinear_arith)
                    requires g1 <= 0xFFFF_FFFF_FFFF_FFFFu64, r0 <= 0xFFFF_FFFF_FFFF_FFFFu128;
            }
            d.push(Crowding::Finite(g0 as u128 * r1, g1 as u128 * r0));
        }
    }
    proof {
        assert forall|pos0: int, pos1: int|
            0 <= pos0 < m && 0 <= pos1 < m && #[trigger] o0@[pos0] == #[trigger] o1@[pos1] implies d@[o0@[pos0] as int]
                == crowd_at(keys0@, keys1@, o0@, o1@, pos0, pos1) by {
            let a = o0@[pos0] as int;
            assert(inv0@[a] == pos0);
            assert(inv1@[o1@[pos1] as int] == pos1);
        }
    }
    d
}

/// `order` lists `0..n` by crowding distance, largest first, ties by index
/// (the order a stable sort by descending distance gives).
pub open spec fn is_crowding_order(cd: Seq<Crowding>, order: Seq<usize>) -> bool {
    &&& order.len() == cd.len()
    &&& forall|i: int| 0 <= i < order.len() ==> (#[trigger] order[i]) < cd.len()
    &&& forall|i: int, j: int|
        0 <= i < j < order.len() ==> (crowd_value(cd[#[trigger] order[i] as int]) > crowd_value(
            cd[#[trigger] order[j] as int],
        ) || (crowd_value(cd[order[i] as int]) == crowd_value(cd[order[j] as int]) && order[i] < order[j]))
}

/// Indices of `cd` by descending crowding distance, ties by index
/// (insertion sort).
fn crowding_order(cd: &Vec<Crowding>) -> (order: Vec<usize>)
    ensures
        is_crowding_order(cd@, order@),
{
    let mut order: Vec<usize> = Vec::new();
    let n = cd.len();
    for k in 0..n
        invariant
            n == cd@.len(),
            order@.len() == k,
            forall|i: int| 0 <= i < order@.len() ==> (#[trigger] order@[i]) < k,
            forall|i: int, j: int|
                0 <= i < j < order@.len() ==> (crowd_value(cd@[#[trigger] order@[i] as int]) > crowd_value(
                    cd@[#[trigger] order@[j] as int],
                ) || (crowd_value(cd@[order@[i] as int]) == crowd_value(cd@[order@[j] as int]) && order@[i]
                    < order@[j])),
    {
        let mut p: usize = 0;
        while p < order.len() && !crowding_greater(cd[k], cd[order[p]])
            invariant
                n == cd@.len(),
                k < n,
                order@.len() == k,
                p <= order@.len(),
                forall|i: int| 0 <= i < order@.len() ==> (#[trigger] order@[i]) < k,
                forall|i: int, j: int|
                    0 <= i < j < order@.len() ==> (crowd_value(cd@[#[trigger] order@[i] as int]) > crowd_value(
                        cd@[#[trigger] order@[j] as int],
                    ) || (crowd_value(cd@[order@[i] as int]) == crowd_value(cd@[order@[j] as int])
                        && order@[i] < order@[j])),
                forall|i: int| 0 <= i < p ==> crowd_value(cd@[#[trigger] order@[i] as int]) >= crowd_value(cd@[k as int]),
            decreases order@.len() - p,
        {
            p = p + 1;
        }
        let ghost before = order@;
        proof {
            assert forall|i: int| p <= i < before.len() implies crowd_value(cd@[k as int]) > crowd_value(
                cd@[#[trigger] before[i] as int],
            ) by {
                if i > p {
                    assert(crowd_value(cd@[before[p as int] as int]) >= crowd_value(cd@[before[i] as int]));
                }
            }
        }
        order.insert(p, k);
        proof {
            assert(order@ == before.insert(p as int, k));
            assert forall|i: int, j: int| 0 <= i < j < order@.len() implies (crowd_value(
                cd@[#[trigger] order@[i] as int],
            ) > crowd_value(cd@[#[trigger] order@[j] as int]) || (crowd_value(cd@[order@[i] as int])
                == crowd_value(cd@[order@[j] as int]) && order@[i] < order@[j])) by {
                if i < p && j < p {
                    assert(order@[i] == before[i] && order@[j] == before[j]);
                } else if i < p && j == p {
                    assert(order@[i] == before[i]);
                } else if i < p && j > p {
                    assert(order@[i] == before[i] && order@[j] == before[j - 1]);
                } else if i == p {
                    assert(order@[j] == before[j - 1]);
                } else {
                    assert(order@[i] == before[i - 1] && order@[j] == before[j - 1]);
                }
            }
        }
    }
    order
}

/// The winner of a crowded comparison between `a` and `b`: the lower rank,
/// then the larger crowding distance; `b` on a tie.
pub open spec fn crowded_winner(rank: Seq<usize>, crowd: Seq<Crowding>, a: int, b: int) -> int {
    if rank[a] < rank[b] || (rank[a] == rank[b] && crowd_value(crowd[a]) > crowd_value(crowd[b])) {
        a
    } else {
        b
    }
}

/// `r` won a crowded-comparison tournament of the two index draws recorded
/// from `d0` to `d1`: it is one of them, the other has no lower rank, on
/// equal ranks no greater crowding, and `r` is the first only if it is
/// strictly better.
pub open spec fn crowded_won(rank: Seq<usize>, crowd: Seq<Crowding>, d0: Draws, d1: Draws, r: usize) -> bool {
    let m = d0.indices().len();
    let a = d1.indices()[m as int] as int;
    let b = d1.indices()[m + 1int] as int;
    &&& d1.coins() == d0.coins() && d1.values() == d0.values() && d1.words() == d0.words()
    &&& d1.indices().len() == m + 2
    &&& d1.indices().take(m as int) == d0.indices()
    &&& 0 <= a < rank.len() && 0 <= b < rank.len()
    &&& r == a || r == b
    &&& rank[r as int] <= rank[a] && rank[r as int] <= rank[b]
    &&& rank[a] == rank[b] ==> crowd_value(crowd[r as int]) >= crowd_value(crowd[a]) && crowd_value(crowd[r as int])
        >= crowd_value(crowd[b])
    &&& (r == a && a != b) ==> (rank[a] < rank[b] || crowd_value(crowd[a]) > crowd_value(crowd[b]))
}

/// Crowded-comparison tournament: draw two individuals, prefer lower rank,
/// then higher crowding (the second drawn on a full tie). The two draws are
/// the last two recorded in `d`; neither has a lower rank than the result,
/// and one of equal rank has no greater crowding.
fn crowded_tournament(rank: &Vec<usize>, crowd: &Vec<Crowding>, d: &mut Draws) -> (r: usize)
    requires
        rank@.len() > 0,
        crowd@.len() == rank@.len(),
    ensures
        r < rank@.len(),
        crowded_won(rank@, crowd@, *old(d), *final(d), r),
        final(d).coins() == old(d).coins(),
        final(d).indices().len() == old(d).indices().len() + 2,
        final(d).indices().take(old(d).indices().len() as int) == old(d).indices(),
        ({
            let a = final(d).indices()[old(d).indices().len() as int] as int;
            let b = final(d).indices()[old(d).indices().len() + 1int] as int;
            &&& 0 <= a < rank@.len() && 0 <= b < rank@.len()
            &&& r == a || r == b
            &&& rank@[r as int] <= rank@[a] && rank@[r as int] <= rank@[b]
            &&& rank@[a] == rank@[b] ==> crowd_value(crowd@[r as int]) >= crowd_value(crowd@[a])
                && crowd_value(crowd@[r as int]) >= crowd_value(crowd@[b])
            &&& (r == a && a != b) ==> (rank@[a] < rank@[b] || crowd_value(crowd@[a]) > crowd_value(crowd@[b]))
        }),
        exists|a: int, b: int|
            0 <= a < rank@.len() && 0 <= b < rank@.len() && r == crowded_winner(rank@, crowd@, a, b),
{
    let ghost base = d.indices();
    let n = rank.len();
    let a = d.index(n);
    let b = d.index(n);
    let r = if rank[a] < rank[b] || (rank[a] == rank[b] && crowding_greater(crowd[a], crowd[b])) {
        a
    } else {
        b
    };
    assert(r == crowded_winner(rank@, crowd@, a as int, b as int));
    proof {
        assert(d.indices() == base.push(a).push(b));
        assert(d.indices().take(base.len() as int) =~= base);
        assert(d.indices()[base.len() as int] == a && d.indices()[base.len() + 1int] == b);
    }
    r
}

/// An order by key lists every index below its length.
pub proof fn lemma_order_covers(keys: Seq<u64>, o: Seq<usize>, a: int)
    requires
        is_fitness_order(keys, o),
        0 <= a < o.len(),
    ensures
        exists|t: int| 0 <= t < o.len() && #[trigger] o[t] == a,
{
    lemma_order_facts(keys, o);
    let m = o.len() as int;
    let s = o.map_values(|x: usize| x as int);
    assert(s.no_duplicates()) by {
        assert forall|i: int, j: int| 0 <= i < s.len() && 0 <= j < s.len() && i != j implies s[i] != s[j] by {
            if i < j {
                assert(o[i] != o[j]);
            } else {
                assert(o[j] != o[i]);
            }
        }
    }
    s.unique_seq_to_set();
    lemma_int_range(0, m);
    assert(s.to_set().subset_of(set_int_range(0, m))) by {
        assert forall|x: int| s.to_set().contains(x) implies set_int_range(0, m).contains(x) by {
            let i = choose|i: int| 0 <= i < s.len() && s[i] == x;
            assert(o[i] < m);
        }
    }
    vstd::set_lib::lemma_subset_equality(s.to_set(), set_int_range(0, m));
    assert(set_int_range(0, m).contains(a));
    assert(s.to_set().contains(a));
    let t = choose|t: int| 0 <= t < s.len() && s[t] == a;
    assert(o[t] == a);
}

/// Two stable orders by the same keys agree on their first `i` positions.
proof fn lemma_orders_agree_upto(keys: Seq<u64>, o: Seq<usize>, p: Seq<usize>, i: int)
    requires
        is_fitness_order(keys, o),
        is_fitness_order(keys, p),
        0 <= i <= o.len(),
    ensures
        forall|j: int| 0 <= j < i ==> #[trigger] o[j] == p[j],
    decreases i,
{
    if i > 0 {
        lemma_orders_agree_upto(keys, o, p, i - 1);
        let k = i - 1;
        let a = o[k];
        let b = p[k];
        if a != b {
            lemma_order_facts(keys, o);
            lemma_order_facts(keys, p);
            if keys[a as int] < keys[b as int] || (keys[a as int] == keys[b as int] && a < b) {
                // `a` stands in `p` after position `k`, ahead of `b`: impossible.
                lemma_order_covers(keys, p, a as int);
                let t = choose|t: int| 0 <= t < p.len() && #[trigger] p[t] == a;
                if t < k {
                    assert(o[t] == p[t]);
                } else {
                    assert(t != k);
                    assert(keys[p[k] as int] < keys[p[t] as int] || (keys[p[k] as int] == keys[p[t] as int] && p[k] < p[t]));
                }
            } else {
                lemma_order_covers(keys, o, b as int);
                let t = choose|t: int| 0 <= t < o.len() && #[trigger] o[t] == b;
                if t < k {
                    assert(o[t] == p[t]);
                } else {
                    assert(t != k);
                    assert(keys[o[k] as int] < keys[o[t] as int] || (keys[o[k] as int] == keys[o[t] as int] && o[k] < o[t]));
                }
            }
        }
    }
}

/// There is one stable order by given keys: two orders that both list the
/// indices sorted by key, ties by index, are equal. So the orders that
/// [`crowding_distance`] speaks of are determined by the front.
pub proof fn lemma_fitness_order_unique(keys: Seq<u64>, o: Seq<usize>, p: Seq<usize>)
    requires
        is_fitness_order(keys, o),
        is_fitness_order(keys, p),
    ensures
        o == p,
{
    lemma_orders_agree_upto(keys, o, p, o.len() as int);
    assert(o =~= p);
}

/// The views of a sequence of vectors.
pub open spec fn vec_views(s: Seq<Vec<u64>>) -> Seq<Seq<u64>> {
    Seq::new(s.len(), |i: int| s[i]@)
}

/// The lowest height, in tenths, that a point among the first `k` of `pts`
/// with first coordinate at most `x` (in tenths) reaches below `r1`; `r1`
/// if there is none.
pub open spec fn low(pts: Seq<Seq<u64>>, x: int, r1: int, k: nat) -> int
    decreases k,
{
    if k == 0 {
        r1
    } else {
        let l = low(pts, x, r1, (k - 1) as nat);
        let p = pts[k - 1];
        if 10 * p[0] <= x && 10 * p[1] < l {
            10 * p[1]
        } else {
            l
        }
    }
}

/// The dominated area of the columns `0 .. xs` of the grid of side `1/10`:
/// column `x` is dominated from the lowest point at or left of it up to
/// `r1`.
pub open spec fn col_sum(pts: Seq<Seq<u64>>, r1: int, xs: nat) -> int
    decreases xs,
{
    if xs == 0 {
        0
    } else {
        col_sum(pts, r1, (xs - 1) as nat) + (r1 - low(pts, xs - 1, r1, pts.len()))
    }
}

/// The 2-D hypervolume, in hundredths: the area of the part of the box
/// `[0, r0/10) × [0, r1/10)` that the points of `pts` (taken by their first
/// two coordinates) weakly dominate, counted in cells of side `1/10`.
pub open spec fn hypervolume_spec(pts: Seq<Seq<u64>>, r0: int, r1: int) -> int {
    col_sum(pts, r1, r0 as nat)
}

/// `low` is the least of `r1` and the heights of the points at or left of
/// `x`.
proof fn lemma_low_eq(pts: Seq<Seq<u64>>, x: int, r1: int, k: nat, v: int)
    requires
        k <= pts.len(),
        v <= r1,
        forall|i: int| 0 <= i < k && 10 * pts[i][0] <= x ==> v <= 10 * (#[trigger] pts[i])[1],
        v == r1 || exists|i: int| 0 <= i < k && 10 * pts[i][0] <= x && v == 10 * (#[trigger] pts[i])[1],
    ensures
        low(pts, x, r1, k) == v,
    decreases k,
{
    if k > 0 {
        let p = pts[k - 1];
        if v == r1 || exists|i: int| 0 <= i < k - 1 && 10 * pts[i][0] <= x && v == 10 * (#[trigger] pts[i])[1] {
            lemma_low_eq(pts, x, r1, (k - 1) as nat, v);
        } else {
            // Only the last point reaches `v`; the others stay at or above it.
            lemma_low_ge(pts, x, r1, (k - 1) as nat, v);
        }
    }
}

/// A lower bound of `r1` and of every point's height bounds `low`.
proof fn lemma_low_ge(pts: Seq<Seq<u64>>, x: int, r1: int, k: nat, v: int)
    requires
        k <= pts.len(),
        v <= r1,
        forall|i: int| 0 <= i < k && 10 * pts[i][0] <= x ==> v <= 10 * (#[trigger] pts[i])[1],
    ensures
        v <= low(pts, x, r1, k),
    decreases k,
{
    if k > 0 {
        lemma_low_ge(pts, x, r1, (k - 1) as nat, v);
    }
}

/// Columns `a .. b` of equal height `h` add `(b - a) * h`.
proof fn lemma_col_sum_flat(pts: Seq<Seq<u64>>, r1: int, a: nat, b: nat, h: int)
    requires
        a <= b,
        forall|x: int| a <= x < b ==> r1 - #[trigger] low(pts, x, r1, pts.len()) == h,
    ensures
        col_sum(pts, r1, b) == col_sum(pts, r1, a) + (b - a) * h,
    decreases b - a,
{
    if b > a {
        lemma_col_sum_flat(pts, r1, a, (b - 1) as nat, h);
        assert(r1 - low(pts, b - 1, r1, pts.len()) == h);
        assert(col_sum(pts, r1, b) == col_sum(pts, r1, (b - 1) as nat) + (r1 - low(pts, b - 1, r1, pts.len())));
        assert((b - a) * h == (b - 1 - a) * h + h) by (nonlinear_arith);
    } else {
        assert((b - a) * h == 0) by (nonlinear_arith)
            requires b == a;
    }
}

/// `a * b`, or `u128::MAX` where that does not fit.
fn mul_saturating(a: u128, b: u128) -> (r: u128)
    ensures
        r == if a * b > u128::MAX { u128::MAX as int } else { a * b },
{
    if a != 0 && b > u128::MAX / a {
        assert(a * b > u128::MAX) by (nonlinear_arith)
            requires a > 0, b > u128::MAX / a;
        u128::MAX
    } else {
        assert(a * b <= u128::MAX) by (nonlinear_arith)
            requires a == 0 || b <= u128::MAX / a;
        a * b
    }
}

/// The point `pts[a]` lies in the reference box (coordinates in tenths).
pub open spec fn in_box(pts: Seq<Seq<u64>>, a: int, r0: int, r1: int) -> bool {
    10 * pts[a][0] <= r0 && 10 * pts[a][1] <= r1
}

/// 2-D hypervolume, in hundredths, dominated by a minimisation front
/// relative to the reference point `(r0, r1)` given in tenths (a point worse
/// than every solution). Larger is better; a value beyond `u128` saturates.
#[verifier::spinoff_prover]
pub fn hypervolume_2d(front: &Vec<Vec<u64>>, r0: u128, r1: u128) -> (hv: u128)
    requires
        forall|a: int| 0 <= a < front@.len() ==> (#[trigger] front@[a])@.len() >= 2,
    ensures
        hv == if hypervolume_spec(vec_views(front@), r0 as int, r1 as int) > u128::MAX {
            u128::MAX as int
        } else {
            hypervolume_spec(vec_views(front@), r0 as int, r1 as int)
        },
{
    let m = front.len();
    let mut keys: Vec<u64> = Vec::new();
    for a in 0..m
        invariant
            m == front@.len(),
            forall|b: int| 0 <= b < front@.len() ==> (#[trigger] front@[b])@.len() >= 2,
            keys@.len() == a,
            forall|b: int| 0 <= b < a ==> #[trigger] keys@[b] == front@[b]@[0],
    {
        keys.push(front[a][0]);
    }
    let o = fitness_order(&keys);
    proof {
        lemma_order_facts(keys@, o@);
    }
    let ghost pts = vec_views(front@);
    let ghost mut acc_exact: int = 0;
    let ghost mut e: int = 0;
    let ghost mut e_pos: int = 0;
    let mut acc: u128 = 0;
    let mut cur_x: u128 = 0;
    let mut cur_h: u128 = 0;
    let mut has_best = false;
    let mut best: u64 = 0;
    proof {
        assert forall|x: int|
            0 <= x < r0 && (0 < m ==> x < 10 * keys@[o@[0] as int]) implies r1 - #[trigger] low(
                pts,
                x,
                r1 as int,
                m as nat,
            ) == 0 by {
            assert forall|i: int| 0 <= i < m && 10 * pts[i][0] <= x implies r1 <= 10 * (#[trigger] pts[i])[1] by {
                lemma_order_covers(keys@, o@, i);
                let t = choose|t: int| 0 <= t < o@.len() && #[trigger] o@[t] == i;
                assert(keys@[o@[0] as int] <= keys@[o@[t] as int]);
            }
            lemma_low_eq(pts, x, r1 as int, m as nat, r1 as int);
        }
    }
    for j in 0..m
        invariant
            m == front@.len(),
            pts == vec_views(front@),
            forall|b: int| 0 <= b < m ==> (#[trigger] front@[b])@.len() >= 2,
            keys@.len() == m,
            forall|b: int| 0 <= b < m ==> #[trigger] keys@[b] == front@[b]@[0],
            is_fitness_order(keys@, o@),
            forall|i: int, k: int| 0 <= i <= k < m ==> keys@[#[trigger] o@[i] as int] <= keys@[#[trigger] o@[k] as int],
            acc_exact == col_sum(pts, r1 as int, cur_x as nat),
            acc == if acc_exact > u128::MAX { u128::MAX as int } else { acc_exact },
            cur_x <= r0,
            has_best ==> {
                &&& 0 <= e_pos < j
                &&& e == o@[e_pos]
                &&& in_box(pts, e, r0 as int, r1 as int)
                &&& cur_x == 10 * pts[e][0]
                &&& best == pts[e][1]
                &&& cur_h == r1 - 10 * best
            },
            !has_best ==> cur_x == 0 && cur_h == 0,
            forall|t: int|
                0 <= t < j && in_box(pts, #[trigger] o@[t] as int, r0 as int, r1 as int) ==> has_best && best
                    <= pts[o@[t] as int][1],
            forall|x: int|
                cur_x <= x < r0 && (j < m ==> x < 10 * keys@[o@[j as int] as int]) ==> r1 - #[trigger] low(
                    pts,
                    x,
                    r1 as int,
                    m as nat,
                ) == cur_h,
    {
        let a = o[j];
        let x: u128 = 10 * (front[a][0] as u128);
        let y: u128 = 10 * (front[a][1] as u128);
        let ghost old_x = cur_x;
        if x <= r0 && y <= r1 && (!has_best || front[a][1] < best) {
            proof {
                if has_best {
                    assert(keys@[o@[e_pos] as int] <= keys@[o@[j as int] as int]);
                }
                lemma_col_sum_flat(pts, r1 as int, cur_x as nat, x as nat, cur_h as int);
            }
            let w = mul_saturating(x - cur_x, cur_h);
            proof {
                acc_exact = acc_exact + (x - cur_x) * cur_h;
                assert((x - cur_x) * cur_h >= 0) by (nonlinear_arith)
                    requires x >= cur_x, cur_h >= 0;
            }
            acc = if acc > u128::MAX - w {
                u128::MAX
            } else {
                acc + w
            };
            cur_x = x;
            cur_h = r1 - y;
            has_best = true;
            best = front[a][1];
            proof {
                e = a as int;
                e_pos = j as int;
            }
        }
        proof {
            assert forall|t: int|
                0 <= t < j + 1 && in_box(pts, #[trigger] o@[t] as int, r0 as int, r1 as int) implies has_best
                    && best <= pts[o@[t] as int][1] by {
            }
            assert forall|xx: int|
                cur_x <= xx < r0 && (j + 1 < m ==> xx < 10 * keys@[o@[j + 1] as int]) implies r1 - #[trigger] low(
                    pts,
                    xx,
                    r1 as int,
                    m as nat,
                ) == cur_h by {
                let v: int = if has_best { 10 * best } else { r1 as int };
                assert forall|i: int| 0 <= i < m && 10 * pts[i][0] <= xx implies v <= 10 * (#[trigger] pts[i])[1] by {
                    lemma_order_covers(keys@, o@, i);
                    let t = choose|t: int| 0 <= t < o@.len() && #[trigger] o@[t] == i;
                    if t > j {
                        assert(keys@[o@[j + 1] as int] <= keys@[o@[t] as int]);
                    }
                    if !in_box(pts, i, r0 as int, r1 as int) {
                        assert(10 * pts[i][1] > r1);
                    }
                }
                if has_best {
                    assert(10 * pts[e][0] <= xx && v == 10 * pts[e][1]);
                }
                lemma_low_eq(pts, xx, r1 as int, m as nat, v);
            }
        }
    }
    proof {
        lemma_col_sum_flat(pts, r1 as int, cur_x as nat, r0 as nat, cur_h as int);
        assert((r0 - cur_x) * cur_h >= 0) by (nonlinear_arith)
            requires r0 >= cur_x, cur_h >= 0;
    }
    let w = mul_saturating(r0 - cur_x, cur_h);
    if acc > u128::MAX - w {
        u128::MAX
    } else {
        acc + w
    }
}

/// The objective vectors of the members of `front`, in front order.
pub open spec fn front_vectors(objs: Seq<Vec<u64>>, front: Seq<usize>) -> Seq<Seq<u64>> {
    Seq::new(front.len(), |j: int| objs[front[j] as int]@)
}

/// Every objective vector has exactly two components.
pub open spec fn bi_objective(objs: Seq<Vec<u64>>) -> bool {
    forall|a: int| 0 <= a < objs.len() ==> (#[trigger] objs[a])@.len() == 2
}

/// The objective vector of each individual of `pop`, in order.
fn objectives_of<O: Oracle>(pop: &Vec<Chromosome>, oracle: &mut O) -> (objs: Vec<Vec<u64>>)
    requires
        forall|i: int| 0 <= i < pop@.len() ==> old(oracle).accepts(#[trigger] pop@[i].genes@),
    ensures
        objs@.len() == pop@.len(),
        forall|i: int| 0 <= i < pop@.len() ==> (#[trigger] objs@[i])@ == old(oracle).objective_values(pop@[i].genes@),
        final(oracle).evaluated() == old(oracle).evaluated() + genes_of(pop@).to_set(),
        final(oracle).queries() == old(oracle).queries() + pop@.len(),
        forall|g: Seq<u8>| #[trigger] final(oracle).fitness(g) == old(oracle).fitness(g),
        forall|g: Seq<u8>| #[trigger] final(oracle).accepts(g) == old(oracle).accepts(g),
        forall|g: Seq<u8>| #[trigger] final(oracle).objective_values(g) == old(oracle).objective_values(g),
{
    let ghost o0 = *oracle;
    let ghost mut seen: Seq<Seq<u8>> = Seq::empty();
    let mut objs: Vec<Vec<u64>> = Vec::new();
    let n = pop.len();
    for i in 0..n
        invariant
            n == pop@.len(),
            objs@.len() == i,
            seen.len() == i,
            oracle.queries() == o0.queries() + i,
            forall|j: int| 0 <= j < i ==> #[trigger] seen[j] == pop@[j].genes@,
            oracle.evaluated() == o0.evaluated() + seen.to_set(),
            forall|j: int| 0 <= j < i ==> (#[trigger] objs@[j])@ == o0.objective_values(pop@[j].genes@),
            forall|g: Seq<u8>| #[trigger] oracle.fitness(g) == o0.fitness(g),
            forall|g: Seq<u8>| #[trigger] oracle.accepts(g) == o0.accepts(g),
            forall|j: int| 0 <= j < pop@.len() ==> o0.accepts(#[trigger] pop@[j].genes@),
            forall|g: Seq<u8>| #[trigger] oracle.objective_values(g) == o0.objective_values(g),
    {
        let o = oracle.objectives(&pop[i]);
        objs.push(o);
        proof {
            seen.lemma_push_to_set_commute(pop@[i as int].genes@);
            seen = seen.push(pop@[i as int].genes@);
            assert(oracle.evaluated() =~= o0.evaluated() + seen.to_set());
        }
    }
    proof {
        assert(seen =~= genes_of(pop@));
    }
    objs
}

/// The largest `k`-th component among the first `n` vectors (0 for none).
pub open spec fn max_component(objs: Seq<Vec<u64>>, k: int, n: nat) -> u64
    decreases n,
{
    if n == 0 {
        0
    } else {
        let m = max_component(objs, k, (n - 1) as nat);
        if objs[n - 1]@[k] > m {
            objs[n - 1]@[k]
        } else {
            m
        }
    }
}

/// The hypervolume reference point, in tenths: 10% beyond the worst value on
/// each axis, plus one (`11 * max + 10` tenths), so that the metric is
/// comparable across generations.
pub fn reference_point(objs: &Vec<Vec<u64>>) -> (r: (u128, u128))
    requires
        forall|a: int| 0 <= a < objs@.len() ==> (#[trigger] objs@[a])@.len() >= 2,
    ensures
        r.0 == 11 * max_component(objs@, 0, objs@.len() as nat) + 10,
        r.1 == 11 * max_component(objs@, 1, objs@.len() as nat) + 10,
{
    let mut m0: u64 = 0;
    let mut m1: u64 = 0;
    let n = objs.len();
    for i in 0..n
        invariant
            n == objs@.len(),
            forall|a: int| 0 <= a < objs@.len() ==> (#[trigger] objs@[a])@.len() >= 2,
            m0 == max_component(objs@, 0, i as nat),
            m1 == max_component(objs@, 1, i as nat),
    {
        if objs[i][0] > m0 {
            m0 = objs[i][0];
        }
        if objs[i][1] > m1 {
            m1 = objs[i][1];
        }
    }
    (11 * (m0 as u128) + 10, 11 * (m1 as u128) + 10)
}

/// The indices of the vectors that no vector of `objs` dominates.
pub open spec fn nondominated(objs: Seq<Vec<u64>>) -> Set<usize> {
    Set::new(|q: usize| q < objs.len() && forall|p: int| 0 <= p < objs.len() ==> !#[trigger] dom(objs, p, q as int))
}

/// The first front of a non-dominated sorting holds exactly the
/// non-dominated indices.
pub proof fn lemma_first_front_size(objs: Seq<Vec<u64>>, fr: Seq<Vec<usize>>)
    requires
        is_nd_sort(objs, fr),
        fr.len() > 0,
    ensures
        fr[0]@.to_set() == nondominated(objs),
        fr[0]@.len() == nondominated(objs).len(),
{
    assert forall|q: usize| #[trigger] fr[0]@.to_set().contains(q) <==> nondominated(objs).contains(q) by {
        if fr[0]@.contains(q) {
            let j = choose|j: int| 0 <= j < fr[0]@.len() && fr[0]@[j] == q;
            assert(fr[0]@[j] < objs.len());
            assert forall|p: int| 0 <= p < objs.len() implies !#[trigger] dom(objs, p, q as int) by {
                if dom(objs, p, q as int) {
                    assert(fr[0]@.contains(q));
                }
            }
        }
        if nondominated(objs).contains(q) {
            assert(in_some_front(fr, q as int));
            let r = choose|r: int| 0 <= r < fr.len() && #[trigger] fr[r]@.contains(q as usize);
            if r > 0 {
                let p = choose|p: int| 0 <= p < objs.len() && #[trigger] fr[r - 1]@.contains(p as usize) && dom(objs, p, q as int);
                assert(!dom(objs, p, q as int));
            }
        }
    }
    assert(fr[0]@.to_set() =~= nondominated(objs));
    fr[0]@.unique_seq_to_set();
}

/// `rec` holds the size of the first front of the objective vectors `objs`
/// (the number of non-dominated vectors)
/// and its hypervolume (saturated) against the reference point `(r0, r1)`.
pub open spec fn records_front(rec: HvRecord, objs: Seq<Vec<u64>>, r0: int, r1: int) -> bool {
    &&& rec.front_size == nondominated(objs).len()
    &&& exists|fr: Seq<Vec<usize>>|
        #![trigger is_nd_sort(objs, fr)]
        is_nd_sort(objs, fr) && fr.len() > 0 && rec.front_size == fr[0]@.len() && rec.hypervolume == if hypervolume_spec(
            front_vectors(objs, fr[0]@),
            r0,
            r1,
        ) > u128::MAX {
            u128::MAX as int
        } else {
            hypervolume_spec(front_vectors(objs, fr[0]@), r0, r1)
        }
}

/// The progress record of a population's objective vectors: the size and
/// hypervolume of its first front.
fn hv_record(evaluations: usize, objs: &Vec<Vec<u64>>, r0: u128, r1: u128) -> (rec: HvRecord)
    requires
        objs@.len() > 0,
        bi_objective(objs@),
    ensures
        rec.evaluations == evaluations,
        rec.front_size > 0,
        records_front(rec, objs@, r0 as int, r1 as int),
{
    let fronts = non_dominated_sort(objs);
    proof {
        lemma_first_front_size(objs@, fronts@);
    }
    let k = fronts[0].len();
    let mut first: Vec<Vec<u64>> = Vec::new();
    for j in 0..k
        invariant
            k == fronts@[0]@.len(),
            fronts@.len() > 0,
            is_nd_sort(objs@, fronts@),
            bi_objective(objs@),
            first@.len() == j,
            vec_views(first@) == front_vectors(objs@, fronts@[0]@).take(j as int),
    {
        let v = objs[fronts[0][j]].clone();
        assert(v@ =~= objs@[fronts@[0]@[j as int] as int]@);
        let ghost before = first@;
        first.push(v);
        proof {
            let fv = front_vectors(objs@, fronts@[0]@);
            assert forall|i: int| 0 <= i < j + 1 implies #[trigger] vec_views(first@)[i] == fv.take(j + 1)[i] by {
                if i < j {
                    assert(first@[i] == before[i]);
                    assert(vec_views(before)[i] == fv.take(j as int)[i]);
                }
            }
            assert(vec_views(first@) =~= fv.take(j + 1));
        }
    }
    proof {
        assert(vec_views(first@) =~= front_vectors(objs@, fronts@[0]@));
        assert forall|a: int| 0 <= a < first@.len() implies (#[trigger] first@[a])@.len() >= 2 by {
            assert(vec_views(first@)[a] == first@[a]@);
            assert(fronts@[0]@[a] < objs@.len());
        }
    }
    let hv = hypervolume_2d(&first, r0, r1);
    HvRecord { evaluations, hypervolume: hv, front_size: k }
}

/// For each of the first `upto` fronts, `ds[k]` is its crowding
/// ([`front_crowding`]) and `crowd` holds it at every member.
pub open spec fn crowding_upto(
    objs: Seq<Vec<u64>>,
    fronts: Seq<Vec<usize>>,
    crowd: Seq<Crowding>,
    ds: Seq<Seq<Crowding>>,
    upto: int,
) -> bool {
    &&& ds.len() == upto
    &&& forall|k: int| 0 <= k < upto ==> #[trigger] front_crowding(fronts[k]@, objs, ds[k])
    &&& forall|k: int, j: int|
        0 <= k < upto && 0 <= j < fronts[k]@.len() ==> crowd[#[trigger] fronts[k]@[j] as int] == ds[k][j]
}

/// The front index (rank) and crowding distance of every individual, from
/// the non-dominated sorting `fronts`.
fn assign_rank_crowding(objs: &Vec<Vec<u64>>, fronts: &Vec<Vec<usize>>) -> (r: (Vec<usize>, Vec<Crowding>))
    requires
        is_nd_sort(objs@, fronts@),
        bi_objective(objs@),
    ensures
        r.0@.len() == objs@.len(),
        r.1@.len() == objs@.len(),
        forall|k: int, j: int|
            0 <= k < fronts@.len() && 0 <= j < fronts@[k]@.len() ==> r.0@[#[trigger] fronts@[k]@[j] as int] == k,
        exists|ds: Seq<Seq<Crowding>>| #[trigger] crowding_upto(objs@, fronts@, r.1@, ds, fronts@.len() as int),
{
    let n = objs.len();
    let mut rank: Vec<usize> = Vec::new();
    let mut crowd: Vec<Crowding> = Vec::new();
    for a in 0..n
        invariant
            rank@.len() == a,
            crowd@.len() == a,
    {
        rank.push(0);
        crowd.push(Crowding::Finite(0, 0));
    }
    let nf = fronts.len();
    let ghost mut ds: Seq<Seq<Crowding>> = Seq::empty();
    for k in 0..nf
        invariant
            n == objs@.len(),
            nf == fronts@.len(),
            is_nd_sort(objs@, fronts@),
            bi_objective(objs@),
            rank@.len() == n,
            crowd@.len() == n,
            forall|k2: int, j: int|
                0 <= k2 < k && 0 <= j < fronts@[k2]@.len() ==> rank@[#[trigger] fronts@[k2]@[j] as int] == k2,
            crowding_upto(objs@, fronts@, crowd@, ds, k as int),
    {
        let cd = crowding_distance(&fronts[k], objs);
        let m = fronts[k].len();
        for j in 0..m
            invariant
                n == objs@.len(),
                nf == fronts@.len(),
                k < nf,
                m == fronts@[k as int]@.len(),
                cd@.len() == m,
                is_nd_sort(objs@, fronts@),
                rank@.len() == n,
                crowd@.len() == n,
                forall|k2: int, j2: int|
                    0 <= k2 < k && 0 <= j2 < fronts@[k2]@.len() ==> rank@[#[trigger] fronts@[k2]@[j2] as int] == k2,
                forall|j2: int| 0 <= j2 < j ==> rank@[#[trigger] fronts@[k as int]@[j2] as int] == k,
                forall|j2: int| 0 <= j2 < j ==> crowd@[#[trigger] fronts@[k as int]@[j2] as int] == cd@[j2],
                crowding_upto(objs@, fronts@, crowd@, ds, k as int),
        {
            let idx = fronts[k][j];
            proof {
                // `idx` lies in front `k` only.
                assert forall|k2: int, j2: int| 0 <= k2 < k && 0 <= j2 < fronts@[k2]@.len() implies fronts@[k2]@[j2] != idx by {
                    if fronts@[k2]@[j2] == idx {
                        assert(fronts@[k2]@.contains(idx));
                        assert(fronts@[k as int]@.contains(idx));
                    }
                }
            }
            let ghost crowd_before = crowd@;
            rank.set(idx, k);
            crowd.set(idx, cd[j]);
            proof {
                assert forall|k2: int, j2: int|
                    0 <= k2 < k && 0 <= j2 < fronts@[k2]@.len() implies crowd@[#[trigger] fronts@[k2]@[j2] as int] == ds[k2][j2] by {
                    assert(fronts@[k2]@[j2] != idx);
                    assert(crowd_before[fronts@[k2]@[j2] as int] == ds[k2][j2]);
                }
                assert forall|j2: int| 0 <= j2 <= j implies crowd@[#[trigger] fronts@[k as int]@[j2] as int] == cd@[j2] by {
                    if j2 < j {
                        assert(fronts@[k as int]@[j2] != fronts@[k as int]@[j as int]);
                    }
                }
            }
        }
        proof {
            let ds0 = ds;
            ds = ds.push(cd@);
            assert forall|k2: int| 0 <= k2 < k + 1 implies #[trigger] front_crowding(fronts@[k2]@, objs@, ds[k2]) by {
                if k2 < k {
                    assert(ds[k2] == ds0[k2]);
                }
            }
            assert forall|k2: int, j2: int|
                0 <= k2 < k + 1 && 0 <= j2 < fronts@[k2]@.len() implies crowd@[#[trigger] fronts@[k2]@[j2] as int] == ds[k2][j2] by {
                if k2 < k {
                    assert(ds[k2] == ds0[k2]);
                }
            }
        }
    }
    let r = (rank, crowd);
    proof {
        assert(crowding_upto(objs@, fronts@, r.1@, ds, fronts@.len() as int));
    }
    r
}

/// The breeding of one pair of offspring from the draws recorded from `d0`
/// to `d6`: crowded tournaments from `d0` to `d1` and `d1` to `d2` pick the
/// parents `p1`, `p2`; one Bernoulli trial (`d2` to `d3`) against the
/// crossover rate decides whether `x1`, `x2` are their uniform crossover
/// (`d3` to `d4`) or the parents themselves; `m1`, `m2` are the point
/// mutations of `x1` (`d4` to `d5`) and `x2` (`d5` to `d6`).
pub open spec fn bred_crowded(
    rank: Seq<usize>,
    crowd: Seq<Crowding>,
    pop: Seq<Seq<u8>>,
    space: Seq<usize>,
    cfg: Nsga2Config,
    d0: Draws,
    d1: Draws,
    d2: Draws,
    d3: Draws,
    d4: Draws,
    d5: Draws,
    d6: Draws,
    p1: usize,
    p2: usize,
    x1: Seq<u8>,
    x2: Seq<u8>,
    m1: Seq<u8>,
    m2: Seq<u8>,
) -> bool {
    &&& crowded_won(rank, crowd, d0, d1, p1)
    &&& crowded_won(rank, crowd, d1, d2, p2)
    &&& d3.indices() == d2.indices() && d3.coins() == d2.coins() && d3.values() == d2.values()
    &&& d3.words().len() == d2.words().len() + 1
    &&& d3.words().take(d2.words().len() as int) == d2.words()
    &&& d3.words().last() < UNIT_53
    &&& if d3.words().last() < cfg.crossover_rate {
        crossed_drawn(pop[p1 as int], pop[p2 as int], d3, d4, x1, x2)
    } else {
        x1 == pop[p1 as int] && x2 == pop[p2 as int] && d4 == d3
    }
    &&& mutated_drawn(x1, space, cfg.mutation_rate, d4, d5, m1)
    &&& mutated_drawn(x2, space, cfg.mutation_rate, d5, d6, m2)
}

/// One pair of offspring (see [`bred_crowded`]), with the indices of their
/// parents.
fn breed_crowded(
    space: &[usize],
    pop: &Vec<Chromosome>,
    rank: &Vec<usize>,
    crowd: &Vec<Crowding>,
    cfg: &Nsga2Config,
    d: &mut Draws,
) -> (r: (Chromosome, Chromosome, usize, usize))
    requires
        pop@.len() > 0,
        rank@.len() == pop@.len(),
        crowd@.len() == pop@.len(),
        sampleable(space@),
        all_valid(pop@, space@),
    ensures
        r.2 < pop@.len() && r.3 < pop@.len(),
        valid_genes(r.0.genes@, space@),
        valid_genes(r.1.genes@, space@),
        exists|d1: Draws, d2: Draws, d3: Draws, d4: Draws, d5: Draws, x1: Seq<u8>, x2: Seq<u8>|
            #[trigger] bred_crowded(
                rank@,
                crowd@,
                genes_of(pop@),
                space@,
                *cfg,
                *old(d),
                d1,
                d2,
                d3,
                d4,
                d5,
                *final(d),
                r.2,
                r.3,
                x1,
                x2,
                r.0.genes@,
                r.1.genes@,
            ),
        cfg.mutation_rate == 0 ==> forall|i: int|
            0 <= i < r.0.genes@.len() ==> #[trigger] r.0.genes@[i] == pop@[r.2 as int].genes@[i] || r.0.genes@[i]
                == pop@[r.3 as int].genes@[i],
        cfg.mutation_rate == 0 ==> forall|i: int|
            0 <= i < r.1.genes@.len() ==> #[trigger] r.1.genes@[i] == pop@[r.2 as int].genes@[i] || r.1.genes@[i]
                == pop@[r.3 as int].genes@[i],
        cfg.mutation_rate == 0 && cfg.crossover_rate == 0 ==> r.0.genes@ == pop@[r.2 as int].genes@ && r.1.genes@
            == pop@[r.3 as int].genes@,
{
    let ghost d0 = *d;
    let p1 = crowded_tournament(rank, crowd, d);
    let ghost d1 = *d;
    let p2 = crowded_tournament(rank, crowd, d);
    let ghost d2 = *d;
    let cross = d.below(cfg.crossover_rate);
    let ghost d3 = *d;
    let (c1, c2) = if cross {
        let r = uniform_crossover_drawn(&pop[p1], &pop[p2], d);
        proof {
            lemma_crossover_valid(pop@[p1 as int].genes@, pop@[p2 as int].genes@, r.0.genes@, r.1.genes@, space@);
        }
        r
    } else {
        (pop[p1].duplicate(), pop[p2].duplicate())
    };
    let ghost d4 = *d;
    let m1 = point_mutation_drawn(&c1, space, cfg.mutation_rate, d);
    let ghost d5 = *d;
    let m2 = point_mutation_drawn(&c2, space, cfg.mutation_rate, d);
    proof {
        lemma_mutation_valid(c1.genes@, space@, m1.genes@);
        lemma_mutation_valid(c2.genes@, space@, m2.genes@);
        let a = pop@[p1 as int].genes@;
        let b = pop@[p2 as int].genes@;
        assert(genes_of(pop@)[p1 as int] == a);
        assert(genes_of(pop@)[p2 as int] == b);
        assert(d3.words() == d2.words().push(d3.words().last()));
        assert(d3.words().take(d2.words().len() as int) =~= d2.words());
        if cross {
            assert(crossed_drawn(a, b, d3, d4, c1.genes@, c2.genes@));
        } else {
            assert(d4 == d3);
        }
        if cfg.mutation_rate == 0 {
            assert forall|i: int| 0 <= i < m1.genes@.len() implies #[trigger] m1.genes@[i] == a[i] || m1.genes@[i] == b[i] by {
                assert(c1.genes@[i] == a[i] || c1.genes@[i] == b[i]);
            }
            assert forall|i: int| 0 <= i < m2.genes@.len() implies #[trigger] m2.genes@[i] == a[i] || m2.genes@[i] == b[i] by {
                assert(c1.genes@[i] == a[i] || c1.genes@[i] == b[i]);
                assert(c2.genes@[i] == a[i] || c2.genes@[i] == b[i]);
            }
        }
    }
    let out = (m1, m2, p1, p2);
    proof {
        assert(bred_crowded(rank@, crowd@, genes_of(pop@), space@, *cfg, d0, d1, d2, d3, d4, d5, *d, out.2, out.3,
            c1.genes@, c2.genes@, out.0.genes@, out.1.genes@));
    }
    out
}

/// Offspring by crowded tournaments, crossover and mutation: `pop_size` new
/// valid chromosomes.
fn make_offspring(
    space: &[usize],
    pop: &Vec<Chromosome>,
    rank: &Vec<usize>,
    crowd: &Vec<Crowding>,
    cfg: &Nsga2Config,
    rng: &mut ChaCha8Rng,
) -> (offspring: Vec<Chromosome>)
    requires
        pop@.len() > 0,
        rank@.len() == pop@.len(),
        crowd@.len() == pop@.len(),
        sampleable(space@),
        all_valid(pop@, space@),
    ensures
        offspring@.len() == cfg.pop_size,
        all_valid(offspring@, space@),
        cfg.mutation_rate == 0 ==> alleles_inherited(genes_of(pop@), genes_of(offspring@)),
        cfg.mutation_rate == 0 && cfg.crossover_rate == 0 ==> copies_of(genes_of(pop@), genes_of(offspring@)),
{
    let mut offspring: Vec<Chromosome> = Vec::new();
    proof {
        assert(genes_of(offspring@) =~= Seq::<Seq<u8>>::empty());
    }
    while offspring.len() < cfg.pop_size
        invariant
            pop@.len() > 0,
            rank@.len() == pop@.len(),
            crowd@.len() == pop@.len(),
            sampleable(space@),
            all_valid(pop@, space@),
            offspring@.len() <= cfg.pop_size,
            all_valid(offspring@, space@),
            cfg.mutation_rate == 0 ==> alleles_inherited(genes_of(pop@), genes_of(offspring@)),
            cfg.mutation_rate == 0 && cfg.crossover_rate == 0 ==> copies_of(genes_of(pop@), genes_of(offspring@)),
        decreases cfg.pop_size - offspring@.len(),
    {
        let mut d = Draws::take(rng);
        let (m1, m2, p1, p2) = breed_crowded(space, pop, rank, crowd, cfg, &mut d);
        d.give_back(rng);
        proof {
            assert(genes_of(pop@)[p1 as int] == pop@[p1 as int].genes@);
            assert(genes_of(pop@)[p2 as int] == pop@[p2 as int].genes@);
        }
        let ghost before = offspring@;
        offspring.push(m1);
        proof {
            assert(genes_of(offspring@) =~= genes_of(before).push(m1.genes@));
            if cfg.mutation_rate == 0 {
                lemma_push_inherits(genes_of(pop@), genes_of(before), m1.genes@, p1 as int, p2 as int);
                if cfg.crossover_rate == 0 {
                    lemma_push_copies(genes_of(pop@), genes_of(before), m1.genes@, p1 as int);
                }
            }
        }
        if offspring.len() < cfg.pop_size {
            let ghost mid = offspring@;
            offspring.push(m2);
            proof {
                assert(genes_of(offspring@) =~= genes_of(mid).push(m2.genes@));
                if cfg.mutation_rate == 0 {
                    lemma_push_inherits(genes_of(pop@), genes_of(mid), m2.genes@, p1 as int, p2 as int);
                    if cfg.crossover_rate == 0 {
                        lemma_push_copies(genes_of(pop@), genes_of(mid), m2.genes@, p2 as int);
                    }
                }
            }
        }
    }
    offspring
}

/// Chromosome `c` with objective vector `o` is member `s` of `combined`
/// with its vector, for some `s`.
pub open spec fn drawn_from(c: Chromosome, o: Vec<u64>, combined: Seq<Chromosome>, cobjs: Seq<Vec<u64>>) -> bool {
    exists|s: int| 0 <= s < combined.len() && c.genes@ == combined[s].genes@ && o@ == cobjs[s]@
}

/// Index `x` is in front `k`.
pub open spec fn in_front(fronts: Seq<Vec<usize>>, x: usize, k: int) -> bool {
    0 <= k < fronts.len() && fronts[k]@.contains(x)
}

/// Either `front` is kept or dropped whole, or its kept members are those of
/// largest crowding distance.
pub open spec fn front_cut_ok(front: Seq<usize>, objs: Seq<Vec<u64>>, sel: Seq<usize>) -> bool {
    ||| forall|a: int, b: int|
        #![trigger front[a], front[b]]
        0 <= a < front.len() && 0 <= b < front.len() && sel.contains(front[a]) ==> sel.contains(front[b])
    ||| exists|cd: Seq<Crowding>|
        #[trigger] front_crowding(front, objs, cd) && forall|a: int, b: int|
            #![trigger front[a], front[b]]
            0 <= a < front.len() && 0 <= b < front.len() && sel.contains(front[a]) && !sel.contains(front[b])
                ==> crowd_value(cd[a]) >= crowd_value(cd[b])
}

/// `sel` lists `n_keep` distinct survivors among the vectors `objs`, sorted
/// into `fronts`: no survivor lies in a later front than a non-survivor,
/// and a front split between them keeps its most crowding-distant members.
pub open spec fn survivors(objs: Seq<Vec<u64>>, fronts: Seq<Vec<usize>>, sel: Seq<usize>, n_keep: nat) -> bool {
    &&& is_nd_sort(objs, fronts)
    &&& sel.len() == n_keep
    &&& sel.no_duplicates()
    &&& forall|i: int| 0 <= i < sel.len() ==> (#[trigger] sel[i]) < objs.len()
    &&& forall|x: usize, y: usize, kx: int, ky: int|
        #![trigger in_front(fronts, x, kx), in_front(fronts, y, ky)]
        sel.contains(x) && !sel.contains(y) && in_front(fronts, x, kx) && in_front(fronts, y, ky) ==> kx <= ky
    &&& forall|k: int| 0 <= k < fronts.len() ==> front_cut_ok(#[trigger] fronts[k]@, objs, sel)
}

/// A crowding order lists distinct positions.
proof fn lemma_crowding_order_distinct(cd: Seq<Crowding>, order: Seq<usize>)
    requires
        is_crowding_order(cd, order),
    ensures
        forall|i: int, j: int| 0 <= i < j < order.len() ==> #[trigger] order[i] != #[trigger] order[j],
{
}

/// Where every index survives, the selection law holds.
proof fn lemma_all_survive(objs: Seq<Vec<u64>>, fronts: Seq<Vec<usize>>, sel: Seq<usize>, n_keep: nat)
    requires
        is_nd_sort(objs, fronts),
        sel.len() == n_keep,
        sel.no_duplicates(),
        forall|i: int| 0 <= i < sel.len() ==> (#[trigger] sel[i]) < objs.len(),
        forall|x: usize| x < objs.len() ==> sel.contains(x),
    ensures
        survivors(objs, fronts, sel, n_keep),
{
    assert forall|k: int| 0 <= k < fronts.len() implies front_cut_ok(#[trigger] fronts[k]@, objs, sel) by {
        assert forall|a: int, b: int|
            #![trigger fronts[k]@[a], fronts[k]@[b]]
            0 <= a < fronts[k]@.len() && 0 <= b < fronts[k]@.len() && sel.contains(fronts[k]@[a]) implies sel.contains(
                fronts[k]@[b],
            ) by {
            assert(fronts[k]@[b] < objs.len());
        }
    }
}

/// The cut of front `k` by crowding order, after whole fronts `0..k`, obeys
/// the selection law.
proof fn lemma_cut_survivors(
    objs: Seq<Vec<u64>>,
    fronts: Seq<Vec<usize>>,
    sel: Seq<usize>,
    n_keep: nat,
    k: int,
    cd: Seq<Crowding>,
    order: Seq<usize>,
    t: int,
)
    requires
        is_nd_sort(objs, fronts),
        0 <= k < fronts.len(),
        front_crowding(fronts[k]@, objs, cd),
        is_crowding_order(cd, order),
        cd.len() == fronts[k]@.len(),
        0 <= t <= order.len(),
        sel.len() == n_keep,
        sel.no_duplicates(),
        forall|i: int| 0 <= i < sel.len() ==> (#[trigger] sel[i]) < objs.len(),
        forall|x: usize|
            x < objs.len() ==> (#[trigger] sel.contains(x) <==> ((exists|k2: int|
                0 <= k2 < k && #[trigger] fronts[k2]@.contains(x)) || exists|i: int|
                0 <= i < t && #[trigger] fronts[k]@[order[i] as int] == x)),
    ensures
        survivors(objs, fronts, sel, n_keep),
{
    lemma_crowding_order_distinct(cd, order);
    let front = fronts[k]@;
    assert forall|x: usize, y: usize, kx: int, ky: int|
        #![trigger in_front(fronts, x, kx), in_front(fronts, y, ky)]
        sel.contains(x) && !sel.contains(y) && in_front(fronts, x, kx) && in_front(fronts, y, ky) implies kx <= ky by {
        assert(x < objs.len()) by {
            let j = choose|j: int| 0 <= j < fronts[kx]@.len() && fronts[kx]@[j] == x;
        }
        assert(y < objs.len()) by {
            let j = choose|j: int| 0 <= j < fronts[ky]@.len() && fronts[ky]@[j] == y;
        }
        if exists|k2: int| 0 <= k2 < k && #[trigger] fronts[k2]@.contains(x) {
            let k2 = choose|k2: int| 0 <= k2 < k && #[trigger] fronts[k2]@.contains(x);
            assert(kx == k2);
        } else {
            let i = choose|i: int| 0 <= i < t && #[trigger] fronts[k]@[order[i] as int] == x;
            assert(order[i] < front.len());
            assert(front[order[i] as int] == x);
            assert(front.contains(x));
            assert(kx == k);
        }
        if ky < k {
            assert(fronts[ky]@.contains(y));
        }
    }
    assert forall|j: int| 0 <= j < fronts.len() implies front_cut_ok(#[trigger] fronts[j]@, objs, sel) by {
        if j < k {
            assert forall|a: int, b: int|
                #![trigger fronts[j]@[a], fronts[j]@[b]]
                0 <= a < fronts[j]@.len() && 0 <= b < fronts[j]@.len() && sel.contains(fronts[j]@[a]) implies sel.contains(
                    fronts[j]@[b],
                ) by {
                assert(fronts[j]@[b] < objs.len());
                assert(fronts[j]@.contains(fronts[j]@[b]));
            }
        } else if j > k {
            assert forall|a: int, b: int|
                #![trigger fronts[j]@[a], fronts[j]@[b]]
                0 <= a < fronts[j]@.len() && 0 <= b < fronts[j]@.len() && sel.contains(fronts[j]@[a]) implies sel.contains(
                    fronts[j]@[b],
                ) by {
                let x = fronts[j]@[a];
                assert(x < objs.len());
                assert(fronts[j]@.contains(x));
                if exists|k2: int| 0 <= k2 < k && #[trigger] fronts[k2]@.contains(x) {
                    let k2 = choose|k2: int| 0 <= k2 < k && #[trigger] fronts[k2]@.contains(x);
                } else {
                    let i = choose|i: int| 0 <= i < t && #[trigger] fronts[k]@[order[i] as int] == x;
                    assert(order[i] < front.len());
                    assert(front[order[i] as int] == x);
                    assert(front.contains(x));
                }
            }
        } else {
            assert forall|a: int, b: int|
                #![trigger front[a], front[b]]
                0 <= a < front.len() && 0 <= b < front.len() && sel.contains(front[a]) && !sel.contains(front[b])
                    implies crowd_value(cd[a]) >= crowd_value(cd[b]) by {
                let x = front[a];
                let y = front[b];
                assert(x < objs.len());
                assert(y < objs.len());
                assert(front.contains(x));
                let ia: int = if exists|k2: int| 0 <= k2 < k && #[trigger] fronts[k2]@.contains(x) {
                    let k2 = choose|k2: int| 0 <= k2 < k && #[trigger] fronts[k2]@.contains(x);
                    assert(false);
                    0
                } else {
                    choose|i: int| 0 <= i < t && #[trigger] fronts[k]@[order[i] as int] == x
                };
                assert(order[ia] as int == a) by {
                    assert(front.no_duplicates());
                }
                lemma_perm_covers(order, b);
                let jb = choose|jb: int| 0 <= jb < order.len() && #[trigger] order[jb] == b;
                if jb < t {
                    assert(fronts[k]@[order[jb] as int] == y);
                }
                assert(ia < jb);
            }
            assert(front_crowding(front, objs, cd));
        }
    }
}

/// (μ+λ) elitist replacement: whole fronts of the non-dominated sorting of
/// `combined`, best first, while they fit in `pop_size`; the first front
/// that does not fit fills the rest by descending crowding distance.
#[verifier::spinoff_prover]
fn select_survivors(combined: &Vec<Chromosome>, cobjs: &Vec<Vec<u64>>, pop_size: usize) -> (r: (
    Vec<Chromosome>,
    Vec<Vec<u64>>,
))
    requires
        combined@.len() == cobjs@.len(),
        combined@.len() >= pop_size,
        bi_objective(cobjs@),
    ensures
        r.0@.len() == pop_size,
        r.1@.len() == pop_size,
        forall|i: int| 0 <= i < pop_size ==> drawn_from(#[trigger] r.0@[i], r.1@[i], combined@, cobjs@),
        exists|fronts: Seq<Vec<usize>>, sel: Seq<usize>|
            #[trigger] survivors(cobjs@, fronts, sel, pop_size as nat) && forall|i: int|
                0 <= i < pop_size ==> (#[trigger] r.0@[i]).genes@ == combined@[sel[i] as int].genes@
                    && r.1@[i]@ == cobjs@[sel[i] as int]@,
{
    let n = combined.len();
    let fronts = non_dominated_sort(cobjs);
    let mut new_pop: Vec<Chromosome> = Vec::new();
    let mut new_objs: Vec<Vec<u64>> = Vec::new();
    let ghost mut added: Set<int> = Set::empty();
    let ghost mut sel: Seq<usize> = Seq::empty();
    let nf = fronts.len();
    let mut k: usize = 0;
    let mut filled = false;
    while k < nf && !filled
        invariant
            n == combined@.len(),
            n == cobjs@.len(),
            n >= pop_size,
            nf == fronts@.len(),
            k <= nf,
            is_nd_sort(cobjs@, fronts@),
            bi_objective(cobjs@),
            new_pop@.len() == new_objs@.len(),
            new_pop@.len() <= pop_size,
            filled ==> new_pop@.len() == pop_size,
            forall|i: int| 0 <= i < new_pop@.len() ==> drawn_from(#[trigger] new_pop@[i], new_objs@[i], combined@, cobjs@),
            added.finite(),
            !filled ==> added.len() == new_pop@.len(),
            forall|x: int| #[trigger] added.contains(x) ==> 0 <= x < n,
            !filled ==> forall|x: int|
                0 <= x < n ==> (#[trigger] added.contains(x) <==> exists|k2: int|
                    0 <= k2 < k && #[trigger] fronts@[k2]@.contains(x as usize)),
            sel.len() == new_pop@.len(),
            sel.no_duplicates(),
            forall|i: int| 0 <= i < sel.len() ==> (#[trigger] sel[i]) < n,
            forall|i: int|
                0 <= i < sel.len() ==> (#[trigger] new_pop@[i]).genes@ == combined@[sel[i] as int].genes@
                    && new_objs@[i]@ == cobjs@[sel[i] as int]@,
            !filled ==> forall|x: int| 0 <= x < n ==> (#[trigger] added.contains(x) <==> sel.contains(x as usize)),
            filled ==> survivors(cobjs@, fronts@, sel, pop_size as nat),
        decreases nf - k, if filled { 0int } else { 1int },
    {
        let m = fronts[k].len();
        if m <= pop_size - new_pop.len() {
            let ghost added0 = added;
            for j in 0..m
                invariant
                    n == combined@.len(),
                    n == cobjs@.len(),
                    nf == fronts@.len(),
                    k < nf,
                    m == fronts@[k as int]@.len(),
                    is_nd_sort(cobjs@, fronts@),
                    new_pop@.len() == new_objs@.len(),
                    new_pop@.len() + m - j <= pop_size,
                    forall|i: int| 0 <= i < new_pop@.len() ==> drawn_from(#[trigger] new_pop@[i], new_objs@[i], combined@, cobjs@),
                    added.finite(),
                    added.len() == new_pop@.len(),
                    forall|x: int| #[trigger] added.contains(x) ==> 0 <= x < n,
                    forall|x: int|
                        0 <= x < n ==> (#[trigger] added.contains(x) <==> (added0.contains(x) || fronts@[k as int]@.subrange(
                            0,
                            j as int,
                        ).contains(x as usize))),
                    forall|x: int|
                        0 <= x < n ==> (#[trigger] added0.contains(x) <==> exists|k2: int|
                            0 <= k2 < k && #[trigger] fronts@[k2]@.contains(x as usize)),
                    sel.len() == new_pop@.len(),
                    sel.no_duplicates(),
                    forall|i: int| 0 <= i < sel.len() ==> (#[trigger] sel[i]) < n,
                    forall|i: int|
                        0 <= i < sel.len() ==> (#[trigger] new_pop@[i]).genes@ == combined@[sel[i] as int].genes@
                            && new_objs@[i]@ == cobjs@[sel[i] as int]@,
                    forall|x: int| 0 <= x < n ==> (#[trigger] added.contains(x) <==> sel.contains(x as usize)),
            {
                let idx = fronts[k][j];
                let ghost before_pop = new_pop@;
                let ghost before_objs = new_objs@;
                new_pop.push(combined[idx].duplicate());
                let v = cobjs[idx].clone();
                assert(v@ =~= cobjs@[idx as int]@);
                new_objs.push(v);
                proof {
                    let sub0 = fronts@[k as int]@.subrange(0, j as int);
                    let sub1 = fronts@[k as int]@.subrange(0, j + 1);
                    assert(fronts@[k as int]@.contains(idx));
                    assert(!added.contains(idx as int)) by {
                        if added0.contains(idx as int) {
                            let k2 = choose|k2: int| 0 <= k2 < k && #[trigger] fronts@[k2]@.contains(idx);
                        }
                        if sub0.contains(idx) {
                            let j2 = choose|j2: int| 0 <= j2 < j && sub0[j2] == idx;
                            assert(fronts@[k as int]@[j2] == fronts@[k as int]@[j as int]);
                        }
                    }
                    let sel0 = sel;
                    assert(!sel0.contains(idx));
                    sel = sel.push(idx);
                    added = added.insert(idx as int);
                    assert(sel.no_duplicates()) by {
                        assert forall|a: int, b: int| 0 <= a < sel.len() && 0 <= b < sel.len() && a != b implies sel[a]
                            != sel[b] by {
                            if a == sel0.len() {
                                assert(sel[b] == sel0[b]);
                            } else if b == sel0.len() {
                                assert(sel[a] == sel0[a]);
                            }
                        }
                    }
                    assert forall|x: int| 0 <= x < n implies (#[trigger] added.contains(x) <==> sel.contains(x as usize)) by {
                        if sel0.contains(x as usize) {
                            let i = choose|i: int| 0 <= i < sel0.len() && sel0[i] == x as usize;
                            assert(sel[i] == x as usize);
                        }
                        if sel.contains(x as usize) && x != idx {
                            let i = choose|i: int| 0 <= i < sel.len() && sel[i] == x as usize;
                            assert(sel0[i] == x as usize);
                        }
                        if x == idx {
                            assert(sel[sel0.len() as int] == idx);
                        }
                    }
                    assert forall|i: int|
                        0 <= i < sel.len() implies (#[trigger] new_pop@[i]).genes@ == combined@[sel[i] as int].genes@
                            && new_objs@[i]@ == cobjs@[sel[i] as int]@ by {
                        if i < sel0.len() {
                            assert(new_pop@[i] == before_pop[i]);
                            assert(new_objs@[i] == before_objs[i]);
                        }
                    }
                    assert forall|x: int|
                        0 <= x < n implies (#[trigger] added.contains(x) <==> (added0.contains(x) || sub1.contains(x as usize))) by {
                        if sub0.contains(x as usize) {
                            let j2 = choose|j2: int| 0 <= j2 < j && sub0[j2] == x as usize;
                            assert(sub1[j2] == x as usize);
                        }
                        if sub1.contains(x as usize) && x != idx {
                            let j2 = choose|j2: int| 0 <= j2 < j + 1 && sub1[j2] == x as usize;
                            assert(sub0[j2] == x as usize);
                        }
                        if x == idx {
                            assert(sub1[j as int] == idx);
                        }
                    }
                    assert forall|i: int| 0 <= i < new_pop@.len() implies drawn_from(#[trigger] new_pop@[i], new_objs@[i], combined@, cobjs@) by {
                        if i < before_pop.len() {
                            assert(new_pop@[i] == before_pop[i]);
                            assert(new_objs@[i] == before_objs[i]);
                        } else {
                            assert(new_pop@[i].genes@ == combined@[idx as int].genes@);
                            assert(new_objs@[i]@ == cobjs@[idx as int]@);
                        }
                    }
                }
            }
            proof {
                assert(fronts@[k as int]@.subrange(0, m as int) =~= fronts@[k as int]@);
                assert forall|x: int|
                    0 <= x < n implies (#[trigger] added.contains(x) <==> exists|k2: int|
                        0 <= k2 < k + 1 && #[trigger] fronts@[k2]@.contains(x as usize)) by {
                    if added.contains(x) && !added0.contains(x) {
                        assert(fronts@[k as int]@.contains(x as usize));
                    }
                    if exists|k2: int| 0 <= k2 < k + 1 && #[trigger] fronts@[k2]@.contains(x as usize) {
                        let k2 = choose|k2: int| 0 <= k2 < k + 1 && #[trigger] fronts@[k2]@.contains(x as usize);
                        if k2 < k {
                            assert(added0.contains(x));
                        }
                    }
                }
            }
            k = k + 1;
        } else {
            let cd = crowding_distance(&fronts[k], cobjs);
            let order = crowding_order(&cd);
            let mut t: usize = 0;
            proof {
                assert forall|x: usize|
                    x < n implies (#[trigger] sel.contains(x) <==> ((exists|k2: int|
                        0 <= k2 < k && #[trigger] fronts@[k2]@.contains(x)) || exists|i: int|
                        0 <= i < t && #[trigger] fronts@[k as int]@[order@[i] as int] == x)) by {
                    assert(added.contains(x as int) <==> sel.contains((x as int) as usize));
                    assert(added.contains(x as int) <==> exists|k2: int|
                        0 <= k2 < k && #[trigger] fronts@[k2]@.contains((x as int) as usize));
                }
            }
            while new_pop.len() < pop_size
                invariant
                    n == combined@.len(),
                    n == cobjs@.len(),
                    nf == fronts@.len(),
                    k < nf,
                    m == fronts@[k as int]@.len(),
                    is_nd_sort(cobjs@, fronts@),
                    is_crowding_order(cd@, order@),
                    cd@.len() == m,
                    new_pop@.len() == new_objs@.len(),
                    new_pop@.len() <= pop_size,
                    new_pop@.len() + m - t > pop_size,
                    t <= m,
                    forall|i: int| 0 <= i < new_pop@.len() ==> drawn_from(#[trigger] new_pop@[i], new_objs@[i], combined@, cobjs@),
                    sel.len() == new_pop@.len(),
                    sel.no_duplicates(),
                    forall|i: int| 0 <= i < sel.len() ==> (#[trigger] sel[i]) < n,
                    forall|i: int|
                        0 <= i < sel.len() ==> (#[trigger] new_pop@[i]).genes@ == combined@[sel[i] as int].genes@
                            && new_objs@[i]@ == cobjs@[sel[i] as int]@,
                    forall|x: usize|
                        x < n ==> (#[trigger] sel.contains(x) <==> ((exists|k2: int|
                            0 <= k2 < k && #[trigger] fronts@[k2]@.contains(x)) || exists|i: int|
                            0 <= i < t && #[trigger] fronts@[k as int]@[order@[i] as int] == x)),
                    front_crowding(fronts@[k as int]@, cobjs@, cd@),
                decreases pop_size - new_pop@.len(),
            {
                let idx = fronts[k][order[t]];
                let ghost before_pop = new_pop@;
                let ghost before_objs = new_objs@;
                let ghost sel0 = sel;
                proof {
                    lemma_crowding_order_distinct(cd@, order@);
                    assert(fronts@[k as int]@.contains(idx));
                    assert(!sel0.contains(idx)) by {
                        assert(sel0.contains(idx) <==> ((exists|k2: int|
                            0 <= k2 < k && #[trigger] fronts@[k2]@.contains(idx)) || exists|i: int|
                            0 <= i < t && #[trigger] fronts@[k as int]@[order@[i] as int] == idx));
                        if sel0.contains(idx) {
                            if exists|k2: int| 0 <= k2 < k && #[trigger] fronts@[k2]@.contains(idx) {
                                let k2 = choose|k2: int| 0 <= k2 < k && #[trigger] fronts@[k2]@.contains(idx);
                            } else {
                                let i = choose|i: int| 0 <= i < t && #[trigger] fronts@[k as int]@[order@[i] as int] == idx;
                                assert(fronts@[k as int]@.no_duplicates());
                                assert(order@[i] != order@[t as int]);
                            }
                        }
                    }
                }
                new_pop.push(combined[idx].duplicate());
                let v = cobjs[idx].clone();
                assert(v@ =~= cobjs@[idx as int]@);
                new_objs.push(v);
                proof {
                    assert forall|i: int| 0 <= i < new_pop@.len() implies drawn_from(#[trigger] new_pop@[i], new_objs@[i], combined@, cobjs@) by {
                        if i < before_pop.len() {
                            assert(new_pop@[i] == before_pop[i]);
                            assert(new_objs@[i] == before_objs[i]);
                        } else {
                            assert(new_pop@[i].genes@ == combined@[idx as int].genes@);
                            assert(new_objs@[i]@ == cobjs@[idx as int]@);
                        }
                    }
                    sel = sel.push(idx);
                    assert(sel.no_duplicates()) by {
                        assert forall|a: int, b: int| 0 <= a < sel.len() && 0 <= b < sel.len() && a != b implies sel[a]
                            != sel[b] by {
                            if a == sel0.len() {
                                assert(sel[b] == sel0[b]);
                            } else if b == sel0.len() {
                                assert(sel[a] == sel0[a]);
                            }
                        }
                    }
                    assert forall|i: int|
                        0 <= i < sel.len() implies (#[trigger] new_pop@[i]).genes@ == combined@[sel[i] as int].genes@
                            && new_objs@[i]@ == cobjs@[sel[i] as int]@ by {
                        if i < sel0.len() {
                            assert(new_pop@[i] == before_pop[i]);
                            assert(new_objs@[i] == before_objs[i]);
                        }
                    }
                    assert forall|x: usize|
                        x < n implies (#[trigger] sel.contains(x) <==> ((exists|k2: int|
                            0 <= k2 < k && #[trigger] fronts@[k2]@.contains(x)) || exists|i: int|
                            0 <= i < t + 1 && #[trigger] fronts@[k as int]@[order@[i] as int] == x)) by {
                        assert(sel0.contains(x) <==> ((exists|k2: int|
                            0 <= k2 < k && #[trigger] fronts@[k2]@.contains(x)) || exists|i: int|
                            0 <= i < t && #[trigger] fronts@[k as int]@[order@[i] as int] == x));
                        if sel0.contains(x) {
                            let i = choose|i: int| 0 <= i < sel0.len() && sel0[i] == x;
                            assert(sel[i] == x);
                        }
                        if sel.contains(x) && x != idx {
                            let i = choose|i: int| 0 <= i < sel.len() && sel[i] == x;
                            assert(sel0[i] == x);
                        }
                        if x == idx {
                            assert(sel[sel0.len() as int] == idx);
                            assert(fronts@[k as int]@[order@[t as int] as int] == x);
                        }
                        if exists|i: int| 0 <= i < t + 1 && #[trigger] fronts@[k as int]@[order@[i] as int] == x {
                            let i = choose|i: int| 0 <= i < t + 1 && #[trigger] fronts@[k as int]@[order@[i] as int] == x;
                            if i == t {
                                assert(x == idx);
                            }
                        }
                    }
                }
                t = t + 1;
            }
            proof {
                lemma_cut_survivors(cobjs@, fronts@, sel, pop_size as nat, k as int, cd@, order@, t as int);
            }
            filled = true;
        }
    }
    proof {
        if !filled {
            // Every index was taken, so `n <= pop_size`.
            assert(set_int_range(0, n as int).subset_of(added)) by {
                assert forall|x: int| set_int_range(0, n as int).contains(x) implies added.contains(x) by {
                    assert(in_some_front(fronts@, x));
                    let k2 = choose|k2: int| 0 <= k2 < fronts@.len() && #[trigger] fronts@[k2]@.contains(x as usize);
                }
            }
            lemma_int_range(0, n as int);
            lemma_len_subset(set_int_range(0, n as int), added);
            assert(sel.len() == pop_size);
            assert forall|x: usize| x < n implies sel.contains(x) by {
                assert(set_int_range(0, n as int).contains(x as int));
                assert(added.contains(x as int));
            }
            lemma_all_survive(cobjs@, fronts@, sel, pop_size as nat);
        }
        assert(survivors(cobjs@, fronts@, sel, pop_size as nat));
    }
    (new_pop, new_objs)
}

/// Whether two objective vectors are equal.
fn same_objectives(a: &Vec<u64>, b: &Vec<u64>) -> (r: bool)
    ensures
        r == (a@ == b@),
{
    if a.len() != b.len() {
        return false;
    }
    let n = a.len();
    for i in 0..n
        invariant
            n == a@.len(),
            n == b@.len(),
            forall|j: int| 0 <= j < i ==> a@[j] == b@[j],
    {
        if a[i] != b[i] {
            return false;
        }
    }
    assert(a@ =~= b@);
    true
}

/// Some point of `front` has the objective vector `v`.
pub open spec fn front_has(front: Seq<ParetoPoint>, v: Seq<u64>) -> bool {
    exists|i: int| 0 <= i < front.len() && (#[trigger] front[i]).objectives@ == v
}

/// The Pareto front of a population: the non-dominated individuals (the
/// first front), sorted by the first objective (stably), with repeated
/// objective vectors dropped. Law: no individual of the population
/// dominates a front point, no front point dominates another, and the first
/// objective strictly increases along the front.
#[verifier::spinoff_prover]
pub fn pareto_front(pop: &Vec<Chromosome>, objs: &Vec<Vec<u64>>) -> (front: Vec<ParetoPoint>)
    requires
        pop@.len() == objs@.len(),
        objs@.len() > 0,
        bi_objective(objs@),
    ensures
        front@.len() > 0,
        forall|i: int|
            0 <= i < front@.len() ==> drawn_from((#[trigger] front@[i]).chrom, front@[i].objectives, pop@, objs@),
        forall|i: int| 0 <= i < front@.len() ==> (#[trigger] front@[i]).objectives@.len() == 2,
        forall|i: int, q: int|
            0 <= i < front@.len() && 0 <= q < objs@.len() ==> !dominates_spec(#[trigger] objs@[q]@, (#[trigger] front@[i]).objectives@),
        forall|i: int, j: int|
            0 <= i < front@.len() && 0 <= j < front@.len() ==> !dominates_spec(
                (#[trigger] front@[i]).objectives@,
                (#[trigger] front@[j]).objectives@,
            ),
        forall|i: int, j: int|
            0 <= i < j < front@.len() ==> (#[trigger] front@[i]).objectives@[0] < (#[trigger] front@[j]).objectives@[0],
        forall|q: int|
            0 <= q < objs@.len() && (forall|p: int| 0 <= p < objs@.len() ==> !#[trigger] dominates_spec(objs@[p]@, objs@[q]@))
                ==> #[trigger] front_has(front@, objs@[q]@),
{
    let fronts = non_dominated_sort(objs);
    let k = fronts[0].len();
    let mut keys: Vec<u64> = Vec::new();
    for j in 0..k
        invariant
            k == fronts@[0]@.len(),
            fronts@.len() > 0,
            is_nd_sort(objs@, fronts@),
            bi_objective(objs@),
            keys@.len() == j,
            forall|b: int| 0 <= b < j ==> #[trigger] keys@[b] == objs@[fronts@[0]@[b] as int]@[0],
    {
        keys.push(objs[fronts[0][j]][0]);
    }
    let order = fitness_order(&keys);
    proof {
        lemma_order_facts(keys@, order@);
    }
    let mut out: Vec<ParetoPoint> = Vec::new();
    for t in 0..k
        invariant
            k == fronts@[0]@.len(),
            fronts@.len() > 0,
            is_nd_sort(objs@, fronts@),
            bi_objective(objs@),
            pop@.len() == objs@.len(),
            keys@.len() == k,
            forall|b: int| 0 <= b < k ==> #[trigger] keys@[b] == objs@[fronts@[0]@[b] as int]@[0],
            is_fitness_order(keys@, order@),
            forall|i: int, j: int| 0 <= i <= j < k ==> keys@[#[trigger] order@[i] as int] <= keys@[#[trigger] order@[j] as int],
            t == 0 <==> out@.len() == 0,
            t > 0 ==> out@[out@.len() - 1].objectives@ == objs@[fronts@[0]@[order@[t - 1] as int] as int]@,
            forall|i: int|
                0 <= i < out@.len() ==> drawn_from((#[trigger] out@[i]).chrom, out@[i].objectives, pop@, objs@),
            forall|i: int| 0 <= i < out@.len() ==> (#[trigger] out@[i]).objectives@.len() == 2,
            forall|i: int, q: int|
                0 <= i < out@.len() && 0 <= q < objs@.len() ==> !dominates_spec(#[trigger] objs@[q]@, (#[trigger] out@[i]).objectives@),
            forall|i: int, j: int|
                0 <= i < j < out@.len() ==> (#[trigger] out@[i]).objectives@[0] < (#[trigger] out@[j]).objectives@[0],
            forall|t2: int| 0 <= t2 < t ==> #[trigger] front_has(out@, objs@[fronts@[0]@[order@[t2] as int] as int]@),
    {
        let a = fronts[0][order[t]];
        proof {
            assert(fronts@[0]@.contains(a));
            lemma_first_front(objs@, fronts@, a);
        }
        let skip = if out.len() > 0 {
            same_objectives(&out[out.len() - 1].objectives, &objs[a])
        } else {
            false
        };
        let ghost before_out = out@;
        if !skip {
            proof {
                if t > 0 {
                    let b = fronts@[0]@[order@[t - 1] as int];
                    assert(fronts@[0]@.contains(b));
                    lemma_front_nondominated(objs@, fronts@, 0, a, b);
                    lemma_front_nondominated(objs@, fronts@, 0, b, a);
                    assert(keys@[order@[t - 1] as int] <= keys@[order@[t as int] as int]);
                    let va = objs@[a as int]@;
                    let vb = objs@[b as int]@;
                    if vb[0] == va[0] {
                        if vb[1] < va[1] {
                            assert(dominates_spec(vb, va));
                        } else if va[1] < vb[1] {
                            assert(dominates_spec(va, vb));
                        } else {
                            assert(va =~= vb);
                        }
                    }
                }
            }
            let ghost before = out@;
            let v = objs[a].clone();
            assert(v@ =~= objs@[a as int]@);
            out.push(ParetoPoint { chrom: pop[a].duplicate(), objectives: v });
            proof {
                assert forall|i: int|
                    0 <= i < out@.len() implies drawn_from((#[trigger] out@[i]).chrom, out@[i].objectives, pop@, objs@) by {
                    if i < before.len() {
                        assert(out@[i] == before[i]);
                    } else {
                        assert(out@[i].chrom.genes@ == pop@[a as int].genes@);
                    }
                }
                assert forall|i: int, j: int|
                    0 <= i < j < out@.len() implies (#[trigger] out@[i]).objectives@[0] < (#[trigger] out@[j]).objectives@[0] by {
                    if j < before.len() {
                        assert(out@[i] == before[i] && out@[j] == before[j]);
                    } else if i < before.len() - 1 {
                        assert(out@[i] == before[i]);
                        assert(before[i].objectives@[0] < before[before.len() - 1].objectives@[0]);
                    } else {
                        assert(out@[i] == before[i]);
                    }
                }
                assert forall|i: int, q: int|
                    0 <= i < out@.len() && 0 <= q < objs@.len() implies !dominates_spec(
                        #[trigger] objs@[q]@,
                        (#[trigger] out@[i]).objectives@,
                    ) by {
                    if i < before.len() {
                        assert(out@[i] == before[i]);
                    } else {
                        assert(!dom(objs@, q, a as int));
                    }
                }
            }
        }
        proof {
            assert forall|t2: int| 0 <= t2 < t + 1 implies #[trigger] front_has(
                out@,
                objs@[fronts@[0]@[order@[t2] as int] as int]@,
            ) by {
                let v = objs@[fronts@[0]@[order@[t2] as int] as int]@;
                if t2 < t {
                    assert(front_has(before_out, v));
                    let i = choose|i: int| 0 <= i < before_out.len() && (#[trigger] before_out[i]).objectives@ == v;
                    assert(out@[i] == before_out[i]);
                } else if skip {
                    assert(out@[out@.len() - 1].objectives@ == v);
                } else {
                    assert(out@[out@.len() - 1].objectives@ == v);
                }
            }
        }
    }
    proof {
        assert forall|i: int, j: int|
            0 <= i < out@.len() && 0 <= j < out@.len() implies !dominates_spec(
                (#[trigger] out@[i]).objectives@,
                (#[trigger] out@[j]).objectives@,
            ) by {
            let s = choose|s: int|
                0 <= s < pop@.len() && out@[i].chrom.genes@ == pop@[s].genes@ && out@[i].objectives@ == objs@[s]@;
            assert(!dominates_spec(objs@[s]@, out@[j].objectives@));
        }
        assert forall|q: int|
            0 <= q < objs@.len() && (forall|p: int| 0 <= p < objs@.len() ==> !#[trigger] dominates_spec(
                objs@[p]@,
                objs@[q]@,
            )) implies #[trigger] front_has(out@, objs@[q]@) by {
            assert forall|p: int| 0 <= p < objs@.len() implies !#[trigger] dom(objs@, p, q) by {
                assert(!dominates_spec(objs@[p]@, objs@[q]@));
            }
            assert(objs.len() == objs@.len());
            let qu = q as usize;
            assert(qu as int == q);
            lemma_first_front(objs@, fronts@, qu);
            assert(forall|p: int| 0 <= p < objs@.len() ==> !#[trigger] dom(objs@, p, qu as int));
            assert(fronts@[0]@.contains(qu));
            let j = choose|j: int| 0 <= j < fronts@[0]@.len() && fronts@[0]@[j] == q as usize;
            assert(order@.len() == k);
            lemma_order_covers(keys@, order@, j);
            let t2 = choose|t2: int| 0 <= t2 < order@.len() && #[trigger] order@[t2] == j;
            assert(front_has(out@, objs@[fronts@[0]@[order@[t2] as int] as int]@));
        }
    }
    out
}

/// The oracle gives two objectives for every valid chromosome.
pub open spec fn two_objectives<O: Oracle>(oracle: O, space: Seq<usize>) -> bool {
    forall|g: Seq<u8>| valid_genes(g, space) ==> (#[trigger] oracle.objective_values(g)).len() == 2
}

/// A static oracle scores every chromosome by its gate count and LDE size,
/// so it always has two objectives.
pub proof fn lemma_static_two_objectives<F: CircuitFactory>(oracle: StaticOracle<F>, space: Seq<usize>)
    ensures
        two_objectives(oracle, space),
{
}

/// `pop` is a population of `n` valid chromosomes and `objs` their objective
/// vectors.
pub open spec fn scored_population<O: Oracle>(
    pop: Seq<Chromosome>,
    objs: Seq<Vec<u64>>,
    space: Seq<usize>,
    oracle: O,
    n: nat,
) -> bool {
    &&& pop.len() == n
    &&& objs.len() == n
    &&& all_valid(pop, space)
    &&& forall|i: int| 0 <= i < n ==> (#[trigger] objs[i])@ == oracle.objective_values(pop[i].genes@)
}

/// `rec` records the first front of some population of `n` valid
/// chromosomes, against the reference point `(r0, r1)`.
pub open spec fn hv_recorded<O: Oracle>(rec: HvRecord, space: Seq<usize>, oracle: O, n: nat, r0: int, r1: int) -> bool {
    exists|pop: Seq<Chromosome>, objs: Seq<Vec<u64>>|
        #[trigger] scored_population(pop, objs, space, oracle, n) && records_front(rec, objs, r0, r1)
}

/// `(r0, r1)` is the reference point of some population of `n` valid
/// chromosomes: 1.1 times the largest value of each objective plus 1, in
/// tenths.
pub open spec fn population_reference<O: Oracle>(space: Seq<usize>, oracle: O, n: nat, r0: int, r1: int) -> bool {
    exists|pop: Seq<Chromosome>, objs: Seq<Vec<u64>>|
        #[trigger] scored_population(pop, objs, space, oracle, n) && r0 == 11 * max_component(objs, 0, n) + 10 && r1
            == 11 * max_component(objs, 1, n) + 10
}

/// `front` is the Pareto front of the population scored by `objs`: no member
/// dominates a front point, and every member that no member dominates has
/// its objective vector on the front.
pub open spec fn is_front_of(front: Seq<ParetoPoint>, objs: Seq<Vec<u64>>) -> bool {
    &&& forall|i: int, q: int|
        0 <= i < front.len() && 0 <= q < objs.len() ==> !dominates_spec(#[trigger] objs[q]@, (#[trigger] front[i]).objectives@)
    &&& forall|q: int|
        0 <= q < objs.len() && (forall|p: int| 0 <= p < objs.len() ==> !#[trigger] dominates_spec(objs[p]@, objs[q]@))
            ==> #[trigger] front_has(front, objs[q]@)
}

/// The gene sequences of a population.
pub open spec fn genes_of(pop: Seq<Chromosome>) -> Seq<Seq<u8>> {
    pop.map_values(|c: Chromosome| c.genes@)
}

/// `gs` are `n` valid gene sequences and `objs` their objective vectors.
pub open spec fn scored_genes<O: Oracle>(
    gs: Seq<Seq<u8>>,
    objs: Seq<Vec<u64>>,
    space: Seq<usize>,
    oracle: O,
    n: nat,
) -> bool {
    &&& gs.len() == n
    &&& objs.len() == n
    &&& forall|i: int| 0 <= i < n ==> valid_genes(#[trigger] gs[i], space) && objs[i]@ == oracle.objective_values(gs[i])
}

/// The parts of one (μ+λ) step: `cg`/`co` are the parents followed by `n`
/// scored offspring, and the next population is the selection `sel` of
/// them.
pub open spec fn step_parts<O: Oracle>(
    prev_g: Seq<Seq<u8>>,
    prev_o: Seq<Vec<u64>>,
    next_g: Seq<Seq<u8>>,
    next_o: Seq<Vec<u64>>,
    cg: Seq<Seq<u8>>,
    co: Seq<Vec<u64>>,
    sel: Seq<usize>,
    space: Seq<usize>,
    oracle: O,
    n: nat,
) -> bool {
    &&& prev_g.len() == n && prev_o.len() == n && next_g.len() == n && next_o.len() == n
    &&& cg.len() == 2 * n && co.len() == 2 * n
    &&& forall|j: int| 0 <= j < n ==> #[trigger] cg[j] == prev_g[j] && co[j]@ == prev_o[j]@
    &&& forall|j: int|
        n <= j < 2 * n ==> valid_genes(#[trigger] cg[j], space) && co[j]@ == oracle.objective_values(cg[j])
    &&& forall|i: int| 0 <= i < n ==> #[trigger] next_g[i] == cg[sel[i] as int] && next_o[i]@ == co[sel[i] as int]@
}

/// The next population is the survivor selection ([`survivors`]) of the
/// previous one together with `n` scored offspring.
pub open spec fn survivor_step<O: Oracle>(
    prev_g: Seq<Seq<u8>>,
    prev_o: Seq<Vec<u64>>,
    next_g: Seq<Seq<u8>>,
    next_o: Seq<Vec<u64>>,
    space: Seq<usize>,
    oracle: O,
    n: nat,
) -> bool {
    exists|cg: Seq<Seq<u8>>, co: Seq<Vec<u64>>, fronts: Seq<Vec<usize>>, sel: Seq<usize>|
        #![trigger survivors(co, fronts, sel, n), step_parts(prev_g, prev_o, next_g, next_o, cg, co, sel, space, oracle, n)]
        survivors(co, fronts, sel, n) && step_parts(prev_g, prev_o, next_g, next_o, cg, co, sel, space, oracle, n)
}

/// The populations `pg`/`po` of a run, one per history record: each scored,
/// each after the first the survivor selection of its predecessor and
/// offspring, each record that of its population's first front, against
/// the reference point `(r0, r1)` of the first population.
pub open spec fn evolution<O: Oracle>(
    pg: Seq<Seq<Seq<u8>>>,
    po: Seq<Seq<Vec<u64>>>,
    r0: int,
    r1: int,
    history: Seq<HvRecord>,
    space: Seq<usize>,
    oracle: O,
    n: nat,
) -> bool {
    &&& history.len() >= 1 && pg.len() == history.len() && po.len() == history.len()
    &&& forall|g: int| 0 <= g < pg.len() ==> scored_genes(#[trigger] pg[g], po[g], space, oracle, n)
    &&& r0 == 11 * max_component(po[0], 0, n) + 10
    &&& r1 == 11 * max_component(po[0], 1, n) + 10
    &&& forall|g: int| 0 <= g < history.len() ==> records_front(#[trigger] history[g], po[g], r0, r1)
    &&& forall|g: int|
        0 <= g < history.len() - 1 ==> #[trigger] survivor_step(pg[g], po[g], pg[g + 1], po[g + 1], space, oracle, n)
}

/// `offs` holds, for each step of a run with populations `pg`, the `n` valid
/// offspring bred in it, and every member of the next population is a
/// member of the previous one or one of those offspring. Without mutation
/// the offspring hold no allele their parents lacked; without mutation and
/// crossover they are copies of their parents.
pub open spec fn bred(
    pg: Seq<Seq<Seq<u8>>>,
    offs: Seq<Seq<Seq<u8>>>,
    space: Seq<usize>,
    n: nat,
    mutation_rate: u64,
    crossover_rate: u64,
) -> bool {
    &&& offs.len() + 1 == pg.len()
    &&& forall|g: int| 0 <= g < offs.len() ==> (#[trigger] offs[g]).len() == n
    &&& forall|g: int, i: int| 0 <= g < offs.len() && 0 <= i < n ==> valid_genes(#[trigger] offs[g][i], space)
    &&& forall|g: int, i: int|
        0 <= g < offs.len() && 0 <= i < pg[g + 1].len() ==> (pg[g] + offs[g]).contains(#[trigger] pg[g + 1][i])
    &&& mutation_rate == 0 ==> forall|g: int| 0 <= g < offs.len() ==> #[trigger] alleles_inherited(pg[g], offs[g])
    &&& mutation_rate == 0 && crossover_rate == 0 ==> forall|g: int|
        0 <= g < offs.len() ==> #[trigger] copies_of(pg[g], offs[g])
}

/// Run NSGA-II.
///
/// The returned front is the Pareto front of the final population (see
/// [`pareto_front`]); the history has one hypervolume record per generation
/// plus the initial one, against a reference point fixed from the initial
/// population. The oracle is asked about exactly the initial population and
/// the offspring bred in each generation ([`bred`]).
#[verifier::spinoff_prover]
pub fn run<O: Oracle>(space: &[usize], cfg: &Nsga2Config, oracle: &mut O, rng: &mut ChaCha8Rng) -> (out:
    Nsga2Outcome)
    requires
        accepts_space(*old(oracle), space@),
        cfg.pop_size >= 1,
        sampleable(space@),
        two_objectives(*old(oracle), space@),
    ensures
        out.history@.len() == cfg.generations + 1,
        final(oracle).queries() == old(oracle).queries() + cfg.pop_size * (cfg.generations + 1),
        forall|g: int| 0 <= g < out.history@.len() ==> (#[trigger] out.history@[g]).front_size > 0,
        out.history@.last().evaluations == final(oracle).evaluation_count(),
        exists|r0: int, r1: int|
            #[trigger] population_reference(space@, *old(oracle), cfg.pop_size as nat, r0, r1) && forall|g: int|
                0 <= g < out.history@.len() ==> hv_recorded(
                    #[trigger] out.history@[g],
                    space@,
                    *old(oracle),
                    cfg.pop_size as nat,
                    r0,
                    r1,
                ),
        out.front@.len() > 0,
        exists|pg: Seq<Seq<Seq<u8>>>, po: Seq<Seq<Vec<u64>>>, offs: Seq<Seq<Seq<u8>>>, r0: int, r1: int|
            #![trigger evolution(pg, po, r0, r1, out.history@, space@, *old(oracle), cfg.pop_size as nat), bred(pg, offs, space@, cfg.pop_size as nat, cfg.mutation_rate, cfg.crossover_rate)]
            evolution(pg, po, r0, r1, out.history@, space@, *old(oracle), cfg.pop_size as nat) && is_front_of(
                out.front@,
                po.last(),
            ) && bred(pg, offs, space@, cfg.pop_size as nat, cfg.mutation_rate, cfg.crossover_rate) && final(oracle).evaluated() == old(oracle).evaluated()
                + pg[0].to_set() + all_members(offs) && forall|g: int|
                0 <= g < out.history@.len() ==> (#[trigger] out.history@[g]).evaluations == (old(oracle).evaluated()
                    + pg[0].to_set() + all_members(offs.take(g))).len(),
        exists|pop: Seq<Chromosome>, objs: Seq<Vec<u64>>|
            #[trigger] scored_population(pop, objs, space@, *old(oracle), cfg.pop_size as nat) && is_front_of(
                out.front@,
                objs,
            ),
        forall|i: int|
            0 <= i < out.front@.len() ==> valid_genes((#[trigger] out.front@[i]).chrom.genes@, space@)
                && out.front@[i].objectives@ == old(oracle).objective_values(out.front@[i].chrom.genes@),
        forall|i: int, j: int|
            0 <= i < out.front@.len() && 0 <= j < out.front@.len() ==> !dominates_spec(
                (#[trigger] out.front@[i]).objectives@,
                (#[trigger] out.front@[j]).objectives@,
            ),
        forall|i: int, j: int|
            0 <= i < j < out.front@.len() ==> (#[trigger] out.front@[i]).objectives@[0] < (
            #[trigger] out.front@[j]).objectives@[0],
        forall|g: Seq<u8>| #[trigger] final(oracle).fitness(g) == old(oracle).fitness(g),
        forall|g: Seq<u8>| #[trigger] final(oracle).accepts(g) == old(oracle).accepts(g),
        forall|g: Seq<u8>| #[trigger] final(oracle).objective_values(g) == old(oracle).objective_values(g),
{
    let ghost o0 = *oracle;
    let pop_size = cfg.pop_size;
    let mut pop: Vec<Chromosome> = Vec::new();
    for t in 0..pop_size
        invariant
            pop@.len() == t,
            sampleable(space@),
            all_valid(pop@, space@),
    {
        pop.push(Chromosome::random(space, rng));
    }
    let mut objs = objectives_of(&pop, oracle);
    proof {
        assert forall|a: int| 0 <= a < objs@.len() implies (#[trigger] objs@[a])@.len() == 2 by {
            assert(valid_genes(pop@[a].genes@, space@));
        }
    }
    let (r0, r1) = reference_point(&objs);
    let mut history: Vec<HvRecord> = Vec::new();
    let first = hv_record(oracle.evaluations(), &objs, r0, r1);
    history.push(first);
    proof {
        assert(scored_population(pop@, objs@, space@, o0, pop_size as nat));
        assert(population_reference(space@, o0, pop_size as nat, r0 as int, r1 as int));
        assert(hv_recorded(history@[0], space@, o0, pop_size as nat, r0 as int, r1 as int));
    }
    let ghost mut pg: Seq<Seq<Seq<u8>>> = seq![genes_of(pop@)];
    let ghost mut po: Seq<Seq<Vec<u64>>> = seq![objs@];
    proof {
        assert(scored_genes(genes_of(pop@), objs@, space@, o0, pop_size as nat)) by {
            assert forall|i: int| 0 <= i < pop_size implies valid_genes(#[trigger] genes_of(pop@)[i], space@)
                && objs@[i]@ == o0.objective_values(genes_of(pop@)[i]) by {
                assert(genes_of(pop@)[i] == pop@[i].genes@);
            }
        }
        assert(evolution(pg, po, r0 as int, r1 as int, history@, space@, o0, pop_size as nat));
    }
    let ghost mut offs: Seq<Seq<Seq<u8>>> = Seq::empty();
    proof {
        assert(all_members(offs) == Set::<Seq<u8>>::empty());
        assert(oracle.evaluated() =~= o0.evaluated() + pg[0].to_set() + all_members(offs));
        assert(offs.take(0) =~= offs);
        assert(bred(pg, offs, space@, pop_size as nat, cfg.mutation_rate, cfg.crossover_rate));
    }
    for generation in 0..cfg.generations
        invariant
            pop_size == cfg.pop_size,
            pop_size >= 1,
            sampleable(space@),
            two_objectives(o0, space@),
            pop@.len() == pop_size,
            objs@.len() == pop_size,
            all_valid(pop@, space@),
            forall|i: int| 0 <= i < pop_size ==> (#[trigger] objs@[i])@ == o0.objective_values(pop@[i].genes@),
            bi_objective(objs@),
            history@.len() == generation + 1,
            oracle.queries() == o0.queries() + pop_size * (generation + 1),
            forall|g: int| 0 <= g < history@.len() ==> (#[trigger] history@[g]).front_size > 0,
            history@.last().evaluations == oracle.evaluation_count(),
            evolution(pg, po, r0 as int, r1 as int, history@, space@, o0, pop_size as nat),
            pg.last() == genes_of(pop@),
            po.last() == objs@,
            bred(pg, offs, space@, pop_size as nat, cfg.mutation_rate, cfg.crossover_rate),
            oracle.evaluated() == o0.evaluated() + pg[0].to_set() + all_members(offs),
            forall|g: int|
                0 <= g < history@.len() ==> (#[trigger] history@[g]).evaluations == (o0.evaluated() + pg[0].to_set()
                    + all_members(offs.take(g))).len(),
            population_reference(space@, o0, pop_size as nat, r0 as int, r1 as int),
            forall|g: int|
                0 <= g < history@.len() ==> hv_recorded(
                    #[trigger] history@[g],
                    space@,
                    o0,
                    pop_size as nat,
                    r0 as int,
                    r1 as int,
                ),
            forall|g: Seq<u8>| #[trigger] oracle.fitness(g) == o0.fitness(g),
            forall|g: Seq<u8>| #[trigger] oracle.accepts(g) == o0.accepts(g),
            accepts_space(o0, space@),
            forall|g: Seq<u8>| #[trigger] oracle.objective_values(g) == o0.objective_values(g),
    {
        // Ranks and crowding for the current population (for selection).
        let fronts = non_dominated_sort(&objs);
        let (rank, crowd) = assign_rank_crowding(&objs, &fronts);
        let offspring = make_offspring(space, &pop, &rank, &crowd, cfg, rng);
        let offspring_objs = objectives_of(&offspring, oracle);
        // (μ+λ) elitist merge.
        let mut combined: Vec<Chromosome> = Vec::new();
        let mut combined_objs: Vec<Vec<u64>> = Vec::new();
        for i in 0..pop_size
            invariant
                pop@.len() == pop_size,
                objs@.len() == pop_size,
                combined@.len() == i,
                combined_objs@.len() == i,
                forall|j: int| 0 <= j < i ==> (#[trigger] combined@[j]).genes@ == pop@[j].genes@,
                forall|j: int| 0 <= j < i ==> (#[trigger] combined_objs@[j])@ == objs@[j]@,
        {
            combined.push(pop[i].duplicate());
            let v = objs[i].clone();
            assert(v@ =~= objs@[i as int]@);
            combined_objs.push(v);
        }
        for i in 0..pop_size
            invariant
                offspring@.len() == pop_size,
                offspring_objs@.len() == pop_size,
                combined@.len() == pop_size + i,
                combined_objs@.len() == pop_size + i,
                forall|j: int| 0 <= j < pop_size ==> (#[trigger] combined@[j]).genes@ == pop@[j].genes@,
                forall|j: int| 0 <= j < pop_size ==> (#[trigger] combined_objs@[j])@ == objs@[j]@,
                forall|j: int| 0 <= j < i ==> (#[trigger] combined@[pop_size + j]).genes@ == offspring@[j].genes@,
                forall|j: int| 0 <= j < i ==> (#[trigger] combined_objs@[pop_size + j])@ == offspring_objs@[j]@,
        {
            combined.push(offspring[i].duplicate());
            let v = offspring_objs[i].clone();
            assert(v@ =~= offspring_objs@[i as int]@);
            combined_objs.push(v);
        }
        proof {
            assert forall|j: int| 0 <= j < combined@.len() implies valid_genes((#[trigger] combined@[j]).genes@, space@)
                && combined_objs@[j]@ == o0.objective_values(combined@[j].genes@) by {
                if j >= pop_size {
                    let k = j - pop_size;
                    assert(combined@[pop_size + k].genes@ == offspring@[k].genes@);
                    assert(valid_genes(offspring@[k].genes@, space@));
                    assert(combined_objs@[pop_size + k]@ == offspring_objs@[k]@);
                } else {
                    assert(valid_genes(pop@[j].genes@, space@));
                }
            }
            assert forall|a: int| 0 <= a < combined_objs@.len() implies (#[trigger] combined_objs@[a])@.len() == 2 by {
                assert(valid_genes(combined@[a].genes@, space@));
            }
        }
        let (new_pop, new_objs) = select_survivors(&combined, &combined_objs, pop_size);
        let ghost step_ok = survivor_step(
            genes_of(pop@),
            objs@,
            genes_of(new_pop@),
            new_objs@,
            space@,
            o0,
            pop_size as nat,
        );
        proof {
            let n = pop_size as nat;
            let (fr, sl) = choose|fronts: Seq<Vec<usize>>, sel: Seq<usize>|
                #[trigger] survivors(combined_objs@, fronts, sel, n) && forall|i: int|
                    0 <= i < pop_size ==> (#[trigger] new_pop@[i]).genes@ == combined@[sel[i] as int].genes@
                        && new_objs@[i]@ == combined_objs@[sel[i] as int]@;
            let cg = genes_of(combined@);
            assert(step_parts(genes_of(pop@), objs@, genes_of(new_pop@), new_objs@, cg, combined_objs@, sl, space@, o0, n))
                by {
                assert forall|j: int| 0 <= j < n implies #[trigger] cg[j] == genes_of(pop@)[j] && combined_objs@[j]@
                    == objs@[j]@ by {
                    assert(cg[j] == combined@[j].genes@);
                }
                assert forall|j: int| n <= j < 2 * n implies valid_genes(#[trigger] cg[j], space@)
                    && combined_objs@[j]@ == o0.objective_values(cg[j]) by {
                    assert(cg[j] == combined@[j].genes@);
                }
                assert forall|i: int| 0 <= i < n implies #[trigger] genes_of(new_pop@)[i] == cg[sl[i] as int]
                    && new_objs@[i]@ == combined_objs@[sl[i] as int]@ by {
                    assert(genes_of(new_pop@)[i] == new_pop@[i].genes@);
                    assert(sl[i] < combined@.len());
                    assert(cg[sl[i] as int] == combined@[sl[i] as int].genes@);
                }
            }
            assert(survivors(combined_objs@, fr, sl, n));
            assert(step_ok);
        }
        proof {
            assert forall|i: int| 0 <= i < pop_size implies valid_genes((#[trigger] new_pop@[i]).genes@, space@)
                && new_objs@[i]@ == o0.objective_values(new_pop@[i].genes@) by {
                assert(drawn_from(new_pop@[i], new_objs@[i], combined@, combined_objs@));
                let s = choose|s: int|
                    0 <= s < combined@.len() && new_pop@[i].genes@ == combined@[s].genes@ && new_objs@[i]@
                        == combined_objs@[s]@;
                assert(valid_genes(combined@[s].genes@, space@));
            }
            assert forall|a: int| 0 <= a < new_objs@.len() implies (#[trigger] new_objs@[a])@.len() == 2 by {
                assert(valid_genes(new_pop@[a].genes@, space@));
            }
        }
        proof {
            let cgs = genes_of(pop@) + genes_of(offspring@);
            assert forall|i: int| 0 <= i < genes_of(new_pop@).len() implies cgs.contains(#[trigger] genes_of(new_pop@)[i]) by {
                assert(genes_of(new_pop@)[i] == new_pop@[i].genes@);
                assert(drawn_from(new_pop@[i], new_objs@[i], combined@, combined_objs@));
                let s = choose|s: int|
                    0 <= s < combined@.len() && new_pop@[i].genes@ == combined@[s].genes@ && new_objs@[i]@
                        == combined_objs@[s]@;
                if s < pop_size {
                    assert(cgs[s] == genes_of(pop@)[s]);
                    assert(genes_of(pop@)[s] == pop@[s].genes@);
                } else {
                    let k = s - pop_size;
                    assert(combined@[pop_size + k].genes@ == offspring@[k].genes@);
                    assert(cgs[s] == genes_of(offspring@)[k]);
                    assert(genes_of(offspring@)[k] == offspring@[k].genes@);
                }
                assert(cgs[s] == genes_of(new_pop@)[i]);
            }
        }
        let ghost off_genes = genes_of(offspring@);
        pop = new_pop;
        objs = new_objs;
        let rec = hv_record(oracle.evaluations(), &objs, r0, r1);
        let ghost before = history@;
        history.push(rec);
        proof {
            assert(pop_size * (generation + 1) + pop_size == pop_size * (generation + 2)) by (nonlinear_arith);
        }
        proof {
            let pg0 = pg;
            let po0 = po;
            let offs0 = offs;
            pg = pg.push(genes_of(pop@));
            po = po.push(objs@);
            offs = offs.push(off_genes);
            assert(offs.drop_last() =~= offs0);
            assert(pg[0] == pg0[0]);
            assert(oracle.evaluated() =~= o0.evaluated() + pg[0].to_set() + all_members(offs));
            assert forall|g: int| 0 <= g < history@.len() implies (#[trigger] history@[g]).evaluations == (o0.evaluated()
                + pg[0].to_set() + all_members(offs.take(g))).len() by {
                if g < before.len() {
                    assert(history@[g] == before[g]);
                    assert(offs.take(g) =~= offs0.take(g));
                } else {
                    assert(offs.take(g) =~= offs);
                }
            }
            assert(bred(pg, offs, space@, pop_size as nat, cfg.mutation_rate, cfg.crossover_rate)) by {
                assert forall|g: int| 0 <= g < offs.len() implies (#[trigger] offs[g]).len() == pop_size as nat by {
                    if g < offs0.len() {
                        assert(offs[g] == offs0[g]);
                    }
                }
                assert forall|g: int, i: int| 0 <= g < offs.len() && 0 <= i < pop_size as nat implies valid_genes(
                    #[trigger] offs[g][i],
                    space@,
                ) by {
                    if g < offs0.len() {
                        assert(offs[g] == offs0[g]);
                    } else {
                        assert(offs[g][i] == offspring@[i].genes@);
                    }
                }
                assert forall|g: int, i: int| 0 <= g < offs.len() && 0 <= i < pg[g + 1].len() implies (pg[g]
                    + offs[g]).contains(#[trigger] pg[g + 1][i]) by {
                    if g < offs0.len() {
                        assert(offs[g] == offs0[g] && pg[g] == pg0[g] && pg[g + 1] == pg0[g + 1]);
                    } else {
                        assert(offs[g] == off_genes && pg[g] == pg0.last() && pg[g + 1] == genes_of(pop@));
                    }
                }
                if cfg.mutation_rate == 0 {
                    assert forall|g: int| 0 <= g < offs.len() implies #[trigger] alleles_inherited(pg[g], offs[g]) by {
                        if g < offs0.len() {
                            assert(offs[g] == offs0[g] && pg[g] == pg0[g]);
                        } else {
                            assert(offs[g] == off_genes && pg[g] == pg0.last());
                        }
                    }
                    if cfg.crossover_rate == 0 {
                        assert forall|g: int| 0 <= g < offs.len() implies #[trigger] copies_of(pg[g], offs[g]) by {
                            if g < offs0.len() {
                                assert(offs[g] == offs0[g] && pg[g] == pg0[g]);
                            } else {
                                assert(offs[g] == off_genes && pg[g] == pg0.last());
                            }
                        }
                    }
                }
            }
            assert(scored_genes(genes_of(pop@), objs@, space@, o0, pop_size as nat)) by {
                assert forall|i: int| 0 <= i < pop_size implies valid_genes(#[trigger] genes_of(pop@)[i], space@)
                    && objs@[i]@ == o0.objective_values(genes_of(pop@)[i]) by {
                    assert(genes_of(pop@)[i] == pop@[i].genes@);
                }
            }
            assert(evolution(pg, po, r0 as int, r1 as int, history@, space@, o0, pop_size as nat)) by {
                assert forall|g: int| 0 <= g < pg.len() implies scored_genes(#[trigger] pg[g], po[g], space@, o0, pop_size as nat) by {
                    if g < pg0.len() {
                        assert(pg[g] == pg0[g]);
                        assert(po[g] == po0[g]);
                    }
                }
                assert(po[0] == po0[0]);
                assert forall|g: int| 0 <= g < history@.len() implies records_front(#[trigger] history@[g], po[g], r0 as int, r1 as int) by {
                    if g < before.len() {
                        assert(history@[g] == before[g]);
                        assert(po[g] == po0[g]);
                    }
                }
                assert forall|g: int|
                    0 <= g < history@.len() - 1 implies #[trigger] survivor_step(pg[g], po[g], pg[g + 1], po[g + 1], space@, o0, pop_size as nat) by {
                    if g < before.len() - 1 {
                        assert(pg[g] == pg0[g] && pg[g + 1] == pg0[g + 1]);
                        assert(po[g] == po0[g] && po[g + 1] == po0[g + 1]);
                    } else {
                        assert(pg[g] == pg0.last());
                        assert(po[g] == po0.last());
                    }
                }
            }
        }
        proof {
            assert forall|g: int| 0 <= g < history@.len() implies (#[trigger] history@[g]).front_size > 0 by {
                if g < before.len() {
                    assert(history@[g] == before[g]);
                }
            }
            assert(scored_population(pop@, objs@, space@, o0, pop_size as nat));
            assert forall|g: int|
                0 <= g < history@.len() implies hv_recorded(
                    #[trigger] history@[g],
                    space@,
                    o0,
                    pop_size as nat,
                    r0 as int,
                    r1 as int,
                ) by {
                if g < before.len() {
                    assert(history@[g] == before[g]);
                }
            }
        }
    }
    let front = pareto_front(&pop, &objs);
    proof {
        assert(scored_population(pop@, objs@, space@, o0, pop_size as nat));
        assert(is_front_of(front@, objs@));
        assert(evolution(pg, po, r0 as int, r1 as int, history@, space@, o0, pop_size as nat));
        assert(is_front_of(front@, po.last()));
        assert(evolution(pg, po, r0 as int, r1 as int, history@, space@, *old(oracle), pop_size as nat)
            && is_front_of(front@, po.last()));
        assert forall|i: int|
            0 <= i < front@.len() implies valid_genes((#[trigger] front@[i]).chrom.genes@, space@)
                && front@[i].objectives@ == old(oracle).objective_values(front@[i].chrom.genes@) by {
            assert(drawn_from(front@[i].chrom, front@[i].objectives, pop@, objs@));
            let s = choose|s: int|
                0 <= s < pop@.len() && front@[i].chrom.genes@ == pop@[s].genes@ && front@[i].objectives@
                    == objs@[s]@;
            assert(valid_genes(pop@[s].genes@, space@));
        }
    }
    let out = Nsga2Outcome { front, history };
    proof {
        assert(out.history@ == history@);
        assert(pop_size == cfg.pop_size);
        assert(evolution(pg, po, r0 as int, r1 as int, out.history@, space@, *old(oracle), cfg.pop_size as nat));
        assert(is_front_of(out.front@, po.last()));
        assert(bred(pg, offs, space@, cfg.pop_size as nat, cfg.mutation_rate, cfg.crossover_rate));
    }
    out
}

} // verus!
