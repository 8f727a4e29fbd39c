//! Strategy encoding and search-space utilities.
//!
//! A [`Chromosome`] is a fixed-length vector of small integers; gene `i`
//! selects one of `space[i]` mathematically-equivalent implementation
//! strategies for the `i`-th sub-computation of a circuit.
use vstd::prelude::*;
use rand_chacha::ChaCha8Rng;
use crate::rng::Draws;

verus! {

/// A point in the strategy search space.
///
/// Genes are stored as `u8` because every strategy axis has fewer than 256
/// alternatives. Two chromosomes are equal iff their genes are identical.
#[derive(Clone, Debug, PartialEq, Eq, Hash)]
pub struct Chromosome {
    pub genes: Vec<u8>,
}

/// `genes` is a valid point of `space`: one gene per axis, each below that
/// axis' cardinality.
pub open spec fn valid_genes(genes: Seq<u8>, space: Seq<usize>) -> bool {
    &&& genes.len() == space.len()
    &&& forall|i: int| 0 <= i < genes.len() ==> (#[trigger] genes[i]) < space[i]
}

/// The cardinality of an axis as seen through a `u8` (values wrap at 256).
pub open spec fn card_u8(card: usize) -> nat {
    (card % 256) as nat
}

/// The single-gene neighbours that change gene `i` to one of the values
/// `0..v`, in increasing order of the new value.
pub open spec fn neighbor_row(g: Seq<u8>, i: int, v: nat) -> Seq<Seq<u8>>
    decreases v,
{
    if v == 0 {
        Seq::empty()
    } else {
        let prev = neighbor_row(g, i, (v - 1) as nat);
        if (v - 1) == g[i] {
            prev
        } else {
            prev.push(g.update(i, (v - 1) as u8))
        }
    }
}

/// All chromosomes that differ from `g` in exactly one of the first `n` genes,
/// ordered by position, then by new value.
pub open spec fn neighbors_spec(g: Seq<u8>, space: Seq<usize>, n: nat) -> Seq<Seq<u8>>
    decreases n,
{
    if n == 0 {
        Seq::empty()
    } else {
        neighbors_spec(g, space, (n - 1) as nat) + neighbor_row(g, n - 1, card_u8(space[n - 1]))
    }
}

/// Number of positions among the first `n` where `a` and `b` differ.
pub open spec fn hamming_spec(a: Seq<u8>, b: Seq<u8>, n: nat) -> nat
    decreases n,
{
    if n == 0 {
        0
    } else {
        hamming_spec(a, b, (n - 1) as nat) + (if a[n - 1] != b[n - 1] { 1nat } else { 0nat })
    }
}

/// Hamming distance over the common prefix of two gene sequences.
pub open spec fn hamming_dist(a: Seq<u8>, b: Seq<u8>) -> nat {
    hamming_spec(a, b, if a.len() <= b.len() { a.len() } else { b.len() })
}

/// Over the first `n` positions, the distance is symmetric, zero from a
/// sequence to itself, zero exactly where the prefixes agree, and obeys the
/// triangle inequality.
proof fn lemma_hamming_prefix(a: Seq<u8>, b: Seq<u8>, c: Seq<u8>, n: nat)
    requires
        n <= a.len(),
        n <= b.len(),
        n <= c.len(),
    ensures
        hamming_spec(a, b, n) == hamming_spec(b, a, n),
        hamming_spec(a, a, n) == 0,
        hamming_spec(a, b, n) == 0 <==> a.take(n as int) == b.take(n as int),
        hamming_spec(a, c, n) <= hamming_spec(a, b, n) + hamming_spec(b, c, n),
    decreases n,
{
    if n > 0 {
        let m = (n - 1) as nat;
        lemma_hamming_prefix(a, b, c, m);
        assert(a.take(n as int).drop_last() =~= a.take(m as int));
        assert(b.take(n as int).drop_last() =~= b.take(m as int));
        if hamming_spec(a, b, n) == 0 {
            assert(a.take(n as int) =~= b.take(n as int)) by {
                assert forall|i: int| 0 <= i < n implies a.take(n as int)[i] == b.take(n as int)[i] by {
                    if i < m {
                        assert(a.take(m as int)[i] == b.take(m as int)[i]);
                    }
                }
            }
        }
        if a.take(n as int) == b.take(n as int) {
            assert(a.take(n as int)[m as int] == b.take(n as int)[m as int]);
            assert(a.take(m as int) =~= b.take(m as int));
        }
    } else {
        assert(a.take(0) =~= b.take(0));
    }
}

/// The Hamming distance is symmetric and zero from a chromosome to itself;
/// between sequences of equal length it is zero exactly when they are equal
/// and obeys the triangle inequality.
pub proof fn lemma_hamming_metric(a: Seq<u8>, b: Seq<u8>, c: Seq<u8>)
    ensures
        hamming_dist(a, b) == hamming_dist(b, a),
        hamming_dist(a, a) == 0,
        a.len() == b.len() ==> (hamming_dist(a, b) == 0 <==> a == b),
        a.len() == b.len() && b.len() == c.len() ==> hamming_dist(a, c) <= hamming_dist(a, b) + hamming_dist(b, c),
{
    let n = if a.len() <= b.len() { a.len() } else { b.len() };
    lemma_hamming_prefix(a, b, b, n);
    lemma_hamming_prefix(a, a, a, a.len());
    if a.len() == b.len() {
        assert(a.take(a.len() as int) =~= a);
        assert(b.take(b.len() as int) =~= b);
        if b.len() == c.len() {
            lemma_hamming_prefix(a, b, c, a.len());
        }
    }
}

/// Product of the first `n` cardinalities.
pub open spec fn prefix_product(space: Seq<usize>, n: nat) -> nat
    decreases n,
{
    if n == 0 {
        1
    } else {
        prefix_product(space, (n - 1) as nat) * (space[n - 1] as nat)
    }
}

/// Total number of points of the search space.
pub open spec fn space_size_spec(space: Seq<usize>) -> nat {
    prefix_product(space, space.len())
}

/// Mixed-radix index of `g` (gene 0 is the least significant digit).
pub open spec fn chrom_index(g: Seq<u8>, space: Seq<usize>) -> nat
    decreases g.len(),
{
    if g.len() == 0 || space.len() == 0 {
        0
    } else {
        g[0] as nat + (space[0] as nat) * chrom_index(g.drop_first(), space.drop_first())
    }
}

impl Chromosome {
    /// Wrap a raw gene vector.
    pub fn new(genes: Vec<u8>) -> (c: Self)
        ensures
            c.genes@ == genes@,
    {
        Chromosome { genes }
    }

    /// Sample a uniformly random chromosome for `space`: gene `i` is drawn from
    /// `0..(space[i] as u8)`.
    pub fn random(space: &[usize], rng: &mut ChaCha8Rng) -> (c: Self)
        requires
            forall|i: int| 0 <= i < space@.len() ==> card_u8(#[trigger] space@[i]) > 0,
        ensures
            c.genes@.len() == space@.len(),
            forall|i: int| 0 <= i < space@.len() ==> (#[trigger] c.genes@[i]) < card_u8(space@[i]),
            valid_genes(c.genes@, space@),
    {
        let mut d = Draws::take(rng);
        let c = Chromosome::random_drawn(space, &mut d);
        d.give_back(rng);
        c
    }

    /// A random chromosome for `space` from recorded draws: gene `i` is the
    /// `i`-th gene value drawn, a uniform draw in `0..(space[i] as u8)`.
    pub fn random_drawn(space: &[usize], d: &mut Draws) -> (c: Self)
        requires
            forall|i: int| 0 <= i < space@.len() ==> card_u8(#[trigger] space@[i]) > 0,
        ensures
            c.genes@.len() == space@.len(),
            forall|i: int| 0 <= i < space@.len() ==> (#[trigger] c.genes@[i]) < card_u8(space@[i]),
            valid_genes(c.genes@, space@),
            final(d).values() == old(d).values() + c.genes@,
            final(d).indices() == old(d).indices(),
            final(d).coins() == old(d).coins(),
            final(d).words() == old(d).words(),
    {
        let mut genes: Vec<u8> = Vec::new();
        let n = space.len();
        for i in 0..n
            invariant
                n == space@.len(),
                genes@.len() == i,
                forall|j: int| 0 <= j < space@.len() ==> card_u8(#[trigger] space@[j]) > 0,
                forall|j: int| 0 <= j < i ==> (#[trigger] genes@[j]) < card_u8(space@[j]),
                d.values() == old(d).values() + genes@,
                d.indices() == old(d).indices(),
                d.coins() == old(d).coins(),
                d.words() == old(d).words(),
        {
            let card: u8 = (space[i] % 256) as u8;
            let g = d.gene(card);
            genes.push(g);
            assert(d.values() =~= old(d).values() + genes@);
        }
        let c = Chromosome { genes };
        proof {
            assert forall|i: int| 0 <= i < space@.len() implies (#[trigger] c.genes@[i]) < space@[i] by {
                assert(c.genes@[i] < card_u8(space@[i]));
            }
        }
        c
    }

    /// A copy of this chromosome.
    pub fn duplicate(&self) -> (c: Chromosome)
        ensures
            c.genes@ == self.genes@,
    {
        let genes = self.genes.clone();
        assert(genes@ =~= self.genes@);
        Chromosome { genes }
    }

    /// Whether two chromosomes carry the same genes.
    pub fn same_genes(&self, other: &Chromosome) -> (b: bool)
        ensures
            b == (self.genes@ == other.genes@),
    {
        if self.genes.len() != other.genes.len() {
            return false;
        }
        let n = self.genes.len();
        for i in 0..n
            invariant
                n == self.genes@.len(),
                n == other.genes@.len(),
                forall|j: int| 0 <= j < i ==> self.genes@[j] == other.genes@[j],
        {
            if self.genes[i] != other.genes[i] {
                return false;
            }
        }
        assert(self.genes@ =~= other.genes@);
        true
    }

    /// Number of genes.
    pub fn len(&self) -> (n: usize)
        ensures
            n == self.genes@.len(),
    {
        self.genes.len()
    }

    /// Whether the chromosome has no genes.
    pub fn is_empty(&self) -> (b: bool)
        ensures
            b == (self.genes@.len() == 0),
    {
        self.genes.len() == 0
    }

    /// All chromosomes that differ from `self` in exactly one gene, ordered by
    /// position and then by new value. Gene `i` ranges over `0..(space[i] as u8)`.
    ///
    /// Used as the neighbourhood for hill climbing.
    pub fn neighbors(&self, space: &[usize]) -> (out: Vec<Chromosome>)
        requires
            self.genes@.len() >= space@.len(),
        ensures
            out@.len() == neighbors_spec(self.genes@, space@, space@.len() as nat).len(),
            forall|j: int|
                0 <= j < out@.len() ==> (#[trigger] out@[j]).genes@ == neighbors_spec(
                    self.genes@,
                    space@,
                    space@.len() as nat,
                )[j],
    {
        let mut out: Vec<Chromosome> = Vec::new();
        let n = space.len();
        let ghost g = self.genes@;
        for i in 0..n
            invariant
                n == space@.len(),
                g == self.genes@,
                g.len() >= n,
                out@.len() == neighbors_spec(g, space@, i as nat).len(),
                forall|j: int|
                    0 <= j < out@.len() ==> (#[trigger] out@[j]).genes@ == neighbors_spec(
                        g,
                        space@,
                        i as nat,
                    )[j],
        {
            let card: u8 = (space[i] % 256) as u8;
            let ghost base = out@.len();
            let mut v: u8 = 0;
            while v < card
                invariant
                    n == space@.len(),
                    g == self.genes@,
                    g.len() >= n,
                    0 <= i < n,
                    card == card_u8(space@[i as int]),
                    v <= card,
                    base == neighbors_spec(g, space@, i as nat).len(),
                    out@.len() == base + neighbor_row(g, i as int, v as nat).len(),
                    forall|j: int|
                        0 <= j < base ==> (#[trigger] out@[j]).genes@ == neighbors_spec(
                            g,
                            space@,
                            i as nat,
                        )[j],
                    forall|j: int|
                        base <= j < out@.len() ==> (#[trigger] out@[j]).genes@ == neighbor_row(
                            g,
                            i as int,
                            v as nat,
                        )[j - base],
                decreases card - v,
            {
                if v != self.genes[i] {
                    let mut genes = self.genes.clone();
                    assert(genes@ =~= g);
                    genes.set(i, v);
                    out.push(Chromosome::new(genes));
                }
                v = v + 1;
            }
            proof {
                let next = neighbors_spec(g, space@, (i + 1) as nat);
                assert(next == neighbors_spec(g, space@, i as nat) + neighbor_row(
                    g,
                    i as int,
                    card_u8(space@[i as int]),
                ));
                assert forall|j: int| 0 <= j < out@.len() implies (#[trigger] out@[j]).genes@
                    == next[j] by {
                    if j < base {
                    } else {
                    }
                }
            }
        }
        out
    }

    /// Number of genes in which two chromosomes differ (over their common
    /// prefix).
    pub fn hamming(&self, other: &Chromosome) -> (d: usize)
        ensures
            d == hamming_dist(self.genes@, other.genes@),
    {
        let n = if self.genes.len() <= other.genes.len() {
            self.genes.len()
        } else {
            other.genes.len()
        };
        let mut d: usize = 0;
        for i in 0..n
            invariant
                n <= self.genes@.len(),
                n <= other.genes@.len(),
                d == hamming_spec(self.genes@, other.genes@, i as nat),
                d <= i,
        {
            if self.genes[i] != other.genes[i] {
                d = d + 1;
            }
        }
        d
    }
}

/// Total number of points in the search space, as a 128-bit value so that
/// spaces too large to enumerate are still measured. Every partial product
/// must fit in 128 bits.
pub fn space_size(space: &[usize]) -> (r: u128)
    requires
        forall|n: nat| n <= space@.len() ==> #[trigger] prefix_product(space@, n) <= u128::MAX,
    ensures
        r == space_size_spec(space@),
{
    let mut r: u128 = 1;
    let n = space.len();
    for i in 0..n
        invariant
            n == space@.len(),
            r == prefix_product(space@, i as nat),
            forall|k: nat| k <= space@.len() ==> #[trigger] prefix_product(space@, k) <= u128::MAX,
    {
        assert(prefix_product(space@, (i + 1) as nat) <= u128::MAX);
        r = r * (space[i] as u128);
    }
    r
}

/// `prefix_product` peeled from the front.
proof fn lemma_prefix_product_first(s: Seq<usize>, i: nat)
    requires
        1 <= i <= s.len(),
    ensures
        prefix_product(s, i) == (s[0] as nat) * prefix_product(s.drop_first(), (i - 1) as nat),
    decreases i,
{
    if i == 1 {
        assert(prefix_product(s.drop_first(), 0) == 1);
        assert(prefix_product(s, 0) == 1);
        assert(prefix_product(s, 1) == prefix_product(s, 0) * (s[0] as nat));
    } else {
        lemma_prefix_product_first(s, (i - 1) as nat);
        let a = s[0] as nat;
        let b = prefix_product(s.drop_first(), (i - 2) as nat);
        let c = s[i - 1] as nat;
        assert(s.drop_first()[i - 2] == s[i - 1]);
        assert(prefix_product(s.drop_first(), (i - 1) as nat) == b * c);
        assert(prefix_product(s, (i - 1) as nat) == a * b);
        assert(prefix_product(s, i) == prefix_product(s, (i - 1) as nat) * c);
        assert((a * b) * c == a * (b * c)) by (nonlinear_arith);
    }
}

/// The index of a valid chromosome lies below the size of the space.
proof fn lemma_chrom_index_bound(g: Seq<u8>, s: Seq<usize>)
    requires
        valid_genes(g, s),
    ensures
        chrom_index(g, s) < space_size_spec(s),
    decreases g.len(),
{
    if g.len() == 0 {
        assert(space_size_spec(s) == 1);
    } else {
        let gd = g.drop_first();
        let sd = s.drop_first();
        assert(valid_genes(gd, sd)) by {
            assert forall|i: int| 0 <= i < gd.len() implies (#[trigger] gd[i]) < sd[i] by {
                assert(gd[i] == g[i + 1]);
                assert(g[i + 1] < s[i + 1]);
            }
        }
        lemma_chrom_index_bound(gd, sd);
        lemma_prefix_product_first(s, s.len());
        let g0 = g[0] as nat;
        let s0 = s[0] as nat;
        let r = chrom_index(gd, sd);
        let p = space_size_spec(sd);
        assert(g[0] < s[0]);
        lemma_mixed_digit(g0 as int, s0 as int, r as int, p as int);
    }
}

/// One more digit of a mixed-radix number stays below the enlarged range.
proof fn lemma_mixed_digit(g0: int, s0: int, r: int, p: int)
    requires
        0 <= g0 < s0,
        0 <= r < p,
    ensures
        g0 + s0 * r < s0 * p,
{
    assert(s0 * (r + 1) <= s0 * p) by (nonlinear_arith)
        requires
            r + 1 <= p,
            s0 >= 0,
    ;
    assert(s0 * (r + 1) == s0 * r + s0) by (nonlinear_arith);
}

/// Setting gene `i` to `v` moves the index by `(v - g[i])` times the weight
/// of digit `i`.
proof fn lemma_chrom_index_update(g: Seq<u8>, s: Seq<usize>, i: int, v: u8)
    requires
        g.len() == s.len(),
        0 <= i < g.len(),
    ensures
        chrom_index(g.update(i, v), s) as int == chrom_index(g, s) as int + (v as int - g[i] as int)
            * prefix_product(s, i as nat) as int,
    decreases i,
{
    let gu = g.update(i, v);
    if i == 0 {
        assert(gu.drop_first() =~= g.drop_first());
        assert(prefix_product(s, 0) == 1);
    } else {
        assert(gu.drop_first() =~= g.drop_first().update(i - 1, v));
        lemma_chrom_index_update(g.drop_first(), s.drop_first(), i - 1, v);
        lemma_prefix_product_first(s, i as nat);
        let s0 = s[0] as int;
        let a = chrom_index(g.drop_first(), s.drop_first()) as int;
        let d = v as int - g[i] as int;
        let p = prefix_product(s.drop_first(), (i - 1) as nat) as int;
        assert(g.drop_first()[i - 1] == g[i]);
        assert(s0 * (a + d * p) == s0 * a + d * (s0 * p)) by (nonlinear_arith);
    }
}

/// Exhaustively enumerate every chromosome of `space`, in increasing order of
/// their mixed-radix index (gene 0 varies fastest). A space with an empty
/// axis has no points. Genes are `u8`, so every axis holds at most 255 values.
#[verifier::spinoff_prover]
pub fn enumerate(space: &[usize]) -> (out: Vec<Chromosome>)
    requires
        (forall|i: int| 0 <= i < space@.len() ==> (#[trigger] space@[i]) > 0) ==> forall|i: int|
            0 <= i < space@.len() ==> (#[trigger] space@[i]) <= 255,
    ensures
        (exists|i: int| 0 <= i < space@.len() && (#[trigger] space@[i]) == 0) ==> out@.len() == 0,
        (forall|i: int| 0 <= i < space@.len() ==> (#[trigger] space@[i]) > 0) ==> {
            &&& out@.len() == space_size_spec(space@)
            &&& forall|j: int|
                0 <= j < out@.len() ==> valid_genes((#[trigger] out@[j]).genes@, space@)
                    && chrom_index(out@[j].genes@, space@) == j
        },
{
    let mut out: Vec<Chromosome> = Vec::new();
    let n = space.len();
    for k in 0..n
        invariant
            n == space@.len(),
            out@.len() == 0,
            forall|j: int| 0 <= j < k ==> (#[trigger] space@[j]) > 0,
    {
        if space[k] == 0 {
            return out;
        }
    }
    let mut genes: Vec<u8> = Vec::new();
    for k in 0..n
        invariant
            n == space@.len(),
            genes@.len() == k,
            forall|j: int| 0 <= j < k ==> (#[trigger] genes@[j]) == 0,
    {
        genes.push(0u8);
    }
    proof {
        assert(chrom_index(genes@, space@) == 0) by {
            lemma_chrom_index_zero(genes@, space@);
        }
    }
    loop
        invariant
            n == space@.len(),
            forall|i: int| 0 <= i < space@.len() ==> 0 < (#[trigger] space@[i]) <= 255,
            valid_genes(genes@, space@),
            out@.len() == chrom_index(genes@, space@),
            forall|j: int|
                0 <= j < out@.len() ==> valid_genes((#[trigger] out@[j]).genes@, space@)
                    && chrom_index(out@[j].genes@, space@) == j,
        decreases space_size_spec(space@) - out@.len(),
    {
        proof {
            lemma_chrom_index_bound(genes@, space@);
        }
        let snapshot = genes.clone();
        assert(snapshot@ =~= genes@);
        out.push(Chromosome::new(snapshot));
        // Odometer increment with per-digit base `space[i]`.
        let mut i: usize = 0;
        loop
            invariant_except_break
                valid_genes(genes@, space@),
                chrom_index(genes@, space@) + prefix_product(space@, i as nat) == out@.len(),
            invariant
                n == space@.len(),
                forall|i: int| 0 <= i < space@.len() ==> 0 < (#[trigger] space@[i]) <= 255,
                i <= n,
                out@.len() <= space_size_spec(space@),
                forall|j: int|
                    0 <= j < out@.len() ==> valid_genes((#[trigger] out@[j]).genes@, space@)
                        && chrom_index(out@[j].genes@, space@) == j,
            ensures
                valid_genes(genes@, space@),
                chrom_index(genes@, space@) == out@.len(),
            decreases n - i,
        {
            if i == n {
                proof {
                    assert(prefix_product(space@, n as nat) == space_size_spec(space@));
                }
                return out;
            }
            let old_g = genes[i];
            let next_g: u8 = old_g + 1;
            proof {
                lemma_chrom_index_update(genes@, space@, i as int, next_g);
                lemma_prefix_product_pos(space@, i as nat);
            }
            let ghost before = genes@;
            if (next_g as usize) < space[i] {
                genes.set(i, next_g);
                proof {
                    assert(genes@ == before.update(i as int, next_g));
                    let d = next_g as int - old_g as int;
                    let pp = prefix_product(space@, i as nat) as int;
                    assert(d * pp == pp) by (nonlinear_arith)
                        requires
                            d == 1,
                    ;
                    assert(chrom_index(genes@, space@) as int == chrom_index(before, space@) as int
                        + prefix_product(space@, i as nat) as int);
                    assert forall|k: int| 0 <= k < genes@.len() implies (#[trigger] genes@[k])
                        < space@[k] by {
                        if k != i {
                            assert(genes@[k] == before[k]);
                        }
                    }
                }
                break;
            }
            proof {
                lemma_chrom_index_update(genes@, space@, i as int, 0u8);
                assert(prefix_product(space@, (i + 1) as nat) == prefix_product(space@, i as nat)
                    * (space@[i as int] as nat));
                let p = prefix_product(space@, i as nat) as int;
                let c = space@[i as int] as int;
                assert(old_g as int == c - 1);
                assert((0 - (c - 1)) * p + c * p == p) by (nonlinear_arith);
                assert(p * c == c * p) by (nonlinear_arith);
            }
            genes.set(i, 0u8);
            i = i + 1;
        }
    }
}

/// The all-zero chromosome has index 0.
proof fn lemma_chrom_index_zero(g: Seq<u8>, s: Seq<usize>)
    requires
        forall|j: int| 0 <= j < g.len() ==> (#[trigger] g[j]) == 0,
    ensures
        chrom_index(g, s) == 0,
    decreases g.len(),
{
    if g.len() == 0 || s.len() == 0 {
    } else {
        let gd = g.drop_first();
        assert forall|j: int| 0 <= j < gd.len() implies (#[trigger] gd[j]) == 0 by {
            assert(gd[j] == g[j + 1]);
        }
        lemma_chrom_index_zero(gd, s.drop_first());
        assert(g[0] == 0);
        assert((s[0] as nat) * 0 == 0);
    }
}

/// With positive axes every partial product is positive.
proof fn lemma_prefix_product_pos(s: Seq<usize>, i: nat)
    requires
        i <= s.len(),
        forall|j: int| 0 <= j < s.len() ==> (#[trigger] s[j]) > 0,
    ensures
        prefix_product(s, i) > 0,
    decreases i,
{
    if i > 0 {
        lemma_prefix_product_pos(s, (i - 1) as nat);
        let a = prefix_product(s, (i - 1) as nat);
        let b = s[i - 1] as nat;
        assert(a * b > 0) by (nonlinear_arith)
            requires a > 0, b > 0;
    }
}

/// Valid chromosomes with the same index are equal: the mixed-radix index
/// is injective on the search space.
pub proof fn lemma_chrom_index_injective(a: Seq<u8>, b: Seq<u8>, s: Seq<usize>)
    requires
        valid_genes(a, s),
        valid_genes(b, s),
        chrom_index(a, s) == chrom_index(b, s),
    ensures
        a == b,
    decreases a.len(),
{
    if a.len() == 0 {
        assert(a =~= b);
    } else {
        let ad = a.drop_first();
        let bd = b.drop_first();
        let sd = s.drop_first();
        assert(valid_genes(ad, sd)) by {
            assert forall|i: int| 0 <= i < ad.len() implies (#[trigger] ad[i]) < sd[i] by {
                assert(ad[i] == a[i + 1]);
                assert(a[i + 1] < s[i + 1]);
            }
        }
        assert(valid_genes(bd, sd)) by {
            assert forall|i: int| 0 <= i < bd.len() implies (#[trigger] bd[i]) < sd[i] by {
                assert(bd[i] == b[i + 1]);
                assert(b[i + 1] < s[i + 1]);
            }
        }
        let x = chrom_index(ad, sd) as int;
        let y = chrom_index(bd, sd) as int;
        let a0 = a[0] as int;
        let b0 = b[0] as int;
        let s0 = s[0] as int;
        assert(a[0] < s[0] && b[0] < s[0]);
        assert(a0 == b0 && x == y) by (nonlinear_arith)
            requires
                a0 + s0 * x == b0 + s0 * y,
                0 <= a0 < s0,
                0 <= b0 < s0,
                x >= 0,
                y >= 0,
        {
            if x < y {
                assert(s0 * x + s0 <= s0 * y) by (nonlinear_arith)
                    requires x + 1 <= y, s0 >= 0;
            } else if x > y {
                assert(s0 * y + s0 <= s0 * x) by (nonlinear_arith)
                    requires y + 1 <= x, s0 >= 0;
            }
        }
        lemma_chrom_index_injective(ad, bd, sd);
        assert(a =~= b) by {
            assert forall|i: int| 0 <= i < a.len() implies a[i] == b[i] by {
                if i > 0 {
                    assert(a[i] == ad[i - 1]);
                    assert(b[i] == bd[i - 1]);
                }
            }
        }
    }
}

/// Law: every valid chromosome occurs in the enumeration, at the position
/// given by its index.
pub proof fn lemma_enumeration_complete(out: Seq<Chromosome>, space: Seq<usize>, g: Seq<u8>)
    requires
        valid_genes(g, space),
        out.len() == space_size_spec(space),
        forall|j: int|
            0 <= j < out.len() ==> valid_genes((#[trigger] out[j]).genes@, space) && chrom_index(
                out[j].genes@,
                space,
            ) == j,
    ensures
        chrom_index(g, space) < out.len(),
        out[chrom_index(g, space) as int].genes@ == g,
{
    lemma_chrom_index_bound(g, space);
    let j = chrom_index(g, space) as int;
    assert(valid_genes(out[j].genes@, space));
    lemma_chrom_index_injective(out[j].genes@, g, space);
}

/// `h` is `g` with one of its first `n` genes changed to another value below
/// that axis' `u8` cardinality.
pub open spec fn one_gene_change(h: Seq<u8>, g: Seq<u8>, space: Seq<usize>, n: nat) -> bool {
    exists|i: int, w: u8|
        0 <= i < n && w < card_u8(space[i]) && w != g[i] && h == #[trigger] g.update(i, w)
}

/// Every change of gene `i` to a different value below `v` is in the row.
proof fn lemma_neighbor_row_complete(g: Seq<u8>, i: int, v: nat, w: u8)
    requires
        v <= 256,
        w < v,
        w != g[i],
    ensures
        neighbor_row(g, i, v).contains(g.update(i, w)),
    decreases v,
{
    let prev = neighbor_row(g, i, (v - 1) as nat);
    if w == v - 1 {
        assert(((v - 1) as u8) == w);
        assert(neighbor_row(g, i, v) == prev.push(g.update(i, w)));
        assert(neighbor_row(g, i, v)[prev.len() as int] == g.update(i, w));
    } else {
        lemma_neighbor_row_complete(g, i, (v - 1) as nat, w);
        let j = choose|j: int| 0 <= j < prev.len() && prev[j] == g.update(i, w);
        if (v - 1) != g[i] {
            assert(neighbor_row(g, i, v)[j] == prev[j]);
        }
    }
}

/// Law: every change of one of the first `n` genes to a different value
/// below its axis' `u8` cardinality is a neighbour.
pub proof fn lemma_neighbors_complete(g: Seq<u8>, space: Seq<usize>, n: nat, i: int, w: u8)
    requires
        n <= space.len(),
        0 <= i < n,
        w < card_u8(space[i]),
        w != g[i],
    ensures
        neighbors_spec(g, space, n).contains(g.update(i, w)),
    decreases n,
{
    let prev = neighbors_spec(g, space, (n - 1) as nat);
    let row = neighbor_row(g, n - 1, card_u8(space[n - 1]));
    assert(neighbors_spec(g, space, n) == prev + row);
    if i == n - 1 {
        lemma_neighbor_row_complete(g, i, card_u8(space[i]), w);
        let j = choose|j: int| 0 <= j < row.len() && row[j] == g.update(i, w);
        assert((prev + row)[prev.len() + j] == row[j]);
    } else {
        lemma_neighbors_complete(g, space, (n - 1) as nat, i, w);
        let j = choose|j: int| 0 <= j < prev.len() && prev[j] == g.update(i, w);
        assert((prev + row)[j] == prev[j]);
    }
}

/// Every member of a neighbour row changes gene `i` of `g` to a different
/// value below `v`.
proof fn lemma_neighbor_row_shape(g: Seq<u8>, i: int, v: nat)
    requires
        v <= 256,
    ensures
        forall|j: int|
            #![trigger neighbor_row(g, i, v)[j]]
            0 <= j < neighbor_row(g, i, v).len() ==> exists|w: u8|
                w < v && w != g[i] && #[trigger] g.update(i, w) == neighbor_row(g, i, v)[j],
    decreases v,
{
    if v > 0 {
        lemma_neighbor_row_shape(g, i, (v - 1) as nat);
        let prev = neighbor_row(g, i, (v - 1) as nat);
        assert forall|j: int|
            #![trigger neighbor_row(g, i, v)[j]]
            0 <= j < neighbor_row(g, i, v).len() implies exists|w: u8|
            w < v && w != g[i] && #[trigger] g.update(i, w) == neighbor_row(g, i, v)[j] by {
            if j < prev.len() {
                assert(neighbor_row(g, i, v)[j] == prev[j]);
                let w = choose|w: u8| w < v - 1 && w != g[i] && #[trigger] g.update(i, w) == prev[j];
                assert(w < v && w != g[i] && g.update(i, w) == neighbor_row(g, i, v)[j]);
            } else {
                let w = (v - 1) as u8;
                assert(g.update(i, w) == neighbor_row(g, i, v)[j]);
            }
        }
    }
}

/// Law: every neighbour of `g` differs from it in exactly one gene `i`, whose
/// new value lies below the axis' `u8` cardinality.
pub proof fn lemma_neighbors_shape(g: Seq<u8>, space: Seq<usize>, n: nat)
    requires
        n <= space.len(),
    ensures
        forall|j: int|
            0 <= j < neighbors_spec(g, space, n).len() ==> one_gene_change(
                #[trigger] neighbors_spec(g, space, n)[j],
                g,
                space,
                n,
            ),
    decreases n,
{
    if n > 0 {
        lemma_neighbors_shape(g, space, (n - 1) as nat);
        lemma_neighbor_row_shape(g, n - 1, card_u8(space[n - 1]));
        let prev = neighbors_spec(g, space, (n - 1) as nat);
        let row = neighbor_row(g, n - 1, card_u8(space[n - 1]));
        assert forall|j: int| 0 <= j < neighbors_spec(g, space, n).len() implies one_gene_change(
            #[trigger] neighbors_spec(g, space, n)[j],
            g,
            space,
            n,
        ) by {
            let h = neighbors_spec(g, space, n)[j];
            if j < prev.len() {
                assert(h == prev[j]);
                assert(one_gene_change(prev[j], g, space, (n - 1) as nat));
                let (i, w) = choose|i: int, w: u8|
                    0 <= i < n - 1 && w < card_u8(space[i]) && w != g[i] && prev[j]
                        == #[trigger] g.update(i, w);
                assert(0 <= i < n && w < card_u8(space[i]) && w != g[i] && h == g.update(i, w));
            } else {
                let k = j - prev.len();
                assert(h == row[k]);
                let w = choose|w: u8|
                    w < card_u8(space[n - 1]) && w != g[n - 1] && #[trigger] g.update(n - 1, w) == row[k];
                assert(0 <= n - 1 < n && w < card_u8(space[n - 1]) && w != g[n - 1] && h == g.update(
                    n - 1,
                    w,
                ));
            }
        }
    }
}

/// A one-gene change of a valid chromosome is valid.
pub proof fn lemma_one_gene_change_valid(h: Seq<u8>, g: Seq<u8>, space: Seq<usize>, n: nat)
    requires
        valid_genes(g, space),
        n <= space.len(),
        one_gene_change(h, g, space, n),
    ensures
        valid_genes(h, space),
{
    let (i, w) = choose|i: int, w: u8|
        0 <= i < n && w < card_u8(space[i]) && w != g[i] && h == #[trigger] g.update(i, w);
    lemma_update_valid(g, space, i, w);
}

/// A gene changed to a value below the axis' `u8` cardinality keeps a valid
/// chromosome valid.
pub proof fn lemma_update_valid(g: Seq<u8>, space: Seq<usize>, i: int, w: u8)
    requires
        valid_genes(g, space),
        0 <= i < g.len(),
        w < card_u8(space[i]),
    ensures
        valid_genes(g.update(i, w), space),
{
    assert forall|j: int| 0 <= j < g.len() implies (#[trigger] g.update(i, w)[j]) < space[j] by {
        if j == i {
            assert(card_u8(space[i]) <= space[i]);
        }
    }
}

} // verus!
