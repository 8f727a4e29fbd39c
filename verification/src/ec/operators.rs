//! Variation operators for fixed-length strategy chromosomes.
use vstd::prelude::*;
use rand_chacha::ChaCha8Rng;
use crate::rng::{Draws, UNIT_53};
use crate::strategy::{Chromosome, valid_genes, card_u8};

verus! {

/// `c1`, `c2` arise from `a`, `b` by swapping genes position by position:
/// at each position of `a` either both genes are kept or both are swapped, and
/// `c2` keeps the rest of `b`.
pub open spec fn is_uniform_cross(a: Seq<u8>, b: Seq<u8>, c1: Seq<u8>, c2: Seq<u8>) -> bool {
    &&& c1.len() == a.len()
    &&& c2.len() == b.len()
    &&& forall|i: int|
        0 <= i < a.len() ==> ((#[trigger] c1[i] == a[i] && c2[i] == b[i]) || (c1[i] == b[i] && c2[i]
            == a[i]))
    &&& forall|i: int| a.len() <= i < b.len() ==> #[trigger] c2[i] == b[i]
}

/// Uniform crossover: each gene is independently inherited from either
/// parent (a fair coin per position decides whether the parents' genes are
/// swapped). The generator is lent to [`uniform_crossover_drawn`].
pub fn uniform_crossover(a: &Chromosome, b: &Chromosome, rng: &mut ChaCha8Rng) -> (r: (
    Chromosome,
    Chromosome,
))
    requires
        b.genes@.len() >= a.genes@.len(),
    ensures
        is_uniform_cross(a.genes@, b.genes@, r.0.genes@, r.1.genes@),
{
    let mut d = Draws::take(rng);
    let r = uniform_crossover_drawn(a, b, &mut d);
    d.give_back(rng);
    r
}

/// `c1`, `c2` are the uniform crossover of `a`, `b` by the coins recorded
/// from `d0` to `d1`, one per position of `a`: swapped where the coin is
/// true, kept where it is false.
pub open spec fn crossed_drawn(a: Seq<u8>, b: Seq<u8>, d0: Draws, d1: Draws, c1: Seq<u8>, c2: Seq<u8>) -> bool {
    &&& is_uniform_cross(a, b, c1, c2)
    &&& d1.indices() == d0.indices() && d1.values() == d0.values() && d1.words() == d0.words()
    &&& d1.coins().len() == d0.coins().len() + a.len()
    &&& d1.coins().take(d0.coins().len() as int) == d0.coins()
    &&& forall|i: int|
        0 <= i < a.len() ==> (#[trigger] d1.coins()[d0.coins().len() + i] ==> c1[i] == b[i] && c2[i] == a[i])
            && (!d1.coins()[d0.coins().len() + i] ==> c1[i] == a[i] && c2[i] == b[i])
}

/// Below position `i`, `c1`/`c2` hold `b`/`a` where the coin in `cs` is true
/// and `a`/`b` where it is false.
pub open spec fn swapped_by(a: Seq<u8>, b: Seq<u8>, cs: Seq<bool>, c1: Seq<u8>, c2: Seq<u8>, i: int) -> bool {
    forall|j: int|
        0 <= j < i ==> (#[trigger] cs[j] ==> c1[j] == b[j] && c2[j] == a[j]) && (!cs[j] ==> c1[j] == a[j] && c2[j]
            == b[j])
}

/// Uniform crossover with one recorded coin per position of `a`: position
/// `i` of the children is swapped (`b[i]`, `a[i]`) exactly when the `i`-th
/// coin drawn is true, and kept (`a[i]`, `b[i]`) otherwise.
pub fn uniform_crossover_drawn(a: &Chromosome, b: &Chromosome, d: &mut Draws) -> (r: (Chromosome, Chromosome))
    requires
        b.genes@.len() >= a.genes@.len(),
    ensures
        is_uniform_cross(a.genes@, b.genes@, r.0.genes@, r.1.genes@),
        crossed_drawn(a.genes@, b.genes@, *old(d), *final(d), r.0.genes@, r.1.genes@),
        final(d).values() == old(d).values(),
        final(d).words() == old(d).words(),
        final(d).indices() == old(d).indices(),
        final(d).coins().len() == old(d).coins().len() + a.genes@.len(),
        final(d).coins().take(old(d).coins().len() as int) == old(d).coins(),
        forall|i: int|
            0 <= i < a.genes@.len() ==> (#[trigger] final(d).coins()[old(d).coins().len() + i] ==> r.0.genes@[i]
                == b.genes@[i] && r.1.genes@[i] == a.genes@[i]),
        forall|i: int|
            0 <= i < a.genes@.len() ==> (!#[trigger] final(d).coins()[old(d).coins().len() + i] ==> r.0.genes@[i]
                == a.genes@[i] && r.1.genes@[i] == b.genes@[i]),
{
    let ghost base = d.coins();
    let ghost mut cs: Seq<bool> = Seq::empty();
    let mut c1 = a.genes.clone();
    let mut c2 = b.genes.clone();
    assert(c1@ =~= a.genes@);
    assert(c2@ =~= b.genes@);
    let n = a.len();
    let mut i: usize = 0;
    while i < n
        invariant
            i <= n,
            n == a.genes@.len(),
            c1@.len() == a.genes@.len(),
            c2@.len() == b.genes@.len(),
            b.genes@.len() >= a.genes@.len(),
            d.indices() == old(d).indices(),
            d.values() == old(d).values(),
            d.words() == old(d).words(),
            base == old(d).coins(),
            cs.len() == i,
            d.coins() == base + cs,
            swapped_by(a.genes@, b.genes@, cs, c1@, c2@, i as int),
            forall|j: int| i <= j < n ==> #[trigger] c1@[j] == a.genes@[j],
            forall|j: int| i <= j < b.genes@.len() ==> #[trigger] c2@[j] == b.genes@[j],
        decreases n - i,
    {
        let ghost c1_before = c1@;
        let ghost c2_before = c2@;
        let coin = d.coin();
        if coin {
            c1.set(i, b.genes[i]);
            c2.set(i, a.genes[i]);
        }
        proof {
            let cs0 = cs;
            cs = cs.push(coin);
            assert(d.coins() =~= base + cs);
            assert forall|j: int| 0 <= j < i + 1 implies (#[trigger] cs[j] ==> c1@[j] == b.genes@[j] && c2@[j]
                == a.genes@[j]) && (!cs[j] ==> c1@[j] == a.genes@[j] && c2@[j] == b.genes@[j]) by {
                if j < i {
                    assert(cs[j] == cs0[j]);
                    assert(c1@[j] == c1_before[j] && c2@[j] == c2_before[j]);
                } else {
                    assert(cs[j] == coin);
                    assert(c1_before[j] == a.genes@[j]);
                    assert(c2_before[j] == b.genes@[j]);
                }
            }
            assert(swapped_by(a.genes@, b.genes@, cs, c1@, c2@, i + 1));
        }
        i = i + 1;
    }
    let r = (Chromosome::new(c1), Chromosome::new(c2));
    proof {
        let fc = d.coins();
        assert(fc.take(base.len() as int) =~= base);
        assert forall|i: int| 0 <= i < a.genes@.len() implies #[trigger] fc[base.len() + i] == cs[i] by {}
        assert forall|i: int| 0 <= i < a.genes@.len() implies ((r.0.genes@[i] == a.genes@[i] && r.1.genes@[i]
            == b.genes@[i]) || (r.0.genes@[i] == b.genes@[i] && r.1.genes@[i] == a.genes@[i])) by {
            if cs[i] {
                assert(c1@[i] == b.genes@[i]);
            } else {
                assert(c1@[i] == a.genes@[i]);
            }
        }
        assert forall|i: int| a.genes@.len() <= i < b.genes@.len() implies #[trigger] r.1.genes@[i] == b.genes@[i] by {
            assert(c2@[i] == b.genes@[i]);
        }
        assert forall|i: int| 0 <= i < a.genes@.len() implies (#[trigger] fc[base.len() + i] ==> r.0.genes@[i]
            == b.genes@[i] && r.1.genes@[i] == a.genes@[i]) by {
            assert(fc[base.len() + i] == cs[i]);
            assert(c1@[i] == c1@[i]);
        }
        assert forall|i: int| 0 <= i < a.genes@.len() implies (!#[trigger] fc[base.len() + i] ==> r.0.genes@[i]
            == a.genes@[i] && r.1.genes@[i] == b.genes@[i]) by {
            assert(fc[base.len() + i] == cs[i]);
            assert(c1@[i] == c1@[i]);
        }
    }
    r
}

/// Law: crossover of two valid chromosomes gives valid chromosomes, because
/// genes are independent categorical choices.
pub proof fn lemma_crossover_valid(
    a: Seq<u8>,
    b: Seq<u8>,
    c1: Seq<u8>,
    c2: Seq<u8>,
    space: Seq<usize>,
)
    requires
        valid_genes(a, space),
        valid_genes(b, space),
        is_uniform_cross(a, b, c1, c2),
    ensures
        valid_genes(c1, space),
        valid_genes(c2, space),
{
    assert forall|i: int| 0 <= i < c1.len() implies (#[trigger] c1[i]) < space[i] by {
        assert(c1[i] == a[i] || c1[i] == b[i]);
    }
    assert forall|i: int| 0 <= i < c2.len() implies (#[trigger] c2[i]) < space[i] by {
        if i < a.len() {
            assert(c1[i] == a[i] || c1[i] == b[i]);
        }
        assert(c2[i] == a[i] || c2[i] == b[i]);
    }
}

/// `out` arises from `g` by point mutation over `space`: each gene either
/// stays, or (on an axis with more than one value) changes to a different
/// value below the axis' cardinality less one, plus one.
pub open spec fn is_point_mutation(g: Seq<u8>, space: Seq<usize>, out: Seq<u8>) -> bool {
    &&& out.len() == g.len()
    &&& forall|i: int|
        0 <= i < g.len() ==> (#[trigger] out[i] == g[i] || (space[i] > 1 && out[i] != g[i] && out[i]
            <= card_u8((space[i] - 1) as usize)))
}

/// Point mutation: each gene is, with probability `rate / 2^53`, reassigned
/// to a *different* value for its position (a draw in `0..card - 1` that
/// skips over the current value).
pub fn point_mutation(chrom: &Chromosome, space: &[usize], rate: u64, rng: &mut ChaCha8Rng) -> (c:
    Chromosome)
    requires
        space@.len() >= chrom.genes@.len(),
        forall|i: int|
            0 <= i < space@.len() && (#[trigger] space@[i]) > 1 ==> card_u8((space@[i] - 1) as usize)
                > 0,
    ensures
        is_point_mutation(chrom.genes@, space@, c.genes@),
        rate == 0 ==> c.genes@ == chrom.genes@,
        rate >= UNIT_53 ==> forall|i: int|
            0 <= i < chrom.genes@.len() && space@[i] > 1 ==> #[trigger] c.genes@[i] != chrom.genes@[i],
{
    let mut d = Draws::take(rng);
    let c = point_mutation_drawn(chrom, space, rate, &mut d);
    d.give_back(rng);
    c
}

/// Number of positions below `i` whose axis has more than one value: the
/// positions before `i` that draw a trial.
pub open spec fn trials_before(space: Seq<usize>, i: int) -> nat
    decreases i,
{
    if i <= 0 {
        0
    } else {
        trials_before(space, i - 1) + if space[i - 1] > 1 { 1nat } else { 0nat }
    }
}

/// Number of positions below `i` where `c` differs from `g`.
pub open spec fn changes_before(g: Seq<u8>, c: Seq<u8>, i: int) -> nat
    decreases i,
{
    if i <= 0 {
        0
    } else {
        changes_before(g, c, i - 1) + if c[i - 1] != g[i - 1] { 1nat } else { 0nat }
    }
}

/// `changes_before` reads only the positions below `i`.
proof fn lemma_changes_before_frame(g: Seq<u8>, c1: Seq<u8>, c2: Seq<u8>, i: int)
    requires
        forall|k: int| 0 <= k < i ==> #[trigger] c1[k] == c2[k],
    ensures
        changes_before(g, c1, i) == changes_before(g, c2, i),
    decreases i,
{
    if i > 0 {
        lemma_changes_before_frame(g, c1, c2, i - 1);
        assert(c1[i - 1] == c2[i - 1]);
    }
}

/// `c` is the point mutation of `g` by the trials and values recorded from
/// `d0` to `d1` (see [`point_mutation_drawn`]).
pub open spec fn mutated_drawn(g: Seq<u8>, space: Seq<usize>, rate: u64, d0: Draws, d1: Draws, c: Seq<u8>) -> bool {
    &&& is_point_mutation(g, space, c)
    &&& d1.indices() == d0.indices() && d1.coins() == d0.coins()
    &&& d1.words().len() == d0.words().len() + trials_before(space, g.len() as int)
    &&& d1.words().take(d0.words().len() as int) == d0.words()
    &&& d1.values().len() == d0.values().len() + changes_before(g, c, g.len() as int)
    &&& d1.values().take(d0.values().len() as int) == d0.values()
    &&& forall|i: int|
        0 <= i < g.len() && space[i] > 1 ==> ((#[trigger] c[i] != g[i]) <==> d1.words()[(d0.words().len()
            + trials_before(space, i)) as int] < rate)
    &&& forall|i: int|
        0 <= i < g.len() && #[trigger] c[i] != g[i] ==> {
            let v = d1.values()[(d0.values().len() + changes_before(g, c, i)) as int];
            &&& v < card_u8((space[i] - 1) as usize)
            &&& c[i] == if v >= g[i] { (v + 1) as u8 } else { v }
        }
}

/// Point mutation from recorded draws. Each position on an axis with more
/// than one value takes one Bernoulli trial, in order; the gene changes
/// exactly when its trial's word is below `rate`, and then becomes its
/// drawn value `v` (the next value drawn, below the axis' cardinality less
/// one), moved up by one when `v` is not below the old gene, so that it
/// differs.
pub fn point_mutation_drawn(chrom: &Chromosome, space: &[usize], rate: u64, d: &mut Draws) -> (c: Chromosome)
    requires
        space@.len() >= chrom.genes@.len(),
        forall|i: int|
            0 <= i < space@.len() && (#[trigger] space@[i]) > 1 ==> card_u8((space@[i] - 1) as usize)
                > 0,
    ensures
        is_point_mutation(chrom.genes@, space@, c.genes@),
        mutated_drawn(chrom.genes@, space@, rate, *old(d), *final(d), c.genes@),
        rate == 0 ==> c.genes@ == chrom.genes@,
        rate >= UNIT_53 ==> forall|i: int|
            0 <= i < chrom.genes@.len() && space@[i] > 1 ==> #[trigger] c.genes@[i] != chrom.genes@[i],
        final(d).indices() == old(d).indices(),
        final(d).coins() == old(d).coins(),
        final(d).words().len() == old(d).words().len() + trials_before(space@, chrom.genes@.len() as int),
        final(d).words().take(old(d).words().len() as int) == old(d).words(),
        final(d).values().len() == old(d).values().len() + changes_before(
            chrom.genes@,
            c.genes@,
            chrom.genes@.len() as int,
        ),
        final(d).values().take(old(d).values().len() as int) == old(d).values(),
        forall|i: int|
            0 <= i < chrom.genes@.len() && space@[i] > 1 ==> ((#[trigger] c.genes@[i] != chrom.genes@[i])
                <==> final(d).words()[(old(d).words().len() + trials_before(space@, i)) as int] < rate),
        forall|i: int|
            0 <= i < chrom.genes@.len() && #[trigger] c.genes@[i] != chrom.genes@[i] ==> {
                let v = final(d).values()[(old(d).values().len() + changes_before(chrom.genes@, c.genes@, i)) as int];
                &&& v < card_u8((space@[i] - 1) as usize)
                &&& c.genes@[i] == if v >= chrom.genes@[i] { (v + 1) as u8 } else { v }
            },
{
    let ghost g = chrom.genes@;
    let ghost ow = d.words();
    let ghost ov = d.values();
    let ghost mut ws: Seq<u64> = Seq::empty();
    let ghost mut vs: Seq<u8> = Seq::empty();
    let mut genes = chrom.genes.clone();
    assert(genes@ =~= chrom.genes@);
    let n = genes.len();
    for i in 0..n
        invariant
            n == genes@.len(),
            n == g.len(),
            g == chrom.genes@,
            space@.len() >= n,
            forall|i: int|
                0 <= i < space@.len() && (#[trigger] space@[i]) > 1 ==> card_u8(
                    (space@[i] - 1) as usize,
                ) > 0,
            forall|j: int|
                0 <= j < i ==> (#[trigger] genes@[j] == g[j] || (space@[j] > 1
                    && genes@[j] != g[j] && genes@[j] <= card_u8(
                    (space@[j] - 1) as usize,
                ))),
            forall|j: int| i <= j < n ==> #[trigger] genes@[j] == g[j],
            rate == 0 ==> genes@ == g,
            rate >= UNIT_53 ==> forall|j: int|
                0 <= j < i && space@[j] > 1 ==> #[trigger] genes@[j] != g[j],
            d.indices() == old(d).indices(),
            d.coins() == old(d).coins(),
            ow == old(d).words(),
            ov == old(d).values(),
            d.words() == ow + ws,
            d.values() == ov + vs,
            ws.len() == trials_before(space@, i as int),
            vs.len() == changes_before(g, genes@, i as int),
            forall|j: int|
                0 <= j < i && space@[j] > 1 ==> ((#[trigger] genes@[j] != g[j]) <==> ws[trials_before(space@, j) as int]
                    < rate),
            forall|j: int|
                0 <= j < i && #[trigger] genes@[j] != g[j] ==> {
                    let v = vs[changes_before(g, genes@, j) as int];
                    &&& v < card_u8((space@[j] - 1) as usize)
                    &&& genes@[j] == if v >= g[j] { (v + 1) as u8 } else { v }
                },
    {
        let card = space[i];
        let ghost genes0 = genes@;
        let ghost ws0 = ws;
        let ghost vs0 = vs;
        let mut mutated = false;
        let mut trial = false;
        if card > 1 {
            trial = d.below(rate);
            proof {
                ws = ws.push(d.words().last());
                assert(d.words() =~= ow + ws);
            }
        }
        if trial {
            // Draw a value in [0, card-1) and skip over the current one to
            // guarantee an actual change.
            let limit: u8 = ((card - 1) % 256) as u8;
            let mut v = d.gene(limit);
            proof {
                vs = vs.push(v);
                assert(d.values() =~= ov + vs);
            }
            if v >= genes[i] {
                v = v + 1;
            }
            genes.set(i, v);
            mutated = true;
        }
        proof {
            lemma_changes_before_frame(g, genes0, genes@, i as int);
            assert forall|j: int| 0 <= j < i implies #[trigger] genes@[j] == genes0[j] by {}
            assert forall|j: int| 0 <= j <= i implies changes_before(g, genes@, j) == changes_before(g, genes0, j) by {
                lemma_changes_before_frame(g, genes0, genes@, j);
            }
            assert(trials_before(space@, i + 1) == trials_before(space@, i as int) + if space@[i as int] > 1 { 1nat } else { 0nat });
            assert(changes_before(g, genes@, i + 1) == changes_before(g, genes@, i as int) + if genes@[i as int] != g[i as int] { 1nat } else { 0nat });
            if card > 1 {
                assert(ws[trials_before(space@, i as int) as int] == d.words().last());
            }
            if mutated {
                assert(vs[changes_before(g, genes@, i as int) as int] == d.values().last());
            }
            assert forall|j: int|
                0 <= j < i + 1 && space@[j] > 1 implies ((#[trigger] genes@[j] != g[j]) <==> ws[trials_before(space@, j) as int]
                    < rate) by {
                if j < i {
                    assert(ws[trials_before(space@, j) as int] == ws0[trials_before(space@, j) as int]) by {
                        lemma_trials_before_mono(space@, j, i as int);
                    }
                }
            }
            assert forall|j: int|
                0 <= j < i + 1 && #[trigger] genes@[j] != g[j] implies {
                    let v = vs[changes_before(g, genes@, j) as int];
                    &&& v < card_u8((space@[j] - 1) as usize)
                    &&& genes@[j] == if v >= g[j] { (v + 1) as u8 } else { v }
                } by {
                if j < i {
                    assert(genes0[j] != g[j]);
                    lemma_changes_before_mono(g, genes0, j, i as int);
                    assert(vs[changes_before(g, genes0, j) as int] == vs0[changes_before(g, genes0, j) as int]);
                }
            }
        }
    }
    let c = Chromosome::new(genes);
    proof {
        assert(d.words().take(ow.len() as int) =~= ow);
        assert(d.values().take(ov.len() as int) =~= ov);
        assert forall|i: int| 0 <= i < g.len() && space@[i] > 1 implies ((#[trigger] c.genes@[i] != g[i]) <==> d.words()[(ow.len() + trials_before(space@, i)) as int] < rate) by {
            assert(d.words()[(ow.len() + trials_before(space@, i)) as int] == ws[trials_before(space@, i) as int]) by {
                lemma_trials_before_mono(space@, i, g.len() as int);
            }
        }
        assert forall|i: int| 0 <= i < g.len() && #[trigger] c.genes@[i] != g[i] implies {
                let v = d.values()[(ov.len() + changes_before(g, c.genes@, i)) as int];
                &&& v < card_u8((space@[i] - 1) as usize)
                &&& c.genes@[i] == if v >= g[i] { (v + 1) as u8 } else { v }
            } by {
            lemma_changes_before_mono(g, c.genes@, i, g.len() as int);
            assert(d.values()[(ov.len() + changes_before(g, c.genes@, i)) as int] == vs[changes_before(g, c.genes@, i) as int]);
        }
    }
    c
}

/// A position with a trial lies before the count of all trials.
proof fn lemma_trials_before_mono(space: Seq<usize>, j: int, i: int)
    requires
        0 <= j < i,
        space[j] > 1,
    ensures
        trials_before(space, j) < trials_before(space, i),
    decreases i,
{
    if i > j + 1 {
        lemma_trials_before_mono(space, j, i - 1);
    }
}

/// A changed position lies before the count of all changes.
proof fn lemma_changes_before_mono(g: Seq<u8>, c: Seq<u8>, j: int, i: int)
    requires
        0 <= j < i,
        c[j] != g[j],
    ensures
        changes_before(g, c, j) < changes_before(g, c, i),
    decreases i,
{
    if i > j + 1 {
        lemma_changes_before_mono(g, c, j, i - 1);
    }
}

/// Law: point mutation of a valid chromosome is valid, and it changes only
/// genes on axes with more than one value.
pub proof fn lemma_mutation_valid(g: Seq<u8>, space: Seq<usize>, out: Seq<u8>)
    requires
        valid_genes(g, space),
        is_point_mutation(g, space, out),
    ensures
        valid_genes(out, space),
        forall|i: int| 0 <= i < out.len() && space[i] <= 1 ==> #[trigger] out[i] == g[i],
{
    assert forall|i: int| 0 <= i < out.len() implies (#[trigger] out[i]) < space[i] by {
        if out[i] != g[i] {
            assert(space[i] > 1);
            assert(card_u8((space[i] - 1) as usize) <= space[i] - 1);
        }
    }
}

} // verus!
