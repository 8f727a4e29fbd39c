//! Semantics-preserving rewrite rules over the expression DAG.
//!
//! Every rule maps an expression to an algebraically equal one, so any
//! sequence of rules applied to a base expression yields a circuit computing
//! the same value: correctness by construction. The rules are intentionally
//! non-confluent (`FoldSquare` and `CombineMul` rewrite `a·a` to different
//! normal forms), so the order of a sequence matters.
use vstd::prelude::*;
use vstd::arithmetic::power::pow;
use vstd::arithmetic::power::lemma_pow_adds;
use vstd::arithmetic::power::lemma_pow_multiplies;
use std::rc::Rc;
use crate::rewrite::ir::{Expr, Node, eval, weight, exps_positive, exprs_equal, deref_node, subterms};

verus! {

/// The rule alphabet. Gene value `i` selects `rule_of(i)`.
#[derive(Clone, Copy, Debug, PartialEq, Eq, Structural)]
pub enum Rule {
    /// Identity (no change): lets a chromosome encode a shorter sequence.
    NoOp,
    /// `aᵏ → a^(k-1) · a`.
    ExpandMinusOne,
    /// `aᵏ → (a^⌊k/2⌋)²` (· a if k odd): the binary-exponentiation step.
    ExpandHalve,
    /// `aᵏ → (aᵖ)^(k/p)` for the smallest prime factor `p` of a composite `k`.
    ExpandFactor,
    /// `a · a → a²`.
    FoldSquare,
    /// Merge multiplied powers of the same base: `aⁱ · aʲ → a^(i+j)`.
    CombineMul,
}

/// Number of rules in the alphabet.
pub const NUM_RULES: usize = 6;

/// Exponents below this bound can be factored without overflow.
pub const FACTOR_LIMIT: u64 = 0xFFFF_FFFE_0000_0001;

/// The rule a gene value selects (values are taken mod the alphabet size).
pub open spec fn rule_of_spec(gene: u8) -> Rule {
    let r = gene % 6;
    if r == 0 {
        Rule::NoOp
    } else if r == 1 {
        Rule::ExpandMinusOne
    } else if r == 2 {
        Rule::ExpandHalve
    } else if r == 3 {
        Rule::ExpandFactor
    } else if r == 4 {
        Rule::FoldSquare
    } else {
        Rule::CombineMul
    }
}

/// Map a gene value to a rule (values are taken mod the alphabet size).
pub fn rule_of(gene: u8) -> (r: Rule)
    ensures
        r == rule_of_spec(gene),
{
    let m: u8 = gene % 6;
    if m == 0 {
        Rule::NoOp
    } else if m == 1 {
        Rule::ExpandMinusOne
    } else if m == 2 {
        Rule::ExpandHalve
    } else if m == 3 {
        Rule::ExpandFactor
    } else if m == 4 {
        Rule::FoldSquare
    } else {
        Rule::CombineMul
    }
}

/// `aᵏ`, or just `a` when `k == 1`.
pub open spec fn pow_or_spec(a: Expr, k: u64) -> Expr {
    if k == 1 {
        a
    } else {
        Expr::Pow(Rc::new(a), k)
    }
}

/// `aᵏ`, or just `a` when `k == 1`.
fn pow_or(a: Node, k: u64) -> (n: Node)
    ensures
        *n == pow_or_spec(*a, k),
{
    if k == 1 {
        a
    } else {
        crate::rewrite::ir::pow(a, k)
    }
}

/// The smallest divisor `p >= start` of `k` with `p * p <= k`, if any.
pub open spec fn factor_search(k: int, p: int) -> Option<int>
    decreases k - p,
    when p >= 2
{
    if p * p > k {
        None
    } else if k % p == 0 {
        Some(p)
    } else {
        proof {
            assert(p + 1 <= p * p) by (nonlinear_arith)
                requires
                    p >= 2,
            ;
        }
        factor_search(k, p + 1)
    }
}

/// Smallest prime factor of a composite `k ≥ 4`, or `None` if `k` is prime or
/// too small to factor.
pub open spec fn smallest_factor_spec(k: u64) -> Option<int> {
    if k < 4 {
        None
    } else {
        factor_search(k as int, 2)
    }
}

/// What `factor_search` finds: the least divisor in range, and nothing below.
proof fn lemma_factor_search(k: int, p: int)
    requires
        p >= 2,
        k >= 0,
    ensures
        match factor_search(k, p) {
            Some(q) => p <= q && q * q <= k && k % q == 0 && forall|r: int|
                p <= r < q ==> #[trigger] (k % r) != 0,
            None => forall|r: int| p <= r && r * r <= k ==> #[trigger] (k % r) != 0,
        },
    decreases k - p,
{
    if p * p > k {
        assert forall|r: int| p <= r && r * r <= k implies #[trigger] (k % r) != 0 by {
            assert(p * p <= r * r) by (nonlinear_arith)
                requires
                    p <= r,
                    p >= 2,
            ;
        }
    } else if k % p == 0 {
    } else {
        assert(p + 1 <= p * p) by (nonlinear_arith)
            requires
                p >= 2,
        ;
        assert(0 <= k - (p + 1) < k - p);
        lemma_factor_search(k, p + 1);
    }
}

/// Smallest prime factor of a composite `k ≥ 4`, or `None` if `k` is prime or
/// too small to factor. The search squares candidates in 64 bits, so it needs
/// `k` below `(2^32 - 1)^2` unless a factor turns up first.
fn smallest_factor(k: u64) -> (r: Option<u64>)
    requires
        k < FACTOR_LIMIT || smallest_factor_spec(k) is Some,
    ensures
        match r {
            Some(p) => smallest_factor_spec(k) == Some(p as int),
            None => smallest_factor_spec(k) is None,
        },
{
    if k < 4 {
        return None;
    }
    let mut p: u64 = 2;
    loop
        invariant
            2 <= p <= 0xFFFF_FFFF,
            k >= 4,
            k < FACTOR_LIMIT || smallest_factor_spec(k) is Some,
            factor_search(k as int, p as int) == smallest_factor_spec(k),
        decreases k - p,
    {
        assert((p as int) * (p as int) <= 0xFFFF_FFFF * 0xFFFF_FFFF) by (nonlinear_arith)
            requires
                p <= 0xFFFF_FFFF,
        ;
        let pp: u64 = p * p;
        if pp > k {
            return None;
        }
        if k % p == 0 {
            return Some(p);
        }
        assert(p < p * p) by (nonlinear_arith)
            requires
                p >= 2,
        ;
        assert(factor_search(k as int, p as int) == factor_search(k as int, p + 1));
        if p == 0xFFFF_FFFF {
            assert(((p + 1) as int) * ((p + 1) as int) > k);
            assert(factor_search(k as int, p + 1) is None);
            assert(false);
        }
        p = p + 1;
    }
}

/// The base of a power.
pub open spec fn pow_base(e: Expr) -> Expr {
    *(e->Pow_0)
}

/// The single-node rewrite of `rule` at `e`, if the rule's pattern matches
/// there.
pub open spec fn local_spec(rule: Rule, e: Expr) -> Option<Expr> {
    match rule {
        Rule::NoOp => None,
        Rule::ExpandMinusOne => match e {
            Expr::Pow(a, k) => if k >= 2 {
                Some(Expr::Mul(Rc::new(pow_or_spec(*a, (k - 1) as u64)), a))
            } else {
                None
            },
            _ => None,
        },
        Rule::ExpandHalve => match e {
            Expr::Pow(a, k) => if k >= 2 {
                let half = Expr::Square(Rc::new(pow_or_spec(*a, k / 2)));
                if k % 2 == 0 {
                    Some(half)
                } else {
                    Some(Expr::Mul(Rc::new(half), a))
                }
            } else {
                None
            },
            _ => None,
        },
        Rule::ExpandFactor => match e {
            Expr::Pow(a, k) => match smallest_factor_spec(k) {
                Some(p) => Some(Expr::Pow(Rc::new(Expr::Pow(a, p as u64)), (k / (p as u64)) as u64)),
                None => None,
            },
            _ => None,
        },
        Rule::FoldSquare => match e {
            Expr::Mul(l, r) => if *l == *r {
                Some(Expr::Square(l))
            } else {
                None
            },
            _ => None,
        },
        Rule::CombineMul => match e {
            Expr::Mul(l, r) => {
                if (*l is Pow && *r is Pow && *(l->Pow_0) == *(r->Pow_0)) {
                    Some(Expr::Pow(l->Pow_0, (l->Pow_1 + r->Pow_1) as u64))
                } else if (*l is Pow && *(l->Pow_0) == *r) {
                    Some(Expr::Pow(l->Pow_0, (l->Pow_1 + 1) as u64))
                } else if (*r is Pow && *(r->Pow_0) == *l) {
                    Some(Expr::Pow(r->Pow_0, (r->Pow_1 + 1) as u64))
                } else if *l == *r {
                    Some(Expr::Pow(l, 2))
                } else {
                    None
                }
            },
            _ => None,
        },
    }
}

/// A rule rewrites somewhere in `e` exactly when it matches one of its
/// sub-expressions, and where it matches at the root, the root is what it
/// rewrites.
pub proof fn lemma_map_first_law(rule: Rule, e: Expr)
    ensures
        map_first_spec(rule, e) is None <==> forall|t: Expr| #[trigger] subterms(e).contains(t) ==> local_spec(
            rule,
            t,
        ) is None,
        local_spec(rule, e) is Some ==> map_first_spec(rule, e) == local_spec(rule, e),
    decreases e,
{
    match e {
        Expr::Add(a, b) => {
            lemma_map_first_law(rule, deref_node(&a));
            lemma_map_first_law(rule, deref_node(&b));
            lemma_map_first_cases(rule, e, deref_node(&a), deref_node(&b));
        },
        Expr::Mul(a, b) => {
            lemma_map_first_law(rule, deref_node(&a));
            lemma_map_first_law(rule, deref_node(&b));
            lemma_map_first_cases(rule, e, deref_node(&a), deref_node(&b));
        },
        Expr::Square(a) => {
            lemma_map_first_law(rule, deref_node(&a));
            assert(subterms(e) =~= set![e] + subterms(deref_node(&a)) + subterms(deref_node(&a)));
            lemma_map_first_cases(rule, e, deref_node(&a), deref_node(&a));
        },
        Expr::Pow(a, _) => {
            lemma_map_first_law(rule, deref_node(&a));
            assert(subterms(e) =~= set![e] + subterms(deref_node(&a)) + subterms(deref_node(&a)));
            lemma_map_first_cases(rule, e, deref_node(&a), deref_node(&a));
        },
        _ => {
            assert(subterms(e) == set![e]);
            assert(subterms(e).contains(e));
        },
    }
}

/// The inductive step of [`lemma_map_first_law`] for a node with children
/// `a` and `b` (the same child twice for a unary node).
proof fn lemma_map_first_cases(rule: Rule, e: Expr, a: Expr, b: Expr)
    requires
        !(e is Input) && !(e is Const),
        subterms(e) == set![e] + subterms(a) + subterms(b),
        map_first_spec(rule, a) is None <==> forall|t: Expr| #[trigger] subterms(a).contains(t) ==> local_spec(rule, t) is None,
        map_first_spec(rule, b) is None <==> forall|t: Expr| #[trigger] subterms(b).contains(t) ==> local_spec(rule, t) is None,
        map_first_spec(rule, e) is None <==> (local_spec(rule, e) is None && map_first_spec(rule, a) is None
            && map_first_spec(rule, b) is None),
    ensures
        map_first_spec(rule, e) is None <==> forall|t: Expr| #[trigger] subterms(e).contains(t) ==> local_spec(
            rule,
            t,
        ) is None,
{
    if map_first_spec(rule, e) is None {
        assert forall|t: Expr| #[trigger] subterms(e).contains(t) implies local_spec(rule, t) is None by {
            if t != e {
                if !subterms(a).contains(t) {
                    assert(subterms(b).contains(t));
                }
            }
        }
    } else {
        if local_spec(rule, e) is Some {
            assert(subterms(e).contains(e));
        } else if map_first_spec(rule, a) is Some {
            let t = choose|t: Expr| subterms(a).contains(t) && !(local_spec(rule, t) is None);
            assert(subterms(e).contains(t));
        } else {
            let t = choose|t: Expr| subterms(b).contains(t) && !(local_spec(rule, t) is None);
            assert(subterms(e).contains(t));
        }
    }
}

/// `k` has a divisor strictly between 1 and itself.
pub open spec fn composite(k: u64) -> bool {
    exists|d: int| 2 <= d < k && #[trigger] (k as int % d) == 0
}

/// `ExpandMinusOne` rewrites exactly the powers `aᵏ` with `k ≥ 2`, each to
/// `a^(k-1) · a` (with `a¹` written `a`).
pub proof fn lemma_expand_minus_one_law(a: Rc<Expr>, k: u64, e: Expr)
    ensures
        k >= 2 ==> local_spec(Rule::ExpandMinusOne, Expr::Pow(a, k)) == Some(
            Expr::Mul(Rc::new(pow_or_spec(*a, (k - 1) as u64)), a),
        ),
        k < 2 ==> local_spec(Rule::ExpandMinusOne, Expr::Pow(a, k)) is None,
        !(e is Pow) ==> local_spec(Rule::ExpandMinusOne, e) is None,
{
}

/// `ExpandHalve` rewrites exactly the powers `aᵏ` with `k ≥ 2`, each to
/// `(a^(k/2))²`, times `a` when `k` is odd.
pub proof fn lemma_expand_halve_law(a: Rc<Expr>, k: u64, e: Expr)
    ensures
        k >= 2 && k % 2 == 0 ==> local_spec(Rule::ExpandHalve, Expr::Pow(a, k)) == Some(
            Expr::Square(Rc::new(pow_or_spec(*a, k / 2))),
        ),
        k >= 2 && k % 2 == 1 ==> local_spec(Rule::ExpandHalve, Expr::Pow(a, k)) == Some(
            Expr::Mul(Rc::new(Expr::Square(Rc::new(pow_or_spec(*a, k / 2)))), a),
        ),
        k < 2 ==> local_spec(Rule::ExpandHalve, Expr::Pow(a, k)) is None,
        !(e is Pow) ==> local_spec(Rule::ExpandHalve, e) is None,
{
}

/// `ExpandFactor` rewrites exactly the powers whose exponent is composite,
/// `aᵏ` to `(aᵖ)^(k/p)` for the least divisor `p ≥ 2` of `k`.
pub proof fn lemma_expand_factor_law(a: Rc<Expr>, k: u64, e: Expr)
    ensures
        local_spec(Rule::ExpandFactor, Expr::Pow(a, k)) is Some <==> composite(k),
        local_spec(Rule::ExpandFactor, Expr::Pow(a, k)) is Some ==> exists|p: u64|
            2 <= p < k && k % p == 0 && (forall|r: int| 2 <= r < p ==> #[trigger] (k as int % r) != 0)
                && local_spec(Rule::ExpandFactor, Expr::Pow(a, k)) == Some(
                Expr::Pow(Rc::new(Expr::Pow(a, p)), k / p),
            ),
        !(e is Pow) ==> local_spec(Rule::ExpandFactor, e) is None,
{
    if k >= 4 {
        lemma_factor_search(k as int, 2);
        match factor_search(k as int, 2) {
            Some(q) => {
                assert(q < k) by (nonlinear_arith)
                    requires q >= 2, q * q <= k;
                assert(k as int % q == 0);
                assert(composite(k));
                let p = q as u64;
                assert(k % p == 0 && (k / p) as int == k as int / q);
                assert(local_spec(Rule::ExpandFactor, Expr::Pow(a, k)) == Some(
                    Expr::Pow(Rc::new(Expr::Pow(a, p)), k / p),
                ));
            },
            None => {
                assert(!composite(k)) by {
                    if composite(k) {
                        let d = choose|d: int| 2 <= d < k && #[trigger] (k as int % d) == 0;
                        let f = k as int / d;
                        assert(k as int == d * f) by {
                            vstd::arithmetic::div_mod::lemma_fundamental_div_mod(k as int, d);
                        }
                        assert(f >= 2) by (nonlinear_arith)
                            requires k as int == d * f, d < k, d >= 2;
                        if d * d <= k {
                            assert(k as int % d != 0);
                        } else {
                            assert(f * f <= k) by (nonlinear_arith)
                                requires k as int == d * f, d * d > k, f >= 2, d >= 2;
                            assert(k as int % f == 0) by (nonlinear_arith)
                                requires k as int == d * f, f >= 2;
                            assert(k as int % f != 0);
                        }
                    }
                }
            },
        }
    } else {
        assert(!composite(k)) by {
            if composite(k) {
                let d = choose|d: int| 2 <= d < k && #[trigger] (k as int % d) == 0;
                assert(d == 2 && k == 3);
            }
        }
    }
}

/// `FoldSquare` rewrites exactly the products of a node with itself,
/// `a · a` to `a²`.
pub proof fn lemma_fold_square_law(l: Rc<Expr>, r: Rc<Expr>, e: Expr)
    ensures
        *l == *r ==> local_spec(Rule::FoldSquare, Expr::Mul(l, r)) == Some(Expr::Square(l)),
        *l != *r ==> local_spec(Rule::FoldSquare, Expr::Mul(l, r)) is None,
        !(e is Mul) ==> local_spec(Rule::FoldSquare, e) is None,
{
}

/// `CombineMul` rewrites exactly the products of two powers of one base, of
/// a power and its base (either way round), and of a node with itself,
/// into one power of the base whose exponent is the sum of the exponents.
pub proof fn lemma_combine_mul_law(l: Rc<Expr>, r: Rc<Expr>, e: Expr)
    ensures
        local_spec(Rule::CombineMul, Expr::Mul(l, r)) is Some <==> ((*l is Pow && *r is Pow && *(l->Pow_0)
            == *(r->Pow_0)) || (*l is Pow && *(l->Pow_0) == *r) || (*r is Pow && *(r->Pow_0) == *l) || *l == *r),
        *l is Pow && *r is Pow && *(l->Pow_0) == *(r->Pow_0) ==> local_spec(Rule::CombineMul, Expr::Mul(l, r))
            == Some(Expr::Pow(l->Pow_0, (l->Pow_1 + r->Pow_1) as u64)),
        *l is Pow && *(l->Pow_0) == *r ==> local_spec(Rule::CombineMul, Expr::Mul(l, r)) == Some(
            Expr::Pow(l->Pow_0, (l->Pow_1 + 1) as u64),
        ),
        !(*l is Pow) && *r is Pow && *(r->Pow_0) == *l ==> local_spec(Rule::CombineMul, Expr::Mul(l, r)) == Some(
            Expr::Pow(r->Pow_0, (r->Pow_1 + 1) as u64),
        ),
        !(*l is Pow) && !(*r is Pow) && *l == *r ==> local_spec(Rule::CombineMul, Expr::Mul(l, r)) == Some(
            Expr::Pow(l, 2),
        ),
        !(e is Mul) ==> local_spec(Rule::CombineMul, e) is None,
{
}

/// The rewrite of `rule` at the first node, in top-down left-to-right order,
/// where it matches; `None` if it matches nowhere.
pub open spec fn map_first_spec(rule: Rule, e: Expr) -> Option<Expr>
    decreases e,
{
    match local_spec(rule, e) {
        Some(n) => Some(n),
        None => match e {
            Expr::Add(a, b) => match map_first_spec(rule, *a) {
                Some(na) => Some(Expr::Add(Rc::new(na), b)),
                None => match map_first_spec(rule, *b) {
                    Some(nb) => Some(Expr::Add(a, Rc::new(nb))),
                    None => None,
                },
            },
            Expr::Mul(a, b) => match map_first_spec(rule, *a) {
                Some(na) => Some(Expr::Mul(Rc::new(na), b)),
                None => match map_first_spec(rule, *b) {
                    Some(nb) => Some(Expr::Mul(a, Rc::new(nb))),
                    None => None,
                },
            },
            Expr::Square(a) => match map_first_spec(rule, *a) {
                Some(na) => Some(Expr::Square(Rc::new(na))),
                None => None,
            },
            Expr::Pow(a, k) => match map_first_spec(rule, *a) {
                Some(na) => Some(Expr::Pow(Rc::new(na), k)),
                None => None,
            },
            _ => None,
        },
    }
}

/// One rule applied to an expression: the first matching node is rewritten;
/// where the rule matches nowhere, the expression is unchanged.
pub open spec fn apply_spec(rule: Rule, e: Expr) -> Expr {
    if rule == Rule::NoOp {
        e
    } else {
        match map_first_spec(rule, e) {
            Some(n) => n,
            None => e,
        }
    }
}

/// A whole sequence of rules (a chromosome) applied left to right.
pub open spec fn apply_sequence_spec(genes: Seq<u8>, base: Expr) -> Expr
    decreases genes.len(),
{
    if genes.len() == 0 {
        base
    } else {
        apply_spec(rule_of_spec(genes.last()), apply_sequence_spec(genes.drop_last(), base))
    }
}

/// Rewriting `e` itself by `rule` needs no exponent beyond 64 bits:
/// `CombineMul` adds the exponents it merges, which must fit, and
/// `ExpandFactor` searches factors by squaring 64-bit candidates, which stays
/// in range below [`FACTOR_LIMIT`] or once a factor turns up.
pub open spec fn local_safe(rule: Rule, e: Expr) -> bool {
    match rule {
        Rule::ExpandFactor => match e {
            Expr::Pow(_, k) => k < FACTOR_LIMIT || smallest_factor_spec(k) is Some,
            _ => true,
        },
        Rule::CombineMul => match e {
            Expr::Mul(l, r) => {
                if (*l is Pow && *r is Pow && *(l->Pow_0) == *(r->Pow_0)) {
                    l->Pow_1 + r->Pow_1 <= u64::MAX
                } else if (*l is Pow && *(l->Pow_0) == *r) {
                    l->Pow_1 + 1 <= u64::MAX
                } else if (*r is Pow && *(r->Pow_0) == *l) {
                    r->Pow_1 + 1 <= u64::MAX
                } else {
                    true
                }
            },
            _ => true,
        },
        _ => true,
    }
}

/// Every node that [`map_first_spec`] tries, in its order, up to the first
/// match, is safe to rewrite.
pub open spec fn map_first_safe(rule: Rule, e: Expr) -> bool
    decreases e,
{
    local_safe(rule, e) && (local_spec(rule, e) is None ==> match e {
        Expr::Add(a, b) => map_first_safe(rule, *a) && (map_first_spec(rule, *a) is None ==> map_first_safe(
            rule,
            *b,
        )),
        Expr::Mul(a, b) => map_first_safe(rule, *a) && (map_first_spec(rule, *a) is None ==> map_first_safe(
            rule,
            *b,
        )),
        Expr::Square(a) => map_first_safe(rule, *a),
        Expr::Pow(a, _) => map_first_safe(rule, *a),
        _ => true,
    })
}

/// Applying `rule` to `e` needs no exponent beyond 64 bits.
pub open spec fn apply_safe(rule: Rule, e: Expr) -> bool {
    rule == Rule::NoOp || map_first_safe(rule, e)
}

/// Every rule of the sequence is safe on the expression it is applied to.
pub open spec fn sequence_safe(genes: Seq<u8>, base: Expr) -> bool {
    forall|i: int|
        0 <= i < genes.len() ==> apply_safe(rule_of_spec(#[trigger] genes[i]), apply_sequence_spec(genes.take(i), base))
}

/// The expression is free of zero exponents and its weight is small enough
/// that combining and factoring exponents cannot overflow.
pub open spec fn weight_bounded(e: Expr) -> bool {
    exps_positive(e) && weight(e) < FACTOR_LIMIT
}

/// The expressions behind an optional node.
pub open spec fn opt_expr(o: Option<Node>) -> Option<Expr> {
    match o {
        Some(n) => Some(*n),
        None => None,
    }
}

/// Every node of an expression without zero exponents has weight at least 1,
/// and no child outweighs its parent.
pub proof fn lemma_weight_facts(e: Expr)
    requires
        exps_positive(e),
    ensures
        weight(e) >= 1,
        match e {
            Expr::Add(a, b) => weight(*a) <= weight(e) && weight(*b) <= weight(e),
            Expr::Mul(a, b) => weight(*a) <= weight(e) && weight(*b) <= weight(e),
            Expr::Square(a) => weight(*a) <= weight(e),
            Expr::Pow(a, k) => weight(*a) <= weight(e) && k <= weight(e),
            _ => true,
        },
    decreases e,
{
    match e {
        Expr::Add(a, b) => {
            lemma_weight_facts(deref_node(&a));
            lemma_weight_facts(deref_node(&b));
        },
        Expr::Mul(a, b) => {
            lemma_weight_facts(deref_node(&a));
            lemma_weight_facts(deref_node(&b));
        },
        Expr::Square(a) => {
            lemma_weight_facts(deref_node(&a));
        },
        Expr::Pow(a, k) => {
            lemma_weight_facts(deref_node(&a));
            let w = weight(deref_node(&a));
            assert(w <= (k as nat) * w && (k as nat) <= (k as nat) * w) by (nonlinear_arith)
                requires
                    k >= 1,
                    w >= 1,
            ;
        },
        _ => {},
    }
}

/// The single-node rewrite of `rule` at `e`, if the rule's pattern matches
/// there.
#[verifier::spinoff_prover]
fn local(rule: Rule, e: &Node) -> (r: Option<Node>)
    requires
        local_safe(rule, **e),
    ensures
        opt_expr(r) == local_spec(rule, **e),
{
    match rule {
        Rule::NoOp => None,
        Rule::ExpandMinusOne => {
            if let Expr::Pow(a, k) = &**e {
                if *k >= 2 {
                    return Some(crate::rewrite::ir::mul(pow_or(a.clone(), *k - 1), a.clone()));
                }
            }
            None
        },
        Rule::ExpandHalve => {
            if let Expr::Pow(a, k) = &**e {
                if *k >= 2 {
                    let half = crate::rewrite::ir::square(pow_or(a.clone(), *k / 2));
                    return Some(
                        if *k % 2 == 0 {
                            half
                        } else {
                            crate::rewrite::ir::mul(half, a.clone())
                        },
                    );
                }
            }
            None
        },
        Rule::ExpandFactor => {
            if let Expr::Pow(a, k) = &**e {
                if let Some(p) = smallest_factor(*k) {
                    proof {
                        lemma_factor_search(*k as int, 2);
                    }
                    return Some(crate::rewrite::ir::pow(crate::rewrite::ir::pow(a.clone(), p), *k / p));
                }
            }
            None
        },
        Rule::FoldSquare => {
            if let Expr::Mul(l, r) = &**e {
                if exprs_equal(l, r) {
                    return Some(crate::rewrite::ir::square(l.clone()));
                }
            }
            None
        },
        Rule::CombineMul => {
            if let Expr::Mul(l, r) = &**e {
                if let (Expr::Pow(a, i), Expr::Pow(b, j)) = (&**l, &**r) {
                    if exprs_equal(a, b) {
                        return Some(crate::rewrite::ir::pow(a.clone(), *i + *j));
                    }
                }
                if let Expr::Pow(a, i) = &**l {
                    if exprs_equal(a, r) {
                        return Some(crate::rewrite::ir::pow(a.clone(), *i + 1));
                    }
                }
                if let Expr::Pow(b, j) = &**r {
                    if exprs_equal(b, l) {
                        return Some(crate::rewrite::ir::pow(b.clone(), *j + 1));
                    }
                }
                if exprs_equal(l, r) {
                    return Some(crate::rewrite::ir::pow(l.clone(), 2));
                }
            }
            None
        },
    }
}

/// Apply `rule` to the first node, in top-down left-to-right order, where it
/// matches; return the rewritten whole expression, or `None` if nowhere
/// matched.
fn map_first(rule: Rule, e: &Node) -> (r: Option<Node>)
    requires
        map_first_safe(rule, **e),
    ensures
        opt_expr(r) == map_first_spec(rule, **e),
    decreases **e,
{
    if let Some(n) = local(rule, e) {
        return Some(n);
    }
    match &**e {
        Expr::Add(a, b) => {
            if let Some(na) = map_first(rule, a) {
                return Some(crate::rewrite::ir::add(na, b.clone()));
            }
            match map_first(rule, b) {
                Some(nb) => Some(crate::rewrite::ir::add(a.clone(), nb)),
                None => None,
            }
        },
        Expr::Mul(a, b) => {
            if let Some(na) = map_first(rule, a) {
                return Some(crate::rewrite::ir::mul(na, b.clone()));
            }
            match map_first(rule, b) {
                Some(nb) => Some(crate::rewrite::ir::mul(a.clone(), nb)),
                None => None,
            }
        },
        Expr::Square(a) => match map_first(rule, a) {
            Some(na) => Some(crate::rewrite::ir::square(na)),
            None => None,
        },
        Expr::Pow(a, k) => match map_first(rule, a) {
            Some(na) => Some(crate::rewrite::ir::pow(na, *k)),
            None => None,
        },
        _ => None,
    }
}

/// Apply one rule to an expression, rewriting the first matching node. If the
/// rule does not apply anywhere, the expression is returned unchanged (a no-op
/// gene), which keeps every chromosome valid.
pub fn apply(rule: Rule, e: &Node) -> (n: Node)
    requires
        apply_safe(rule, **e),
    ensures
        *n == apply_spec(rule, **e),
{
    if rule == Rule::NoOp {
        return e.clone();
    }
    match map_first(rule, e) {
        Some(n) => n,
        None => e.clone(),
    }
}

/// Rule `i` of a safe sequence is safe on what the rules before it give.
proof fn lemma_sequence_step(genes: Seq<u8>, base: Expr, i: int)
    requires
        sequence_safe(genes, base),
        0 <= i < genes.len(),
    ensures
        apply_safe(rule_of_spec(genes[i]), apply_sequence_spec(genes.take(i), base)),
{
}

/// Apply a whole sequence of rules (a chromosome) left to right.
#[verifier::spinoff_prover]
pub fn apply_sequence(genes: &[u8], base: &Node) -> (n: Node)
    requires
        sequence_safe(genes@, **base),
    ensures
        *n == apply_sequence_spec(genes@, **base),
{
    let mut cur: Node = base.clone();
    let n = genes.len();
    for i in 0..n
        invariant
            n == genes@.len(),
            sequence_safe(genes@, **base),
            *cur == apply_sequence_spec(genes@.take(i as int), **base),
    {
        proof {
            assert(genes@.take(i as int + 1).drop_last() =~= genes@.take(i as int));
            assert(genes@.take(i as int + 1).last() == genes@[i as int]);
            lemma_sequence_step(genes@, deref_node(base), i as int);
        }
        cur = apply(rule_of(genes[i]), &cur);
    }
    proof {
        assert(genes@.take(n as int) =~= genes@);
    }
    cur
}

/// `ExpandMinusOne` keeps the value, the weight and positive exponents.
#[verifier::spinoff_prover]
proof fn lemma_expand_minus_one(rule: Rule, e: Expr, x: int)
    requires
        weight_bounded(e),
        rule == Rule::ExpandMinusOne,
        e is Pow,
        local_spec(rule, e) is Some,
    ensures
        eval(local_spec(rule, e).unwrap(), x) == eval(e, x),
        weight(local_spec(rule, e).unwrap()) == weight(e),
        exps_positive(local_spec(rule, e).unwrap()),
{
    reveal(pow);
    let n = local_spec(rule, e).unwrap();
    let a = e->Pow_0;
    let k = e->Pow_1;
    let ea = pow_base(e);
    let v = eval(ea, x);
    let w = weight(ea);
    assert(exps_positive(ea));
                    let m = (k - 1) as nat;
                    assert(pow(v, k as nat) == v * pow(v, m));
                    assert(pow(v, 1) == v * pow(v, 0));
                    assert(eval(pow_or_spec(ea, (k - 1) as u64), x) == pow(v, m));
                    assert(weight(pow_or_spec(ea, (k - 1) as u64)) == m * w);
                    assert(exps_positive(pow_or_spec(ea, (k - 1) as u64)));
                    assert(m * w + w == (k as nat) * w) by (nonlinear_arith)
                        requires
                            m + 1 == k,
                    ;
                    assert(pow(v, m) * v == v * pow(v, m)) by (nonlinear_arith);
                    assert(eval(n, x) == eval(e, x));
                    assert(weight(n) == weight(e));
                    assert(exps_positive(n));
                
}

/// `ExpandHalve` keeps the value, the weight and positive exponents.
#[verifier::spinoff_prover]
proof fn lemma_expand_halve(rule: Rule, e: Expr, x: int)
    requires
        weight_bounded(e),
        rule == Rule::ExpandHalve,
        e is Pow,
        local_spec(rule, e) is Some,
    ensures
        eval(local_spec(rule, e).unwrap(), x) == eval(e, x),
        weight(local_spec(rule, e).unwrap()) == weight(e),
        exps_positive(local_spec(rule, e).unwrap()),
{
    reveal(pow);
    let n = local_spec(rule, e).unwrap();
    let a = e->Pow_0;
    let k = e->Pow_1;
    let ea = pow_base(e);
    let v = eval(ea, x);
    let w = weight(ea);
    assert(exps_positive(ea));
                    let h = (k / 2) as nat;
                    assert(pow(v, 1) == v * pow(v, 0));
                    assert(eval(pow_or_spec(ea, k / 2), x) == pow(v, h));
                    assert(weight(pow_or_spec(ea, k / 2)) == h * w);
                    assert(exps_positive(pow_or_spec(ea, k / 2)));
                    lemma_pow_adds(v, h, h);
                    if k % 2 == 0 {
                        assert(h + h == k);
                        assert(2 * (h * w) == (k as nat) * w) by (nonlinear_arith)
                            requires
                                h + h == k,
                        ;
                        assert(eval(n, x) == eval(e, x));
                        assert(weight(n) == weight(e));
                        assert(exps_positive(Expr::Square(Rc::new(pow_or_spec(ea, k / 2)))));
                        assert(exps_positive(n));
                    } else {
                        assert(h + h + 1 == k);
                        lemma_pow_adds(v, h + h, 1);
                        assert(pow(v, 0) == 1);
                        assert(pow(v, 1) == v);
                        assert(pow(v, k as nat) == pow(v, h + h) * v);
                        assert(eval(Expr::Square(Rc::new(pow_or_spec(ea, k / 2))), x) == pow(v, h + h));
                        assert(weight(Expr::Square(Rc::new(pow_or_spec(ea, k / 2)))) == 2 * (h * w));
                        assert(n == Expr::Mul(Rc::new(Expr::Square(Rc::new(pow_or_spec(ea, k / 2)))), a));
                        assert(2 * (h * w) + w == (k as nat) * w) by (nonlinear_arith)
                            requires
                                h + h + 1 == k,
                        ;
                        assert(eval(n, x) == eval(e, x));
                        assert(weight(n) == weight(e));
                        assert(exps_positive(Expr::Square(Rc::new(pow_or_spec(ea, k / 2)))));
                        assert(exps_positive(n));
                    }
                
}

/// `ExpandFactor` keeps the value, the weight and positive exponents.
#[verifier::spinoff_prover]
proof fn lemma_expand_factor(rule: Rule, e: Expr, x: int)
    requires
        weight_bounded(e),
        rule == Rule::ExpandFactor,
        e is Pow,
        local_spec(rule, e) is Some,
    ensures
        eval(local_spec(rule, e).unwrap(), x) == eval(e, x),
        weight(local_spec(rule, e).unwrap()) == weight(e),
        exps_positive(local_spec(rule, e).unwrap()),
{
    reveal(pow);
    let n = local_spec(rule, e).unwrap();
    let a = e->Pow_0;
    let k = e->Pow_1;
    let ea = pow_base(e);
    let v = eval(ea, x);
    let w = weight(ea);
    assert(exps_positive(ea));
                    let p = smallest_factor_spec(k).unwrap();
                    lemma_factor_search(k as int, 2);
                    let ki = k as int;
                    assert(k >= 4);
                    assert(factor_search(ki, 2) == Some(p));
                    assert(2 <= p && p * p <= ki);
                    assert(p <= ki) by (nonlinear_arith)
                        requires
                            2 <= p,
                            p * p <= ki,
                    ;
                    assert((p as u64) as int == p);
                    let q = (k / (p as u64)) as nat;
                    assert(q == ki / p);
                    assert(p * q == ki) by (nonlinear_arith)
                        requires
                            ki % p == 0,
                            p >= 2,
                            q == ki / p,
                    ;
                    assert(q >= 2) by (nonlinear_arith)
                        requires
                            p * q == k,
                            p * p <= k,
                            p >= 2,
                    ;
                    lemma_pow_multiplies(v, p as nat, q);
                    assert(((p as u64) as nat) == p as nat);
                    assert(((k / (p as u64)) as u64) as nat == q);
                    assert(n == Expr::Pow(Rc::new(Expr::Pow(a, p as u64)), (k / (p as u64)) as u64));
                    assert(eval(Expr::Pow(a, p as u64), x) == pow(v, p as nat));
                    assert((p as nat) * q == k as nat);
                    assert(weight(Expr::Pow(a, p as u64)) == (p as nat) * w);
                    assert(exps_positive(Expr::Pow(a, p as u64)));
                    assert(weight(n) == q * ((p as nat) * w));
                    assert(q * ((p as nat) * w) == (k as nat) * w) by (nonlinear_arith)
                        requires
                            p * q == k,
                    ;
                    assert(eval(n, x) == eval(e, x));
                    assert(weight(n) == weight(e));
                    assert(exps_positive(n));
                
}

/// `CombineMul` keeps the value, the weight and positive exponents.
#[verifier::spinoff_prover]
#[verifier::rlimit(40)]
proof fn lemma_combine_mul(rule: Rule, e: Expr, x: int)
    requires
        weight_bounded(e),
        rule == Rule::CombineMul,
        e is Mul,
        local_spec(rule, e) is Some,
    ensures
        eval(local_spec(rule, e).unwrap(), x) == eval(e, x),
        weight(local_spec(rule, e).unwrap()) == weight(e),
        exps_positive(local_spec(rule, e).unwrap()),
{
    reveal(pow);
    let n = local_spec(rule, e).unwrap();
    let el = *(e->Mul_0);
    let er = *(e->Mul_1);
                    lemma_weight_facts(e);
                    lemma_weight_facts(el);
                    lemma_weight_facts(er);
                    if (el is Pow && er is Pow && pow_base(el) == pow_base(er)) {
                        let ea = pow_base(el);
                        assert(exps_positive(el));
                        let i = el->Pow_1 as nat;
                        let j = er->Pow_1 as nat;
                        let w = weight(ea);
                        lemma_weight_facts(ea);
                        assert(i + j <= i * w + j * w) by (nonlinear_arith)
                            requires
                                w >= 1,
                        ;
                        lemma_pow_adds(eval(ea, x), i, j);
                        assert((i + j) * w == i * w + j * w) by (nonlinear_arith);
                        assert(((el->Pow_1 + er->Pow_1) as u64) as nat == i + j);
                        assert(eval(n, x) == pow(eval(ea, x), i + j));
                        assert(eval(el, x) == pow(eval(pow_base(el), x), i));
                        assert(eval(er, x) == pow(eval(pow_base(er), x), j));
                        assert(eval(e, x) == eval(el, x) * eval(er, x));
                        assert(eval(e, x) == pow(eval(ea, x), i) * pow(eval(ea, x), j));
                    } else if (el is Pow && pow_base(el) == er) {
                        let i = el->Pow_1 as nat;
                        let w = weight(er);
                        assert(i + 1 <= i * w + w) by (nonlinear_arith)
                            requires
                                w >= 1,
                        ;
                        lemma_pow_adds(eval(er, x), i, 1);
                        assert(pow(eval(er, x), 1) == eval(er, x) * pow(eval(er, x), 0));
                        assert((i + 1) * w == i * w + w) by (nonlinear_arith);
                        assert(((el->Pow_1 + 1) as u64) as nat == i + 1);
                        assert(eval(n, x) == pow(eval(er, x), i + 1));
                        assert(pow(eval(er, x), 0) == 1);
                        assert(eval(el, x) == pow(eval(pow_base(el), x), i));
                        assert(eval(e, x) == pow(eval(er, x), i) * eval(er, x));
                    } else if (er is Pow && pow_base(er) == el) {
                        let j = er->Pow_1 as nat;
                        let w = weight(el);
                        assert(j + 1 <= w + j * w) by (nonlinear_arith)
                            requires
                                w >= 1,
                        ;
                        assert(pow(eval(el, x), j + 1) == eval(el, x) * pow(eval(el, x), j));
                        assert((j + 1) * w == w + j * w) by (nonlinear_arith);
                        assert(((er->Pow_1 + 1) as u64) as nat == j + 1);
                        assert(eval(n, x) == pow(eval(el, x), j + 1));
                        assert(eval(er, x) == pow(eval(pow_base(er), x), j));
                        assert(eval(e, x) == eval(el, x) * pow(eval(el, x), j));
                    } else {
                        assert(pow(eval(el, x), 1) == eval(el, x) * pow(eval(el, x), 0));
                        assert(pow(eval(el, x), 2) == eval(el, x) * pow(eval(el, x), 1));
                    }
                
}

/// On expressions of bounded weight, a single-node rewrite keeps the value
/// at every `x` and the weight, and introduces no zero exponent.
pub proof fn lemma_local_weight(rule: Rule, e: Expr, x: int)
    requires
        weight_bounded(e),
        local_spec(rule, e) is Some,
    ensures
        eval(local_spec(rule, e).unwrap(), x) == eval(e, x),
        weight(local_spec(rule, e).unwrap()) == weight(e),
        exps_positive(local_spec(rule, e).unwrap()),
{
    match rule {
        Rule::ExpandMinusOne => lemma_expand_minus_one(rule, e, x),
        Rule::ExpandHalve => lemma_expand_halve(rule, e, x),
        Rule::ExpandFactor => lemma_expand_factor(rule, e, x),
        Rule::CombineMul => lemma_combine_mul(rule, e, x),
        Rule::FoldSquare => {
            let el = *(e->Mul_0);
            let er = *(e->Mul_1);
            assert(el == er);
            assert(eval(e, x) == eval(el, x) * eval(er, x));
        },
        Rule::NoOp => {},
    }
}

/// On expressions of bounded weight, rewriting the first matching node keeps
/// the value at every `x` and the weight, and introduces no zero exponent.
pub proof fn lemma_map_first_weight(rule: Rule, e: Expr, x: int)
    requires
        weight_bounded(e),
        map_first_spec(rule, e) is Some,
    ensures
        eval(map_first_spec(rule, e).unwrap(), x) == eval(e, x),
        weight(map_first_spec(rule, e).unwrap()) == weight(e),
        exps_positive(map_first_spec(rule, e).unwrap()),
    decreases e,
{
    if local_spec(rule, e) is Some {
        lemma_local_weight(rule, e, x);
    } else {
        lemma_weight_facts(e);
        match e {
            Expr::Add(a, b) => {
                if map_first_spec(rule, deref_node(&a)) is Some {
                    lemma_map_first_weight(rule, deref_node(&a), x);
                } else {
                    lemma_map_first_weight(rule, deref_node(&b), x);
                }
            },
            Expr::Mul(a, b) => {
                if map_first_spec(rule, deref_node(&a)) is Some {
                    lemma_map_first_weight(rule, deref_node(&a), x);
                } else {
                    lemma_map_first_weight(rule, deref_node(&b), x);
                }
            },
            Expr::Square(a) => {
                lemma_map_first_weight(rule, deref_node(&a), x);
            },
            Expr::Pow(a, k) => {
                lemma_map_first_weight(rule, deref_node(&a), x);
                reveal(pow);
            },
            _ => {},
        }
    }
}

/// Applying any rule to an expression of bounded weight keeps its value at
/// every `x`, its weight, and the absence of zero exponents, so the bound
/// holds for the next rule too.
pub proof fn lemma_apply_weight(rule: Rule, e: Expr, x: int)
    requires
        weight_bounded(e),
    ensures
        eval(apply_spec(rule, e), x) == eval(e, x),
        weight(apply_spec(rule, e)) == weight(e),
        weight_bounded(apply_spec(rule, e)),
{
    if rule != Rule::NoOp && map_first_spec(rule, e) is Some {
        lemma_map_first_weight(rule, e, x);
    }
}

/// Every sequence of rewrite rules keeps the weight bound of a base
/// expression, and its value at every `x`.
pub proof fn lemma_apply_sequence_weight(genes: Seq<u8>, base: Expr, x: int)
    requires
        weight_bounded(base),
    ensures
        eval(apply_sequence_spec(genes, base), x) == eval(base, x),
        weight(apply_sequence_spec(genes, base)) == weight(base),
        weight_bounded(apply_sequence_spec(genes, base)),
    decreases genes.len(),
{
    if genes.len() > 0 {
        lemma_apply_sequence_weight(genes.drop_last(), base, x);
        lemma_apply_weight(rule_of_spec(genes.last()), apply_sequence_spec(genes.drop_last(), base), x);
    }
}

/// `ExpandMinusOne`, `ExpandHalve` and `ExpandFactor` keep the value.
proof fn lemma_expand_value(rule: Rule, e: Expr, x: int)
    requires
        local_safe(rule, e),
        rule == Rule::ExpandMinusOne || rule == Rule::ExpandHalve || rule == Rule::ExpandFactor,
        e is Pow,
        local_spec(rule, e) is Some,
    ensures
        eval(local_spec(rule, e).unwrap(), x) == eval(e, x),
{
    reveal(pow);
    let n = local_spec(rule, e).unwrap();
    let a = e->Pow_0;
    let k = e->Pow_1;
    let ea = pow_base(e);
    let v = eval(ea, x);
    assert(pow(v, 1) == v * pow(v, 0));
    if rule == Rule::ExpandMinusOne {
        let m = (k - 1) as nat;
        assert(pow(v, k as nat) == v * pow(v, m));
        assert(eval(pow_or_spec(ea, (k - 1) as u64), x) == pow(v, m));
        assert(pow(v, m) * v == v * pow(v, m)) by (nonlinear_arith);
    } else if rule == Rule::ExpandHalve {
        let h = (k / 2) as nat;
        assert(eval(pow_or_spec(ea, k / 2), x) == pow(v, h));
        lemma_pow_adds(v, h, h);
        if k % 2 == 0 {
            assert(h + h == k);
        } else {
            assert(h + h + 1 == k);
            lemma_pow_adds(v, h + h, 1);
            assert(pow(v, 0) == 1);
            assert(pow(v, k as nat) == pow(v, h + h) * v);
            assert(eval(Expr::Square(Rc::new(pow_or_spec(ea, k / 2))), x) == pow(v, h + h));
            assert(n == Expr::Mul(Rc::new(Expr::Square(Rc::new(pow_or_spec(ea, k / 2)))), a));
        }
    } else {
        let p = smallest_factor_spec(k).unwrap();
        lemma_factor_search(k as int, 2);
        let ki = k as int;
        assert(factor_search(ki, 2) == Some(p));
        assert(2 <= p && p * p <= ki);
        assert(p <= ki) by (nonlinear_arith)
            requires
                2 <= p,
                p * p <= ki,
        ;
        let q = (k / (p as u64)) as nat;
        assert(q == ki / p);
        assert(p * q == ki) by (nonlinear_arith)
            requires
                ki % p == 0,
                p >= 2,
                q == ki / p,
        ;
        lemma_pow_multiplies(v, p as nat, q);
        assert(((k / (p as u64)) as u64) as nat == q);
        assert(n == Expr::Pow(Rc::new(Expr::Pow(a, p as u64)), (k / (p as u64)) as u64));
        assert(eval(Expr::Pow(a, p as u64), x) == pow(v, p as nat));
        assert((p as nat) * q == k as nat);
    }
}

/// `CombineMul` keeps the value where the merged exponent fits.
proof fn lemma_combine_value(e: Expr, x: int)
    requires
        local_safe(Rule::CombineMul, e),
        e is Mul,
        local_spec(Rule::CombineMul, e) is Some,
    ensures
        eval(local_spec(Rule::CombineMul, e).unwrap(), x) == eval(e, x),
{
    reveal(pow);
    let n = local_spec(Rule::CombineMul, e).unwrap();
    let el = *(e->Mul_0);
    let er = *(e->Mul_1);
    if (el is Pow && er is Pow && pow_base(el) == pow_base(er)) {
        let ea = pow_base(el);
        let i = el->Pow_1 as nat;
        let j = er->Pow_1 as nat;
        lemma_pow_adds(eval(ea, x), i, j);
        assert(((el->Pow_1 + er->Pow_1) as u64) as nat == i + j);
        assert(eval(n, x) == pow(eval(ea, x), i + j));
        assert(eval(el, x) == pow(eval(pow_base(el), x), i));
        assert(eval(er, x) == pow(eval(pow_base(er), x), j));
    } else if (el is Pow && pow_base(el) == er) {
        let i = el->Pow_1 as nat;
        lemma_pow_adds(eval(er, x), i, 1);
        assert(pow(eval(er, x), 1) == eval(er, x) * pow(eval(er, x), 0));
        assert(((el->Pow_1 + 1) as u64) as nat == i + 1);
        assert(eval(n, x) == pow(eval(er, x), i + 1));
        assert(pow(eval(er, x), 0) == 1);
        assert(eval(el, x) == pow(eval(pow_base(el), x), i));
    } else if (er is Pow && pow_base(er) == el) {
        let j = er->Pow_1 as nat;
        assert(pow(eval(el, x), j + 1) == eval(el, x) * pow(eval(el, x), j));
        assert(((er->Pow_1 + 1) as u64) as nat == j + 1);
        assert(eval(n, x) == pow(eval(el, x), j + 1));
        assert(eval(er, x) == pow(eval(pow_base(er), x), j));
    } else {
        assert(pow(eval(el, x), 1) == eval(el, x) * pow(eval(el, x), 0));
        assert(pow(eval(el, x), 2) == eval(el, x) * pow(eval(el, x), 1));
    }
}

/// Law: a single-node rewrite keeps the value of the expression at every
/// `x`, wherever it needs no exponent beyond 64 bits.
pub proof fn lemma_local_preserves(rule: Rule, e: Expr, x: int)
    requires
        local_safe(rule, e),
        local_spec(rule, e) is Some,
    ensures
        eval(local_spec(rule, e).unwrap(), x) == eval(e, x),
{
    match rule {
        Rule::CombineMul => lemma_combine_value(e, x),
        Rule::FoldSquare => {
            let el = *(e->Mul_0);
            let er = *(e->Mul_1);
            assert(el == er);
            assert(eval(e, x) == eval(el, x) * eval(er, x));
        },
        Rule::NoOp => {},
        _ => lemma_expand_value(rule, e, x),
    }
}

/// Law: rewriting the first matching node keeps the value at every `x`.
pub proof fn lemma_map_first_preserves(rule: Rule, e: Expr, x: int)
    requires
        map_first_safe(rule, e),
        map_first_spec(rule, e) is Some,
    ensures
        eval(map_first_spec(rule, e).unwrap(), x) == eval(e, x),
    decreases e,
{
    if local_spec(rule, e) is Some {
        lemma_local_preserves(rule, e, x);
    } else {
        match e {
            Expr::Add(a, b) => {
                if map_first_spec(rule, deref_node(&a)) is Some {
                    lemma_map_first_preserves(rule, deref_node(&a), x);
                } else {
                    lemma_map_first_preserves(rule, deref_node(&b), x);
                }
            },
            Expr::Mul(a, b) => {
                if map_first_spec(rule, deref_node(&a)) is Some {
                    lemma_map_first_preserves(rule, deref_node(&a), x);
                } else {
                    lemma_map_first_preserves(rule, deref_node(&b), x);
                }
            },
            Expr::Square(a) => {
                lemma_map_first_preserves(rule, deref_node(&a), x);
            },
            Expr::Pow(a, k) => {
                lemma_map_first_preserves(rule, deref_node(&a), x);
                reveal(pow);
            },
            _ => {},
        }
    }
}

/// Law: applying a rule keeps the value of the expression at every `x`;
/// where it matches nowhere (or is `NoOp`) the expression is unchanged.
pub proof fn lemma_apply_preserves(rule: Rule, e: Expr, x: int)
    requires
        apply_safe(rule, e),
    ensures
        eval(apply_spec(rule, e), x) == eval(e, x),
        (rule == Rule::NoOp || map_first_spec(rule, e) is None) ==> apply_spec(rule, e) == e,
{
    if rule != Rule::NoOp && map_first_spec(rule, e) is Some {
        lemma_map_first_preserves(rule, e, x);
    }
}

/// Law (correctness by construction): every sequence of rewrite rules that
/// needs no exponent beyond 64 bits keeps the value of the base expression
/// at every `x`.
pub proof fn lemma_apply_sequence_preserves(genes: Seq<u8>, base: Expr, x: int)
    requires
        sequence_safe(genes, base),
    ensures
        eval(apply_sequence_spec(genes, base), x) == eval(base, x),
    decreases genes.len(),
{
    if genes.len() > 0 {
        let init = genes.drop_last();
        assert(sequence_safe(init, base)) by {
            assert forall|i: int| 0 <= i < init.len() implies apply_safe(
                rule_of_spec(#[trigger] init[i]),
                apply_sequence_spec(init.take(i), base),
            ) by {
                assert(init.take(i) =~= genes.take(i));
                assert(init[i] == genes[i]);
                lemma_sequence_step(genes, base, i);
            }
        }
        lemma_apply_sequence_preserves(init, base, x);
        assert(genes.take(genes.len() - 1) =~= init);
        lemma_sequence_step(genes, base, genes.len() - 1);
        lemma_apply_preserves(rule_of_spec(genes.last()), apply_sequence_spec(init, base), x);
    }
}

/// Law: applying a concatenation of sequences applies the first, then the
/// second, to its result.
pub proof fn lemma_sequence_concat(g1: Seq<u8>, g2: Seq<u8>, base: Expr)
    ensures
        apply_sequence_spec(g1 + g2, base) == apply_sequence_spec(g2, apply_sequence_spec(g1, base)),
    decreases g2.len(),
{
    if g2.len() == 0 {
        assert(g1 + g2 =~= g1);
    } else {
        lemma_sequence_concat(g1, g2.drop_last(), base);
        assert((g1 + g2).drop_last() =~= g1 + g2.drop_last());
        assert((g1 + g2).last() == g2.last());
    }
}

/// An expression of bounded weight is safe to rewrite at its root.
proof fn lemma_bounded_local_safe(rule: Rule, e: Expr)
    requires
        weight_bounded(e),
    ensures
        local_safe(rule, e),
{
    lemma_weight_facts(e);
    match e {
        Expr::Mul(l, r) => {
            let el = deref_node(&l);
            let er = deref_node(&r);
            lemma_weight_facts(el);
            lemma_weight_facts(er);
            assert(exps_positive(el) && exps_positive(er));
            if el is Pow {
                assert(exps_positive(pow_base(el)));
                lemma_weight_facts(pow_base(el));
                let w = weight(pow_base(el));
                let i = el->Pow_1 as nat;
                assert(i <= i * w) by (nonlinear_arith)
                    requires
                        w >= 1,
                ;
            }
            if er is Pow {
                assert(exps_positive(pow_base(er)));
                lemma_weight_facts(pow_base(er));
                let w = weight(pow_base(er));
                let j = er->Pow_1 as nat;
                assert(j <= j * w) by (nonlinear_arith)
                    requires
                        w >= 1,
                ;
            }
        },
        _ => {},
    }
}

/// An expression of bounded weight is safe for the first-match rewrite.
proof fn lemma_bounded_map_first_safe(rule: Rule, e: Expr)
    requires
        weight_bounded(e),
    ensures
        map_first_safe(rule, e),
    decreases e,
{
    lemma_bounded_local_safe(rule, e);
    lemma_weight_facts(e);
    match e {
        Expr::Add(a, b) => {
            lemma_bounded_map_first_safe(rule, deref_node(&a));
            lemma_bounded_map_first_safe(rule, deref_node(&b));
        },
        Expr::Mul(a, b) => {
            lemma_bounded_map_first_safe(rule, deref_node(&a));
            lemma_bounded_map_first_safe(rule, deref_node(&b));
        },
        Expr::Square(a) => {
            lemma_bounded_map_first_safe(rule, deref_node(&a));
        },
        Expr::Pow(a, _) => {
            lemma_bounded_map_first_safe(rule, deref_node(&a));
        },
        _ => {},
    }
}

/// Every sequence of rules is safe on a base expression of bounded weight.
pub proof fn lemma_bounded_sequence_safe(genes: Seq<u8>, base: Expr)
    requires
        weight_bounded(base),
    ensures
        sequence_safe(genes, base),
{
    assert forall|i: int| 0 <= i < genes.len() implies apply_safe(
        rule_of_spec(#[trigger] genes[i]),
        apply_sequence_spec(genes.take(i), base),
    ) by {
        lemma_apply_sequence_weight(genes.take(i), base, 0);
        lemma_bounded_map_first_safe(rule_of_spec(genes[i]), apply_sequence_spec(genes.take(i), base));
    }
}

/// Every power in `e` has an exponent of at least 2.
pub open spec fn exps_at_least_two(e: Expr) -> bool
    decreases e,
{
    match e {
        Expr::Input => true,
        Expr::Const(_) => true,
        Expr::Add(a, b) => exps_at_least_two(*a) && exps_at_least_two(*b),
        Expr::Mul(a, b) => exps_at_least_two(*a) && exps_at_least_two(*b),
        Expr::Square(a) => exps_at_least_two(*a),
        Expr::Pow(a, k) => k >= 2 && exps_at_least_two(*a),
    }
}

/// No single-node rewrite creates a power with exponent 0 or 1.
pub proof fn lemma_local_exps(rule: Rule, e: Expr)
    requires
        local_safe(rule, e),
        local_spec(rule, e) is Some,
        exps_at_least_two(e),
    ensures
        exps_at_least_two(local_spec(rule, e).unwrap()),
{
    if rule == Rule::ExpandFactor {
        let k = e->Pow_1;
        let p = smallest_factor_spec(k).unwrap();
        lemma_factor_search(k as int, 2);
        let ki = k as int;
        assert(2 <= p && p * p <= ki && ki % p == 0);
        assert(p <= ki) by (nonlinear_arith)
            requires
                2 <= p,
                p * p <= ki,
        ;
        let q = ki / p;
        assert(p * q == ki) by (nonlinear_arith)
            requires
                ki % p == 0,
                p >= 2,
                q == ki / p,
        ;
        assert(q >= 2) by (nonlinear_arith)
            requires
                p * q == ki,
                p * p <= ki,
                p >= 2,
        ;
        assert(((k / (p as u64)) as u64) as int == q);
        let a = e->Pow_0;
        assert(exps_at_least_two(*a));
        assert(exps_at_least_two(Expr::Pow(a, p as u64)));
    } else if rule == Rule::ExpandMinusOne || rule == Rule::ExpandHalve {
        let a = e->Pow_0;
        let k = e->Pow_1;
        assert(exps_at_least_two(*a));
        assert(exps_at_least_two(pow_or_spec(*a, (k - 1) as u64)));
        assert(exps_at_least_two(pow_or_spec(*a, k / 2)));
        assert(exps_at_least_two(Expr::Square(Rc::new(pow_or_spec(*a, k / 2)))));
    } else if rule == Rule::CombineMul {
        let el = *(e->Mul_0);
        let er = *(e->Mul_1);
        assert(exps_at_least_two(el) && exps_at_least_two(er));
        if el is Pow {
            assert(exps_at_least_two(pow_base(el)));
        }
        if er is Pow {
            assert(exps_at_least_two(pow_base(er)));
        }
    } else if rule == Rule::FoldSquare {
        let el = *(e->Mul_0);
        assert(exps_at_least_two(el));
    }
}

/// No first-match rewrite creates a power with exponent 0 or 1.
pub proof fn lemma_map_first_exps(rule: Rule, e: Expr)
    requires
        map_first_safe(rule, e),
        map_first_spec(rule, e) is Some,
        exps_at_least_two(e),
    ensures
        exps_at_least_two(map_first_spec(rule, e).unwrap()),
    decreases e,
{
    if local_spec(rule, e) is Some {
        lemma_local_exps(rule, e);
    } else {
        match e {
            Expr::Add(a, b) => {
                if map_first_spec(rule, deref_node(&a)) is Some {
                    lemma_map_first_exps(rule, deref_node(&a));
                } else {
                    lemma_map_first_exps(rule, deref_node(&b));
                }
            },
            Expr::Mul(a, b) => {
                if map_first_spec(rule, deref_node(&a)) is Some {
                    lemma_map_first_exps(rule, deref_node(&a));
                } else {
                    lemma_map_first_exps(rule, deref_node(&b));
                }
            },
            Expr::Square(a) => {
                lemma_map_first_exps(rule, deref_node(&a));
            },
            Expr::Pow(a, k) => {
                lemma_map_first_exps(rule, deref_node(&a));
            },
            _ => {},
        }
    }
}

/// Law: where every exponent is at least 2, applying any rule leaves every
/// exponent at least 2 (no rule creates a power with exponent 0 or 1).
pub proof fn lemma_apply_exps(rule: Rule, e: Expr)
    requires
        apply_safe(rule, e),
        exps_at_least_two(e),
    ensures
        exps_at_least_two(apply_spec(rule, e)),
{
    if rule != Rule::NoOp && map_first_spec(rule, e) is Some {
        lemma_map_first_exps(rule, e);
    }
}

} // verus!
