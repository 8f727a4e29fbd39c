//! Expression-DAG intermediate representation for rewrite-sequence search.
//!
//! An [`Expr`] is an arithmetic expression over a single input `x` and
//! integer constants, built from reference-counted nodes. Equality is
//! structural, so identical sub-expressions compare equal; the circuit plan
//! ([`crate::circuits::plan`]) shares them as common sub-expressions.
use vstd::prelude::*;

use std::rc::Rc;
use crate::field::{ORDER, reduce, field_add, field_mul, field_pow, lemma_reduce_add, lemma_reduce_mul, lemma_reduce_pow};
use crate::circuits::plan::{
    Step, emit, wire_values, plan_well_formed, extends_arith, lemma_push_step, lemma_wire_values, lemma_wire_len,
    lemma_extends_push, lemma_extends_refl, lemma_extends_trans,
};

verus! {

/// An arithmetic expression over the input `x`.
#[derive(Clone, PartialEq, Eq, Hash, Debug)]
pub enum Expr {
    /// The circuit input `x`.
    Input,
    /// A field constant `c` (canonical `u64`).
    Const(u64),
    Add(Rc<Expr>, Rc<Expr>),
    Mul(Rc<Expr>, Rc<Expr>),
    /// `a²`.
    Square(Rc<Expr>),
    /// `aᵏ`: an unexpanded power, the main target of rewrites.
    Pow(Rc<Expr>, u64),
}

/// A shared expression node.
pub type Node = Rc<Expr>;

/// The value of `e` at `x`, over the integers. Every rewrite rule is an
/// identity of commutative rings, so this is the semantics the rules keep.
pub open spec fn eval(e: Expr, x: int) -> int
    decreases e,
{
    match e {
        Expr::Input => x,
        Expr::Const(c) => c as int,
        Expr::Add(a, b) => eval(*a, x) + eval(*b, x),
        Expr::Mul(a, b) => eval(*a, x) * eval(*b, x),
        Expr::Square(a) => eval(*a, x) * eval(*a, x),
        Expr::Pow(a, k) => vstd::arithmetic::power::pow(eval(*a, x), k as nat),
    }
}

/// The exponent weight of `e`: its degree in `x` when constants are counted
/// with degree one. Every rule keeps it, and it bounds every exponent.
pub open spec fn weight(e: Expr) -> nat
    decreases e,
{
    match e {
        Expr::Input => 1,
        Expr::Const(_) => 1,
        Expr::Add(a, b) => if weight(*a) >= weight(*b) { weight(*a) } else { weight(*b) },
        Expr::Mul(a, b) => weight(*a) + weight(*b),
        Expr::Square(a) => 2 * weight(*a),
        Expr::Pow(a, k) => (k as nat) * weight(*a),
    }
}

/// Every power in `e` has a positive exponent.
pub open spec fn exps_positive(e: Expr) -> bool
    decreases e,
{
    match e {
        Expr::Input => true,
        Expr::Const(_) => true,
        Expr::Add(a, b) => exps_positive(*a) && exps_positive(*b),
        Expr::Mul(a, b) => exps_positive(*a) && exps_positive(*b),
        Expr::Square(a) => exps_positive(*a),
        Expr::Pow(a, k) => k >= 1 && exps_positive(*a),
    }
}

/// The set of distinct sub-expressions of `e`, `e` itself included.
pub open spec fn subterms(e: Expr) -> Set<Expr>
    decreases e,
{
    match e {
        Expr::Input => set![e],
        Expr::Const(_) => set![e],
        Expr::Add(a, b) => set![e] + subterms(*a) + subterms(*b),
        Expr::Mul(a, b) => set![e] + subterms(*a) + subterms(*b),
        Expr::Square(a) => set![e] + subterms(*a),
        Expr::Pow(a, _) => set![e] + subterms(*a),
    }
}

/// The expression behind a node.
pub open spec fn deref_node(n: &Node) -> Expr {
    **n
}

/// The node `x`.
pub fn input() -> (n: Node)
    ensures
        *n == Expr::Input,
{
    Rc::new(Expr::Input)
}

/// The constant node `c`.
pub fn constant(c: u64) -> (n: Node)
    ensures
        *n == Expr::Const(c),
{
    Rc::new(Expr::Const(c))
}

/// The node `a + b`.
pub fn add(a: Node, b: Node) -> (n: Node)
    ensures
        *n == Expr::Add(a, b),
{
    Rc::new(Expr::Add(a, b))
}

/// The node `a · b`.
pub fn mul(a: Node, b: Node) -> (n: Node)
    ensures
        *n == Expr::Mul(a, b),
{
    Rc::new(Expr::Mul(a, b))
}

/// The node `a²`.
pub fn square(a: Node) -> (n: Node)
    ensures
        *n == Expr::Square(a),
{
    Rc::new(Expr::Square(a))
}

/// The node `aᵏ`.
pub fn pow(a: Node, k: u64) -> (n: Node)
    ensures
        *n == Expr::Pow(a, k),
{
    Rc::new(Expr::Pow(a, k))
}

/// Structural equality of two expressions.
pub fn exprs_equal(a: &Expr, b: &Expr) -> (r: bool)
    ensures
        r == (*a == *b),
    decreases a,
{
    match (a, b) {
        (Expr::Input, Expr::Input) => true,
        (Expr::Const(c), Expr::Const(d)) => *c == *d,
        (Expr::Add(a1, a2), Expr::Add(b1, b2)) => exprs_equal(a1, b1) && exprs_equal(a2, b2),
        (Expr::Mul(a1, a2), Expr::Mul(b1, b2)) => exprs_equal(a1, b1) && exprs_equal(a2, b2),
        (Expr::Square(a1), Expr::Square(b1)) => exprs_equal(a1, b1),
        (Expr::Pow(a1, i), Expr::Pow(b1, j)) => *i == *j && exprs_equal(a1, b1),
        _ => false,
    }
}

/// Reference semantics: evaluate the expression in the field at `x`.
pub fn eval_field(e: &Expr, x: u64) -> (r: u64)
    requires
        x < ORDER,
    ensures
        r == reduce(eval(*e, x as int)),
        r < ORDER,
    decreases e,
{
    match e {
        Expr::Input => {
            proof {
                vstd::arithmetic::div_mod::lemma_small_mod(x as nat, ORDER as nat);
            }
            x
        },
        Expr::Const(c) => *c % ORDER,
        Expr::Add(a, b) => {
            let va = eval_field(a, x);
            let vb = eval_field(b, x);
            proof {
                lemma_reduce_add(eval(deref_node(a), x as int), eval(deref_node(b), x as int));
            }
            field_add(va, vb)
        },
        Expr::Mul(a, b) => {
            let va = eval_field(a, x);
            let vb = eval_field(b, x);
            proof {
                lemma_reduce_mul(eval(deref_node(a), x as int), eval(deref_node(b), x as int));
            }
            field_mul(va, vb)
        },
        Expr::Square(a) => {
            let va = eval_field(a, x);
            proof {
                lemma_reduce_mul(eval(deref_node(a), x as int), eval(deref_node(a), x as int));
            }
            field_mul(va, va)
        },
        Expr::Pow(a, k) => {
            let va = eval_field(a, x);
            proof {
                lemma_reduce_pow(eval(deref_node(a), x as int), *k as nat);
            }
            field_pow(va, *k)
        },
    }
}

/// Sub-expression closure: every sub-expression of a member is a member.
pub open spec fn closed_under_subterms(s: Set<Expr>) -> bool {
    forall|e: Expr| #[trigger] s.contains(e) ==> subterms(e).subset_of(s)
}

/// The expressions behind a list of nodes.
pub open spec fn node_exprs(nodes: Seq<Node>) -> Seq<Expr> {
    nodes.map_values(|n: Node| *n)
}

/// `subterms(e)` contains `e` and is finite.
pub proof fn lemma_subterms_basic(e: Expr)
    ensures
        subterms(e).contains(e),
        subterms(e).finite(),
    decreases e,
{
    match e {
        Expr::Add(a, b) => {
            lemma_subterms_basic(deref_node(&a));
            lemma_subterms_basic(deref_node(&b));
        },
        Expr::Mul(a, b) => {
            lemma_subterms_basic(deref_node(&a));
            lemma_subterms_basic(deref_node(&b));
        },
        Expr::Square(a) => {
            lemma_subterms_basic(deref_node(&a));
        },
        Expr::Pow(a, _) => {
            lemma_subterms_basic(deref_node(&a));
        },
        _ => {},
    }
}

/// Whether `e` is structurally equal to one of `seen`.
fn seen_contains(seen: &Vec<Node>, e: &Expr) -> (r: bool)
    ensures
        r == node_exprs(seen@).contains(*e),
{
    let n = seen.len();
    for i in 0..n
        invariant
            n == seen@.len(),
            forall|j: int| 0 <= j < i ==> *seen@[j] != *e,
    {
        if exprs_equal(&seen[i], e) {
            assert(node_exprs(seen@)[i as int] == *e);
            return true;
        }
    }
    assert forall|j: int| 0 <= j < node_exprs(seen@).len() implies node_exprs(seen@)[j] != *e by {
        assert(node_exprs(seen@)[j] == *seen@[j]);
    }
    false
}

/// Adds every sub-expression of `e` missing from `seen`, children first.
fn collect_subterms(e: &Node, seen: &mut Vec<Node>)
    requires
        node_exprs(old(seen)@).no_duplicates(),
        closed_under_subterms(node_exprs(old(seen)@).to_set()),
    ensures
        node_exprs(final(seen)@).no_duplicates(),
        closed_under_subterms(node_exprs(final(seen)@).to_set()),
        node_exprs(final(seen)@).to_set() == node_exprs(old(seen)@).to_set() + subterms(**e),
    decreases **e,
{
    let ghost old_set = node_exprs(seen@).to_set();
    proof {
        lemma_subterms_basic(deref_node(e));
    }
    if seen_contains(seen, e) {
        proof {
            assert(old_set.contains(**e));
            assert(subterms(**e).subset_of(old_set));
            assert(old_set + subterms(**e) =~= old_set);
        }
        return;
    }
    match &**e {
        Expr::Add(a, b) => {
            collect_subterms(a, seen);
            collect_subterms(b, seen);
        },
        Expr::Mul(a, b) => {
            collect_subterms(a, seen);
            collect_subterms(b, seen);
        },
        Expr::Square(a) => {
            collect_subterms(a, seen);
        },
        Expr::Pow(a, _) => {
            collect_subterms(a, seen);
        },
        _ => {},
    }
    let ghost mid = node_exprs(seen@);
    proof {
        assert(mid.to_set() =~= old_set + child_subterms(**e));
        lemma_not_in_children(deref_node(e));
        assert(!mid.to_set().contains(**e));
        assert(subterms(**e) =~= set![**e] + child_subterms(**e));
        lemma_children_closed(deref_node(e));
    }
    seen.push(e.clone());
    proof {
        assert(node_exprs(seen@) =~= mid.push(**e));
        mid.lemma_push_to_set_commute(deref_node(e));
        assert(node_exprs(seen@).no_duplicates()) by {
            assert forall|i: int, j: int|
                0 <= i < node_exprs(seen@).len() && 0 <= j < node_exprs(seen@).len() && i != j
                    implies node_exprs(seen@)[i] != node_exprs(seen@)[j] by {
                if i == mid.len() as int {
                    assert(mid.to_set().contains(mid[j]));
                } else if j == mid.len() as int {
                    assert(mid.to_set().contains(mid[i]));
                }
            }
        }
        assert(node_exprs(seen@).to_set() =~= old_set + subterms(**e));
    }
}

/// Number of nodes of the expression tree.
pub open spec fn expr_size(e: Expr) -> nat
    decreases e,
{
    match e {
        Expr::Add(a, b) => 1 + expr_size(*a) + expr_size(*b),
        Expr::Mul(a, b) => 1 + expr_size(*a) + expr_size(*b),
        Expr::Square(a) => 1 + expr_size(*a),
        Expr::Pow(a, _) => 1 + expr_size(*a),
        _ => 1,
    }
}

/// The sub-expressions of the children of `e`.
pub open spec fn child_subterms(e: Expr) -> Set<Expr> {
    match e {
        Expr::Add(a, b) => subterms(*a) + subterms(*b),
        Expr::Mul(a, b) => subterms(*a) + subterms(*b),
        Expr::Square(a) => subterms(*a),
        Expr::Pow(a, _) => subterms(*a),
        _ => Set::empty(),
    }
}

/// A sub-expression is no larger than the expression.
proof fn lemma_subterm_size(e: Expr, s: Expr)
    requires
        subterms(e).contains(s),
    ensures
        expr_size(s) <= expr_size(e),
    decreases e,
{
    match e {
        Expr::Add(a, b) => {
            if s != e {
                if subterms(deref_node(&a)).contains(s) {
                    lemma_subterm_size(deref_node(&a), s);
                } else {
                    lemma_subterm_size(deref_node(&b), s);
                }
            }
        },
        Expr::Mul(a, b) => {
            if s != e {
                if subterms(deref_node(&a)).contains(s) {
                    lemma_subterm_size(deref_node(&a), s);
                } else {
                    lemma_subterm_size(deref_node(&b), s);
                }
            }
        },
        Expr::Square(a) => {
            if s != e {
                lemma_subterm_size(deref_node(&a), s);
            }
        },
        Expr::Pow(a, _) => {
            if s != e {
                lemma_subterm_size(deref_node(&a), s);
            }
        },
        _ => {},
    }
}

/// An expression is not a sub-expression of its own children.
proof fn lemma_not_in_children(e: Expr)
    ensures
        !child_subterms(e).contains(e),
{
    match e {
        Expr::Add(a, b) => {
            if subterms(deref_node(&a)).contains(e) {
                lemma_subterm_size(deref_node(&a), e);
            }
            if subterms(deref_node(&b)).contains(e) {
                lemma_subterm_size(deref_node(&b), e);
            }
        },
        Expr::Mul(a, b) => {
            if subterms(deref_node(&a)).contains(e) {
                lemma_subterm_size(deref_node(&a), e);
            }
            if subterms(deref_node(&b)).contains(e) {
                lemma_subterm_size(deref_node(&b), e);
            }
        },
        Expr::Square(a) => {
            if subterms(deref_node(&a)).contains(e) {
                lemma_subterm_size(deref_node(&a), e);
            }
        },
        Expr::Pow(a, _) => {
            if subterms(deref_node(&a)).contains(e) {
                lemma_subterm_size(deref_node(&a), e);
            }
        },
        _ => {},
    }
}

/// The sub-expressions of a sub-expression are sub-expressions.
proof fn lemma_subterms_transitive(e: Expr, s: Expr)
    requires
        subterms(e).contains(s),
    ensures
        subterms(s).subset_of(subterms(e)),
    decreases e,
{
    if s != e {
        match e {
            Expr::Add(a, b) => {
                if subterms(deref_node(&a)).contains(s) {
                    lemma_subterms_transitive(deref_node(&a), s);
                } else {
                    lemma_subterms_transitive(deref_node(&b), s);
                }
            },
            Expr::Mul(a, b) => {
                if subterms(deref_node(&a)).contains(s) {
                    lemma_subterms_transitive(deref_node(&a), s);
                } else {
                    lemma_subterms_transitive(deref_node(&b), s);
                }
            },
            Expr::Square(a) => {
                lemma_subterms_transitive(deref_node(&a), s);
            },
            Expr::Pow(a, _) => {
                lemma_subterms_transitive(deref_node(&a), s);
            },
            _ => {},
        }
    }
}

/// The sub-expressions of every member of `child_subterms(e)` lie within it.
proof fn lemma_children_closed(e: Expr)
    ensures
        forall|s: Expr| #[trigger] child_subterms(e).contains(s) ==> subterms(s).subset_of(
            child_subterms(e),
        ),
{
    assert forall|s: Expr| #[trigger] child_subterms(e).contains(s) implies subterms(s).subset_of(
        child_subterms(e),
    ) by {
        match e {
            Expr::Add(a, b) => {
                if subterms(deref_node(&a)).contains(s) {
                    lemma_subterms_transitive(deref_node(&a), s);
                } else {
                    lemma_subterms_transitive(deref_node(&b), s);
                }
            },
            Expr::Mul(a, b) => {
                if subterms(deref_node(&a)).contains(s) {
                    lemma_subterms_transitive(deref_node(&a), s);
                } else {
                    lemma_subterms_transitive(deref_node(&b), s);
                }
            },
            Expr::Square(a) => {
                lemma_subterms_transitive(deref_node(&a), s);
            },
            Expr::Pow(a, _) => {
                lemma_subterms_transitive(deref_node(&a), s);
            },
            _ => {},
        }
    }
}

/// `e` is an operation (not the input and not a constant).
pub open spec fn is_operation(e: Expr) -> bool {
    !(e is Input) && !(e is Const)
}

/// The number of distinct interior operations of `e` (see [`node_count`]).
pub open spec fn op_count(e: Expr) -> nat {
    subterms(e).filter(|s: Expr| is_operation(s)).len()
}

/// The sub-expressions of `e` are finitely many and none is larger than `e`.
proof fn lemma_subterms_bounded(e: Expr)
    ensures
        subterms(e).finite(),
        forall|t: Expr| #[trigger] subterms(e).contains(t) ==> expr_size(t) <= expr_size(e),
    decreases e,
{
    match e {
        Expr::Add(a, b) => {
            lemma_subterms_bounded(deref_node(&a));
            lemma_subterms_bounded(deref_node(&b));
        },
        Expr::Mul(a, b) => {
            lemma_subterms_bounded(deref_node(&a));
            lemma_subterms_bounded(deref_node(&b));
        },
        Expr::Square(a) => {
            lemma_subterms_bounded(deref_node(&a));
        },
        Expr::Pow(a, _) => {
            lemma_subterms_bounded(deref_node(&a));
        },
        _ => {},
    }
}

/// Adding one operation on top of `a`, whose sub-expressions are all
/// shared, adds exactly one distinct operation.
proof fn lemma_op_count_top(top: Expr, a: Expr)
    requires
        is_operation(top),
        expr_size(top) > expr_size(a),
        subterms(top) == set![top] + subterms(a),
    ensures
        op_count(top) == op_count(a) + 1,
{
    lemma_subterms_bounded(a);
    let f = |s: Expr| is_operation(s);
    assert(!subterms(a).contains(top));
    assert(subterms(top).filter(f) =~= subterms(a).filter(f).insert(top));
    assert(!subterms(a).filter(f).contains(top));
}

/// Multiplying a node by itself, or squaring it, adds exactly one distinct
/// operation: the operand is shared, never counted twice.
pub proof fn lemma_node_count_wrap(a: Node)
    ensures
        op_count(Expr::Mul(a, a)) == op_count(*a) + 1,
        op_count(Expr::Square(a)) == op_count(*a) + 1,
{
    assert(subterms(Expr::Mul(a, a)) =~= set![Expr::Mul(a, a)] + subterms(*a));
    lemma_op_count_top(Expr::Mul(a, a), deref_node(&a));
    assert(subterms(Expr::Square(a)) =~= set![Expr::Square(a)] + subterms(*a));
    lemma_op_count_top(Expr::Square(a), deref_node(&a));
}

/// Number of distinct interior operations of `e` once structurally equal
/// sub-expressions are shared: its distinct sub-expressions that are neither
/// the input nor a constant.
pub fn node_count(e: &Node) -> (n: usize)
    ensures
        n == op_count(**e),
{
    let mut seen: Vec<Node> = Vec::new();
    proof {
        assert(node_exprs(seen@) =~= Seq::<Expr>::empty());
        assert(node_exprs(seen@).to_set() =~= Set::<Expr>::empty());
    }
    collect_subterms(e, &mut seen);
    let ghost all = node_exprs(seen@);
    proof {
        assert(all.to_set() =~= subterms(**e));
    }
    let mut n: usize = 0;
    let ghost mut ops: Seq<Expr> = Seq::empty();
    for i in 0..seen.len()
        invariant
            all == node_exprs(seen@),
            all.no_duplicates(),
            ops.no_duplicates(),
            n == ops.len(),
            n <= i,
            ops.to_set() == all.take(i as int).to_set().filter(|s: Expr| is_operation(s)),
    {
        let ghost before = ops;
        let ghost x = all[i as int];
        proof {
            assert(all.take(i + 1) =~= all.take(i as int).push(x));
            all.take(i as int).lemma_push_to_set_commute(x);
            assert(!all.take(i as int).to_set().contains(x)) by {
                if all.take(i as int).to_set().contains(x) {
                    let j = choose|j: int| 0 <= j < i && all.take(i as int)[j] == x;
                    assert(all[j] == all[i as int]);
                }
            }
        }
        let op = match &*seen[i] {
            Expr::Input => false,
            Expr::Const(_) => false,
            _ => true,
        };
        if op {
            n = n + 1;
            proof {
                ops = ops.push(x);
                before.lemma_push_to_set_commute(x);
                assert(ops.no_duplicates()) by {
                    assert forall|a: int, b: int| 0 <= a < ops.len() && 0 <= b < ops.len() && a != b implies ops[a]
                        != ops[b] by {
                        if a == before.len() {
                            assert(before.to_set().contains(ops[b]));
                        } else if b == before.len() {
                            assert(before.to_set().contains(ops[a]));
                        }
                    }
                }
            }
        }
        proof {
            assert(ops.to_set() =~= all.take(i + 1).to_set().filter(|s: Expr| is_operation(s)));
        }
    }
    proof {
        assert(all.take(all.len() as int) =~= all);
        ops.unique_seq_to_set();
    }
    n
}

/// Wire `w` of `steps` holds the value of `e` at the value of wire `x` of
/// `s0`, for all private inputs.
pub open spec fn wire_is(steps: Seq<Step>, s0: Seq<Step>, x: usize, w: int, e: Expr) -> bool {
    forall|inputs: Seq<u64>|
        #[trigger] wire_values(steps, inputs)[w] == reduce(eval(e, wire_values(s0, inputs)[x as int]))
}

/// Every memo entry names a wire that holds the value of its expression.
pub open spec fn memo_ok(memo: Seq<(Node, usize)>, steps: Seq<Step>, s0: Seq<Step>, x: usize) -> bool {
    forall|i: int|
        0 <= i < memo.len() ==> (#[trigger] memo[i]).1 < steps.len() && wire_is(steps, s0, x, memo[i].1 as int, *memo[i].0)
}

/// Arithmetic extension keeps the value of an earlier wire.
proof fn lemma_wire_is_extend(sa: Seq<Step>, sb: Seq<Step>, s0: Seq<Step>, x: usize, w: int, e: Expr)
    requires
        extends_arith(sa, sb),
        0 <= w < sa.len(),
        wire_is(sa, s0, x, w, e),
    ensures
        wire_is(sb, s0, x, w, e),
{
    assert forall|inputs: Seq<u64>|
        #[trigger] wire_values(sb, inputs)[w] == reduce(eval(e, wire_values(s0, inputs)[x as int])) by {
        lemma_wire_len(sa, inputs);
        lemma_wire_len(sb, inputs);
        assert(wire_values(sb, inputs).subrange(0, sa.len() as int) == wire_values(sa, inputs));
        assert(wire_values(sb, inputs)[w] == wire_values(sb, inputs).subrange(0, sa.len() as int)[w]);
    }
}

/// Arithmetic extension keeps every memo entry valid.
proof fn lemma_memo_extend(memo: Seq<(Node, usize)>, sa: Seq<Step>, sb: Seq<Step>, s0: Seq<Step>, x: usize)
    requires
        extends_arith(sa, sb),
        memo_ok(memo, sa, s0, x),
    ensures
        memo_ok(memo, sb, s0, x),
{
    assert forall|i: int| 0 <= i < memo.len() implies (#[trigger] memo[i]).1 < sb.len() && wire_is(
        sb,
        s0,
        x,
        memo[i].1 as int,
        *memo[i].0,
    ) by {
        lemma_wire_is_extend(sa, sb, s0, x, memo[i].1 as int, *memo[i].0);
    }
}

/// The expressions memoised in `memo`.
pub open spec fn memo_keys(memo: Seq<(Node, usize)>) -> Seq<Expr> {
    memo.map_values(|p: (Node, usize)| *p.0)
}

/// One where the input `x` is memoised: it is the one entry without a step.
pub open spec fn input_memoised(memo: Seq<(Node, usize)>) -> int {
    if memo_keys(memo).contains(Expr::Input) {
        1
    } else {
        0
    }
}

/// Memoising a new expression whose children's sub-expressions are already
/// memoised keeps the keys distinct and closed, and adds the expression.
proof fn lemma_memo_push(m: Seq<(Node, usize)>, k0: Set<Expr>, p: (Node, usize))
    requires
        memo_keys(m).no_duplicates(),
        memo_keys(m).to_set() == k0 + child_subterms(*p.0),
        closed_under_subterms(memo_keys(m).to_set()),
        !k0.contains(*p.0),
    ensures
        memo_keys(m.push(p)).no_duplicates(),
        closed_under_subterms(memo_keys(m.push(p)).to_set()),
        memo_keys(m.push(p)).to_set() == k0 + subterms(*p.0),
        input_memoised(m.push(p)) == input_memoised(m) + if *p.0 == Expr::Input {
            1int
        } else {
            0int
        },
{
    let e = *p.0;
    let ks = memo_keys(m);
    lemma_not_in_children(e);
    lemma_children_closed(e);
    assert(memo_keys(m.push(p)) =~= ks.push(e));
    assert(!ks.to_set().contains(e));
    ks.lemma_push_to_set_commute(e);
    assert(subterms(e) =~= set![e] + child_subterms(e));
    assert(ks.push(e).to_set() =~= k0 + subterms(e));
    assert(ks.push(e).no_duplicates()) by {
        assert forall|i: int, j: int|
            0 <= i < ks.push(e).len() && 0 <= j < ks.push(e).len() && i != j implies ks.push(e)[i]
                != ks.push(e)[j] by {
            if i == ks.len() as int {
                assert(ks.to_set().contains(ks[j]));
            } else if j == ks.len() as int {
                assert(ks.to_set().contains(ks[i]));
            }
        }
    }
    assert(closed_under_subterms(ks.push(e).to_set())) by {
        assert forall|s: Expr| #[trigger] ks.push(e).to_set().contains(s) implies subterms(s).subset_of(
            ks.push(e).to_set(),
        ) by {
            if s != e {
                assert(ks.to_set().contains(s));
            }
        }
    }
    if e == Expr::Input {
        assert(ks.push(e)[ks.len() as int] == Expr::Input);
    } else {
        assert(ks.push(e).contains(Expr::Input) == ks.contains(Expr::Input)) by {
            if ks.contains(Expr::Input) {
                let i = choose|i: int| 0 <= i < ks.len() && ks[i] == Expr::Input;
                assert(ks.push(e)[i] == Expr::Input);
            }
            if ks.push(e).contains(Expr::Input) {
                let i = choose|i: int| 0 <= i < ks.push(e).len() && ks.push(e)[i] == Expr::Input;
                assert(ks[i] == Expr::Input);
            }
        }
    }
}

/// The memo as expressions and their wires.
pub open spec fn memo_pairs(memo: Seq<(Node, usize)>) -> Seq<(Expr, usize)> {
    memo.map_values(|p: (Node, usize)| (*p.0, p.1))
}

/// The wire memoised for `e`, if any: that of its first entry.
pub open spec fn memo_find(keys: Seq<(Expr, usize)>, e: Expr) -> Option<usize>
    decreases keys.len(),
{
    if keys.len() == 0 {
        None
    } else {
        match memo_find(keys.drop_last(), e) {
            Some(w) => Some(w),
            None => if keys.last().0 == e {
                Some(keys.last().1)
            } else {
                None
            },
        }
    }
}

/// Without an entry for `e`, nothing is found.
proof fn lemma_memo_find_none(keys: Seq<(Expr, usize)>, e: Expr)
    requires
        forall|j: int| 0 <= j < keys.len() ==> (#[trigger] keys[j]).0 != e,
    ensures
        memo_find(keys, e) is None,
    decreases keys.len(),
{
    if keys.len() > 0 {
        assert(keys.last() == keys[keys.len() - 1]);
        lemma_memo_find_none(keys.drop_last(), e);
    }
}

/// The first entry for `e` is found.
proof fn lemma_memo_find_first(keys: Seq<(Expr, usize)>, e: Expr, i: int)
    requires
        0 <= i < keys.len(),
        keys[i].0 == e,
        forall|j: int| 0 <= j < i ==> (#[trigger] keys[j]).0 != e,
    ensures
        memo_find(keys, e) == Some(keys[i].1),
    decreases keys.len(),
{
    if i == keys.len() - 1 {
        lemma_memo_find_none(keys.drop_last(), e);
    } else {
        lemma_memo_find_first(keys.drop_last(), e, i);
    }
}

/// What emitting `e` appends, with `keys` memoised, `n` steps already in
/// the plan and the input at wire `x`: the new steps, the wire of `e`, and
/// the memo afterwards. A memoised expression adds nothing; otherwise the
/// operands are emitted first (left, then right), then one step for `e`
/// itself (none for the input), and `e` is memoised.
pub open spec fn emit_spec(e: Expr, keys: Seq<(Expr, usize)>, n: nat, x: usize) -> (Seq<Step>, usize, Seq<(Expr, usize)>)
    decreases e,
{
    match memo_find(keys, e) {
        Some(w) => (Seq::empty(), w, keys),
        None => match e {
            Expr::Input => (Seq::empty(), x, keys.push((e, x))),
            Expr::Const(c) => (seq![Step::Constant(c)], n as usize, keys.push((e, n as usize))),
            Expr::Add(a, b) => {
                let ra = emit_spec(*a, keys, n, x);
                let rb = emit_spec(*b, ra.2, n + ra.0.len(), x);
                let w = (n + ra.0.len() + rb.0.len()) as usize;
                ((ra.0 + rb.0).push(Step::Add(ra.1, rb.1)), w, rb.2.push((e, w)))
            },
            Expr::Mul(a, b) => {
                let ra = emit_spec(*a, keys, n, x);
                let rb = emit_spec(*b, ra.2, n + ra.0.len(), x);
                let w = (n + ra.0.len() + rb.0.len()) as usize;
                ((ra.0 + rb.0).push(Step::Mul(ra.1, rb.1)), w, rb.2.push((e, w)))
            },
            Expr::Square(a) => {
                let ra = emit_spec(*a, keys, n, x);
                let w = (n + ra.0.len()) as usize;
                (ra.0.push(Step::Square(ra.1)), w, ra.2.push((e, w)))
            },
            Expr::Pow(a, k) => {
                let ra = emit_spec(*a, keys, n, x);
                let w = (n + ra.0.len()) as usize;
                (ra.0.push(Step::Exp(ra.1, k)), w, ra.2.push((e, w)))
            },
        },
    }
}

/// Emit `e` into the plan, sharing sub-expressions already in `memo`, and
/// return its wire.
#[verifier::spinoff_prover]
#[verifier::rlimit(60)]
fn emit_node(
    e: &Node,
    steps: &mut Vec<Step>,
    x: usize,
    memo: &mut Vec<(Node, usize)>,
    Ghost(s0): Ghost<Seq<Step>>,
) -> (t: usize)
    requires
        x < s0.len(),
        plan_well_formed(s0),
        extends_arith(s0, old(steps)@),
        plan_well_formed(old(steps)@),
        memo_ok(old(memo)@, old(steps)@, s0, x),
        memo_keys(old(memo)@).no_duplicates(),
        closed_under_subterms(memo_keys(old(memo)@).to_set()),
    ensures
        extends_arith(old(steps)@, final(steps)@),
        plan_well_formed(final(steps)@),
        memo_ok(final(memo)@, final(steps)@, s0, x),
        t < final(steps)@.len(),
        wire_is(final(steps)@, s0, x, t as int, **e),
        memo_keys(final(memo)@).no_duplicates(),
        closed_under_subterms(memo_keys(final(memo)@).to_set()),
        memo_keys(final(memo)@).to_set() == memo_keys(old(memo)@).to_set() + subterms(**e),
        final(steps)@.len() - old(steps)@.len() == (final(memo)@.len() - input_memoised(final(memo)@)) - (
        old(memo)@.len() - input_memoised(old(memo)@)),
        final(steps)@ == old(steps)@ + emit_spec(**e, memo_pairs(old(memo)@), old(steps)@.len(), x).0,
        t == emit_spec(**e, memo_pairs(old(memo)@), old(steps)@.len(), x).1,
        memo_pairs(final(memo)@) == emit_spec(**e, memo_pairs(old(memo)@), old(steps)@.len(), x).2,
    decreases **e,
{
    let ghost k0 = memo_keys(memo@).to_set();
    let n = memo.len();
    for i in 0..n
        invariant
            n == memo@.len(),
            memo_ok(memo@, steps@, s0, x),
            plan_well_formed(steps@),
            k0 == memo_keys(memo@).to_set(),
            memo_keys(memo@).no_duplicates(),
            closed_under_subterms(k0),
            forall|j: int| 0 <= j < i ==> *(#[trigger] memo@[j]).0 != **e,
    {
        if exprs_equal(&memo[i].0, e) {
            proof {
                lemma_extends_refl(steps@);
                assert(memo@[i as int].1 < steps@.len());
                assert(memo_keys(memo@)[i as int] == **e);
                assert(k0.contains(**e));
                assert(k0 + subterms(**e) =~= k0);
                let mp = memo_pairs(memo@);
                assert(mp[i as int].0 == **e);
                let j = choose|j: int| 0 <= j < mp.len() && (#[trigger] mp[j]).0 == **e;
                assert(memo_keys(memo@)[j] == **e);
                assert(i == j);
                assert forall|j: int| 0 <= j < i implies (#[trigger] mp[j]).0 != **e by {
                    assert(mp[j].0 == *memo@[j].0);
                }
                lemma_memo_find_first(mp, deref_node(e), i as int);
                assert(steps@ =~= steps@ + Seq::<Step>::empty());
            }
            return memo[i].1;
        }
    }
    proof {
        assert(!k0.contains(**e)) by {
            if k0.contains(**e) {
                let j = choose|j: int| 0 <= j < memo_keys(memo@).len() && memo_keys(memo@)[j] == **e;
                assert(*memo@[j].0 == **e);
            }
        }
    }
    let ghost s1 = steps@;
    let ghost m1 = memo@;
    proof {
        lemma_extends_refl(s1);
        assert(memo_find(memo_pairs(m1), **e) is None) by {
            let mp = memo_pairs(m1);
            assert forall|j: int| 0 <= j < mp.len() implies (#[trigger] mp[j]).0 != **e by {
                assert(mp[j].0 == *m1[j].0);
            }
            lemma_memo_find_none(mp, deref_node(e));
        }
    }
    let t = match &**e {
        Expr::Input => {
            proof {
                assert forall|inputs: Seq<u64>|
                    #[trigger] wire_values(s1, inputs)[x as int] == reduce(
                        eval(Expr::Input, wire_values(s0, inputs)[x as int]),
                    ) by {
                    lemma_wire_values(s0, inputs);
                    lemma_wire_len(s0, inputs);
                    lemma_wire_len(s1, inputs);
                    vstd::arithmetic::div_mod::lemma_small_mod(wire_values(s0, inputs)[x as int] as nat, ORDER as nat);
                    assert(wire_values(s1, inputs).subrange(0, s0.len() as int) == wire_values(s0, inputs));
                    assert(wire_values(s1, inputs)[x as int] == wire_values(s1, inputs).subrange(0, s0.len() as int)[x as int]);
                }
            }
            x
        },
        Expr::Const(c) => {
            let t = emit(steps, Step::Constant(*c));
            proof {
                assert(steps@ =~= s1 + seq![Step::Constant(*c)]);
            }
            proof {
                lemma_extends_push(s1, s1, Step::Constant(*c));
                lemma_memo_extend(memo@, s1, steps@, s0, x);
                assert forall|inputs: Seq<u64>|
                    #[trigger] wire_values(steps@, inputs)[t as int] == reduce(
                        eval(**e, wire_values(s0, inputs)[x as int]),
                    ) by {
                    lemma_push_step(s1, Step::Constant(*c), inputs);
                    lemma_wire_len(s1, inputs);
                }
            }
            t
        },
        Expr::Add(a, b) => {
            let ta = emit_node(a, steps, x, memo, Ghost(s0));
            let ghost mA = memo@;
            let ghost s2 = steps@;
            proof {
                lemma_extends_trans(s0, s1, s2);
            }
            let tb = emit_node(b, steps, x, memo, Ghost(s0));
            let ghost s3 = steps@;
            proof {
                lemma_extends_trans(s0, s2, s3);
                lemma_wire_is_extend(s2, s3, s0, x, ta as int, deref_node(a));
            }
            let t = emit(steps, Step::Add(ta, tb));
            proof {
                let ra = emit_spec(deref_node(a), memo_pairs(m1), s1.len() as nat, x);
                let rb = emit_spec(deref_node(b), memo_pairs(mA), s2.len() as nat, x);
                assert(steps@ =~= s1 + (ra.0 + rb.0).push(Step::Add(ta, tb)));
                assert(emit_spec(**e, memo_pairs(m1), s1.len() as nat, x) == ((ra.0 + rb.0).push(Step::Add(ra.1, rb.1)), t, rb.2.push((**e, t))));
            }
            proof {
                lemma_extends_refl(s3);
                lemma_extends_trans(s1, s2, s3);
                lemma_extends_push(s3, s3, Step::Add(ta, tb));
                lemma_extends_trans(s1, s3, steps@);
                lemma_memo_extend(memo@, s3, steps@, s0, x);
                assert forall|inputs: Seq<u64>|
                    #[trigger] wire_values(steps@, inputs)[t as int] == reduce(
                        eval(**e, wire_values(s0, inputs)[x as int]),
                    ) by {
                    lemma_push_step(s3, Step::Add(ta, tb), inputs);
                    lemma_wire_len(s3, inputs);
                    let xv = wire_values(s0, inputs)[x as int];
                    assert(wire_values(s3, inputs)[ta as int] == reduce(eval(deref_node(a), xv)));
                    assert(wire_values(s3, inputs)[tb as int] == reduce(eval(deref_node(b), xv)));
                    lemma_reduce_add(eval(deref_node(a), xv), eval(deref_node(b), xv));
                }
            }
            t
        },
        Expr::Mul(a, b) => {
            let ta = emit_node(a, steps, x, memo, Ghost(s0));
            let ghost mA = memo@;
            let ghost s2 = steps@;
            proof {
                lemma_extends_trans(s0, s1, s2);
            }
            let tb = emit_node(b, steps, x, memo, Ghost(s0));
            let ghost s3 = steps@;
            proof {
                lemma_extends_trans(s0, s2, s3);
                lemma_wire_is_extend(s2, s3, s0, x, ta as int, deref_node(a));
            }
            let t = emit(steps, Step::Mul(ta, tb));
            proof {
                let ra = emit_spec(deref_node(a), memo_pairs(m1), s1.len() as nat, x);
                let rb = emit_spec(deref_node(b), memo_pairs(mA), s2.len() as nat, x);
                assert(steps@ =~= s1 + (ra.0 + rb.0).push(Step::Mul(ta, tb)));
                assert(emit_spec(**e, memo_pairs(m1), s1.len() as nat, x) == ((ra.0 + rb.0).push(Step::Mul(ra.1, rb.1)), t, rb.2.push((**e, t))));
            }
            proof {
                lemma_extends_refl(s3);
                lemma_extends_trans(s1, s2, s3);
                lemma_extends_push(s3, s3, Step::Mul(ta, tb));
                lemma_extends_trans(s1, s3, steps@);
                lemma_memo_extend(memo@, s3, steps@, s0, x);
                assert forall|inputs: Seq<u64>|
                    #[trigger] wire_values(steps@, inputs)[t as int] == reduce(
                        eval(**e, wire_values(s0, inputs)[x as int]),
                    ) by {
                    lemma_push_step(s3, Step::Mul(ta, tb), inputs);
                    lemma_wire_len(s3, inputs);
                    let xv = wire_values(s0, inputs)[x as int];
                    assert(wire_values(s3, inputs)[ta as int] == reduce(eval(deref_node(a), xv)));
                    assert(wire_values(s3, inputs)[tb as int] == reduce(eval(deref_node(b), xv)));
                    lemma_reduce_mul(eval(deref_node(a), xv), eval(deref_node(b), xv));
                }
            }
            t
        },
        Expr::Square(a) => {
            let ta = emit_node(a, steps, x, memo, Ghost(s0));
            let ghost mA = memo@;
            let ghost s3 = steps@;
            proof {
                lemma_extends_trans(s0, s1, s3);
            }
            let t = emit(steps, Step::Square(ta));
            proof {
                let ra = emit_spec(deref_node(a), memo_pairs(m1), s1.len() as nat, x);
                assert(steps@ =~= s1 + ra.0.push(Step::Square(ta)));
                assert(emit_spec(**e, memo_pairs(m1), s1.len() as nat, x) == (ra.0.push(Step::Square(ra.1)), t, ra.2.push((**e, t))));
            }
            proof {
                lemma_extends_refl(s3);
                lemma_extends_push(s3, s3, Step::Square(ta));
                lemma_extends_trans(s1, s3, steps@);
                lemma_memo_extend(memo@, s3, steps@, s0, x);
                assert forall|inputs: Seq<u64>|
                    #[trigger] wire_values(steps@, inputs)[t as int] == reduce(
                        eval(**e, wire_values(s0, inputs)[x as int]),
                    ) by {
                    lemma_push_step(s3, Step::Square(ta), inputs);
                    lemma_wire_len(s3, inputs);
                    let xv = wire_values(s0, inputs)[x as int];
                    assert(wire_values(s3, inputs)[ta as int] == reduce(eval(deref_node(a), xv)));
                    lemma_reduce_mul(eval(deref_node(a), xv), eval(deref_node(a), xv));
                }
            }
            t
        },
        Expr::Pow(a, k) => {
            let ta = emit_node(a, steps, x, memo, Ghost(s0));
            let ghost mA = memo@;
            let ghost s3 = steps@;
            proof {
                lemma_extends_trans(s0, s1, s3);
            }
            let t = emit(steps, Step::Exp(ta, *k));
            proof {
                let ra = emit_spec(deref_node(a), memo_pairs(m1), s1.len() as nat, x);
                assert(steps@ =~= s1 + ra.0.push(Step::Exp(ta, *k)));
                assert(emit_spec(**e, memo_pairs(m1), s1.len() as nat, x) == (ra.0.push(Step::Exp(ra.1, *k)), t, ra.2.push((**e, t))));
            }
            proof {
                lemma_extends_refl(s3);
                lemma_extends_push(s3, s3, Step::Exp(ta, *k));
                lemma_extends_trans(s1, s3, steps@);
                lemma_memo_extend(memo@, s3, steps@, s0, x);
                assert forall|inputs: Seq<u64>|
                    #[trigger] wire_values(steps@, inputs)[t as int] == reduce(
                        eval(**e, wire_values(s0, inputs)[x as int]),
                    ) by {
                    lemma_push_step(s3, Step::Exp(ta, *k), inputs);
                    lemma_wire_len(s3, inputs);
                    let xv = wire_values(s0, inputs)[x as int];
                    assert(wire_values(s3, inputs)[ta as int] == reduce(eval(deref_node(a), xv)));
                    lemma_reduce_pow(eval(deref_node(a), xv), *k as nat);
                }
            }
            t
        },
    };
    let ghost s4 = steps@;
    let ghost m0 = memo@;
    proof {
        assert(memo_keys(m0).to_set() == k0 + child_subterms(**e)) by {
            match **e {
                Expr::Input => {
                    assert(k0 + child_subterms(**e) =~= k0);
                },
                Expr::Const(_) => {
                    assert(k0 + child_subterms(**e) =~= k0);
                },
                Expr::Add(a, b) => {
                    assert(memo_keys(m0).to_set() =~= k0 + child_subterms(**e));
                },
                Expr::Mul(a, b) => {
                    assert(memo_keys(m0).to_set() =~= k0 + child_subterms(**e));
                },
                _ => {},
            }
        }
    }
    let entry = (e.clone(), t);
    memo.push(entry);
    proof {
        assert(memo_pairs(memo@) =~= memo_pairs(m0).push((**e, t)));
        lemma_memo_push(m0, k0, entry);
        assert forall|i: int| 0 <= i < memo@.len() implies (#[trigger] memo@[i]).1 < s4.len() && wire_is(
            s4,
            s0,
            x,
            memo@[i].1 as int,
            *memo@[i].0,
        ) by {
            if i < m0.len() {
                assert(memo@[i] == m0[i]);
            }
        }
    }
    t
}

/// Emit the expression into the plan, returning the output wire. Sharing of
/// structurally equal sub-expressions is realised by memoisation, so a
/// repeated sub-DAG is emitted once: one step per distinct sub-expression
/// other than `x` itself, operands first ([`emit_spec`]). Only arithmetic
/// steps are added, and the output wire holds the value of the expression at
/// the value of wire `x`.
pub fn to_circuit(e: &Node, steps: &mut Vec<Step>, x: usize) -> (y: usize)
    requires
        x < old(steps)@.len(),
        plan_well_formed(old(steps)@),
    ensures
        extends_arith(old(steps)@, final(steps)@),
        plan_well_formed(final(steps)@),
        y < final(steps)@.len(),
        forall|inputs: Seq<u64>|
            #[trigger] wire_values(final(steps)@, inputs)[y as int] == reduce(
                eval(**e, wire_values(old(steps)@, inputs)[x as int]),
            ),
        final(steps)@.len() == old(steps)@.len() + subterms(**e).remove(Expr::Input).len(),
        final(steps)@ == old(steps)@ + emit_spec(**e, Seq::empty(), old(steps)@.len(), x).0,
        y == emit_spec(**e, Seq::empty(), old(steps)@.len(), x).1,
{
    let mut memo: Vec<(Node, usize)> = Vec::new();
    proof {
        assert(memo_pairs(memo@) =~= Seq::<(Expr, usize)>::empty());
        lemma_extends_refl(steps@);
        assert(memo_keys(memo@) =~= Seq::<Expr>::empty());
        assert(memo_keys(memo@).to_set() =~= Set::<Expr>::empty());
    }
    let y = emit_node(e, steps, x, &mut memo, Ghost(steps@));
    proof {
        let ks = memo_keys(memo@);
        let st = subterms(deref_node(e));
        lemma_subterms_basic(deref_node(e));
        assert(ks.to_set() =~= st);
        ks.unique_seq_to_set();
        if st.contains(Expr::Input) {
            let i = choose|i: int| 0 <= i < ks.len() && ks[i] == Expr::Input;
            assert(ks.contains(Expr::Input));
        } else {
            assert(st.remove(Expr::Input) =~= st);
            assert(!ks.contains(Expr::Input)) by {
                if ks.contains(Expr::Input) {
                    let i = choose|i: int| 0 <= i < ks.len() && ks[i] == Expr::Input;
                    assert(ks.to_set().contains(ks[i]));
                }
            }
        }
    }
    y
}

} // verus!
