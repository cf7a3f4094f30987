use vstd::prelude::*;

use crate::constant::Constant;
use crate::node::{BinaryOp, Collection, Node, NodeType, UnaryOp, names_view};

verus! {

/// The expression tree that a node stands for, with sharing unfolded.
pub enum Term {
    Const(Constant),
    /// A variable: its name and whether it is a parameter.
    Var(Seq<char>, bool),
    Unary(UnaryOp, Box<Term>),
    Binary(BinaryOp, Box<Term>, Box<Term>),
    Array(Seq<Term>),
    Tuple(Seq<Term>),
    /// A record: its name, its field names, and its field values.
    Struct(Seq<char>, Seq<Seq<char>>, Seq<Term>),
}

/// The constant integer `k` as a term.
pub open spec fn int_term(k: i64) -> Term {
    Term::Const(Constant::int_spec(k))
}

/// The term of handle `h` in store `s`.
pub open spec fn term(s: Seq<Node>, h: int) -> Term
    decreases h, 2int, 0int,
{
    if 0 <= h < s.len() {
        node_term(s, s[h].interior, h)
    } else {
        Term::Array(Seq::empty())
    }
}

/// The term of a node whose children lie below `bound` in `s`.
pub open spec fn node_term(s: Seq<Node>, k: NodeType, bound: int) -> Term
    decreases bound, 1int, 0int,
{
    match k {
        NodeType::Constant(c) => Term::Const(c),
        NodeType::Variable(v) => Term::Var(v.name@, v.parameter),
        NodeType::Unary(u) => {
            if 0 <= u.argument < bound {
                Term::Unary(u.operation, Box::new(term(s, u.argument as int)))
            } else {
                Term::Array(Seq::empty())
            }
        },
        NodeType::Binary(b) => {
            if 0 <= b.left < bound && 0 <= b.right < bound {
                Term::Binary(
                    b.operation,
                    Box::new(term(s, b.left as int)),
                    Box::new(term(s, b.right as int)),
                )
            } else {
                Term::Array(Seq::empty())
            }
        },
        NodeType::Collection(Collection::Array(a)) => Term::Array(terms(s, a.elements@, bound)),
        NodeType::Collection(Collection::Tuple(t)) => Term::Tuple(terms(s, t.elements@, bound)),
        NodeType::Collection(Collection::Struct(r)) => Term::Struct(
            r.name@,
            names_view(r.name_order@),
            terms(s, r.elements@, bound),
        ),
    }
}

/// The terms of a list of handles below `bound`.
pub open spec fn terms(s: Seq<Node>, hs: Seq<usize>, bound: int) -> Seq<Term>
    decreases bound, 0int, hs.len(),
{
    if hs.len() == 0 {
        Seq::empty()
    } else {
        let last = hs.last();
        terms(s, hs.drop_last(), bound).push(
            if 0 <= last < bound {
                term(s, last as int)
            } else {
                Term::Array(Seq::empty())
            },
        )
    }
}

/// What the unary constructor yields for operand `a`.
pub open spec fn simp_unary(op: UnaryOp, a: Term) -> Term {
    let plain = Term::Unary(op, Box::new(a));
    match op {
        UnaryOp::Exp => match a {
            Term::Unary(UnaryOp::Log, x) => *x,
            _ => plain,
        },
        UnaryOp::Log => match a {
            Term::Unary(UnaryOp::Exp, x) => *x,
            _ => plain,
        },
        UnaryOp::Negative => match a {
            Term::Unary(UnaryOp::Negative, x) => *x,
            Term::Const(c) => Term::Const(c.neg_spec()),
            _ => plain,
        },
        _ => plain,
    }
}

/// What the multiplication constructor yields for `a * b`.
pub open spec fn simp_product(a: Term, b: Term) -> Term {
    if a == int_term(0) || b == int_term(0) {
        int_term(0)
    } else if a == int_term(1) {
        b
    } else if b == int_term(1) {
        a
    } else if a == int_term(-1i64) {
        simp_unary(UnaryOp::Negative, b)
    } else if b == int_term(-1i64) {
        simp_unary(UnaryOp::Negative, a)
    } else {
        Term::Binary(BinaryOp::Mul, Box::new(a), Box::new(b))
    }
}

/// Whether building `a op b` divides by the constant zero.
pub open spec fn divides_by_zero(op: BinaryOp, a: Term, b: Term) -> bool {
    op == BinaryOp::Div && a != int_term(0) && b == int_term(0)
}

/// What the binary constructor yields for `a op b` (unless it divides by zero).
pub open spec fn simp_binary(op: BinaryOp, a: Term, b: Term) -> Term {
    let plain = Term::Binary(op, Box::new(a), Box::new(b));
    match op {
        BinaryOp::Add => if a == int_term(0) {
            b
        } else if b == int_term(0) {
            a
        } else {
            plain
        },
        BinaryOp::Sub => if a == int_term(0) {
            simp_unary(UnaryOp::Negative, b)
        } else if b == int_term(0) {
            a
        } else if a == b {
            int_term(0)
        } else {
            plain
        },
        BinaryOp::Mul => simp_product(a, b),
        BinaryOp::Div => if a == int_term(0) {
            int_term(0)
        } else if b == int_term(1) {
            a
        } else if b == int_term(-1i64) {
            simp_unary(UnaryOp::Negative, a)
        } else {
            plain
        },
        BinaryOp::Pow => if a == int_term(0) {
            int_term(0)
        } else if b == int_term(0) {
            int_term(1)
        } else if b == int_term(1) {
            a
        } else if b == int_term(2) {
            simp_product(a, a)
        } else {
            plain
        },
    }
}

} // verus!
