use vstd::prelude::*;

use crate::constant::Constant;
use crate::error::GraphError;
use crate::graph::{
    Graph,
    adds_at_most,
    children_below,
    lemma_extends_refl,
    lemma_term_injective,
    lemma_term_unfold,
};
use crate::node::{Binary, BinaryOp, Collection, Node, NodeType, Unary, UnaryOp, Variable};
use crate::term::{Term, divides_by_zero, int_term, node_term, simp_binary, simp_product, simp_unary};

verus! {

/// `new` is `old` with at most the node `r` added, and `r` stands for `t`.
pub open spec fn built(old: Graph, new: Graph, r: int, t: Term) -> bool {
    &&& old.extended_by(new)
    &&& new.holds(r)
    &&& new.term_of(r) == t
    &&& adds_at_most(old.store(), new.store(), r)
}

/// The outcome of building `l op r` on `old`.
pub open spec fn binary_post(
    old: Graph,
    new: Graph,
    op: BinaryOp,
    l: int,
    r: int,
    res: Result<usize, GraphError>,
) -> bool {
    let a = old.term_of(l);
    let b = old.term_of(r);
    match res {
        Ok(h) => !divides_by_zero(op, a, b) && built(old, new, h as int, simp_binary(op, a, b)),
        Err(e) => divides_by_zero(op, a, b) && e == GraphError::DivisionByZero && new == old,
    }
}

impl Graph {
    /// Whether node `h` is the constant integer `k`.
    pub fn is_constant(&self, h: usize, k: i64) -> (r: bool)
        requires
            self.wf(),
            self.holds(h as int),
        ensures
            r == (self.term_of(h as int) == int_term(k)),
    {
        proof {
            lemma_term_unfold(self.store(), h as int, h as int);
        }
        self.node(h).interior.is_constant_int(k)
    }

    /// The node for the constant `value`.
    pub fn new_constant(&mut self, value: Constant) -> (r: usize)
        requires
            old(self).wf(),
            value.wf(),
        ensures
            built(*old(self), *final(self), r as int, Term::Const(value)),
    {
        let node = Node::new(self, NodeType::Constant(value));
        let r = self.insert(node);
        proof {
            if self.store().len() > old(self).store().len() {
                assert(self.store().drop_last() =~= old(self).store());
            }
        }
        r
    }

    /// The node for the variable `name` in the given role.
    pub fn new_variable(&mut self, name: String, parameter: bool) -> (r: usize)
        requires
            old(self).wf(),
        ensures
            built(*old(self), *final(self), r as int, Term::Var(name@, parameter)),
    {
        let node = Node::new(self, NodeType::Variable(Variable::new(name, parameter)));
        let r = self.insert(node);
        proof {
            if self.store().len() > old(self).store().len() {
                assert(self.store().drop_last() =~= old(self).store());
            }
        }
        r
    }

    /// The node for a collection of existing nodes.
    pub fn new_collection(&mut self, collection: Collection) -> (r: usize)
        requires
            old(self).wf(),
            collection.wf(),
            children_below(NodeType::Collection(collection), old(self).store().len() as int),
        ensures
            built(
                *old(self),
                *final(self),
                r as int,
                node_term(
                    old(self).store(),
                    NodeType::Collection(collection),
                    old(self).store().len() as int,
                ),
            ),
    {
        let node = Node::new(self, NodeType::Collection(collection));
        let r = self.insert(node);
        proof {
            if self.store().len() > old(self).store().len() {
                assert(self.store().drop_last() =~= old(self).store());
            }
        }
        r
    }

    /// Stores `op argument` without simplifying.
    fn plain_unary(&mut self, op: UnaryOp, argument: usize) -> (r: usize)
        requires
            old(self).wf(),
            old(self).holds(argument as int),
        ensures
            built(
                *old(self),
                *final(self),
                r as int,
                Term::Unary(op, Box::new(old(self).term_of(argument as int))),
            ),
    {
        let k = NodeType::Unary(Unary { operation: op, argument });
        assert(k.children()[0] == argument);
        let node = Node::new(self, k);
        let r = self.insert(node);
        proof {
            if self.store().len() > old(self).store().len() {
                assert(self.store().drop_last() =~= old(self).store());
            }
        }
        r
    }

    /// The node for `op argument`, simplified: `exp(log(x))` and
    /// `log(exp(x))` give `x`, `-(-x)` gives `x`, and the negation of a
    /// constant is a constant.
    pub fn new_unary(&mut self, op: UnaryOp, argument: usize) -> (r: usize)
        requires
            old(self).wf(),
            old(self).holds(argument as int),
        ensures
            built(*old(self), *final(self), r as int, simp_unary(op, old(self).term_of(argument as int))),
    {
        let ghost s = self.store();
        proof {
            lemma_term_unfold(s, argument as int, argument as int);
            assert(self.wf());
        }
        let (inner, constant) = match &self.node(argument).interior {
            NodeType::Unary(u) => (Some(*u), None),
            NodeType::Constant(c) => (None, Some(*c)),
            _ => (None, None),
        };
        proof {
            assert(s[argument as int].interior.wf());
            if let Some(u) = inner {
                assert(s[argument as int].interior.children()[0] == u.argument);
            }
        }
        match op {
            UnaryOp::Exp => {
                if let Some(u) = inner {
                    if u.operation == UnaryOp::Log {
                        proof {
                            lemma_extends_refl(*self);
                        }
                        return u.argument;
                    }
                }
            },
            UnaryOp::Log => {
                if let Some(u) = inner {
                    if u.operation == UnaryOp::Exp {
                        proof {
                            lemma_extends_refl(*self);
                        }
                        return u.argument;
                    }
                }
            },
            UnaryOp::Negative => {
                if let Some(u) = inner {
                    if u.operation == UnaryOp::Negative {
                        proof {
                            lemma_extends_refl(*self);
                        }
                        return u.argument;
                    }
                } else if let Some(c) = constant {
                    return self.new_constant(c.neg());
                }
            },
            _ => {},
        }
        self.plain_unary(op, argument)
    }

    /// Stores `left op right` without simplifying.
    fn plain_binary(&mut self, op: BinaryOp, left: usize, right: usize) -> (r: usize)
        requires
            old(self).wf(),
            old(self).holds(left as int),
            old(self).holds(right as int),
        ensures
            built(
                *old(self),
                *final(self),
                r as int,
                Term::Binary(
                    op,
                    Box::new(old(self).term_of(left as int)),
                    Box::new(old(self).term_of(right as int)),
                ),
            ),
    {
        let k = NodeType::Binary(Binary { operation: op, left, right });
        assert(k.children()[0] == left && k.children()[1] == right);
        let node = Node::new(self, k);
        let r = self.insert(node);
        proof {
            if self.store().len() > old(self).store().len() {
                assert(self.store().drop_last() =~= old(self).store());
            }
        }
        r
    }

    /// The node for `left * right`, simplified.
    pub(crate) fn product(&mut self, left: usize, right: usize) -> (r: usize)
        requires
            old(self).wf(),
            old(self).holds(left as int),
            old(self).holds(right as int),
        ensures
            built(
                *old(self),
                *final(self),
                r as int,
                simp_product(old(self).term_of(left as int), old(self).term_of(right as int)),
            ),
    {
        if self.is_constant(left, 0) || self.is_constant(right, 0) {
            self.new_constant(Constant::from_int(0))
        } else if self.is_constant(left, 1) {
            proof {
                lemma_extends_refl(*self);
            }
            right
        } else if self.is_constant(right, 1) {
            proof {
                lemma_extends_refl(*self);
            }
            left
        } else if self.is_constant(left, -1) {
            self.new_unary(UnaryOp::Negative, right)
        } else if self.is_constant(right, -1) {
            self.new_unary(UnaryOp::Negative, left)
        } else {
            self.plain_binary(BinaryOp::Mul, left, right)
        }
    }

    /// The node for `left op right`, simplified:
    /// `x+0`, `0+x`, `x-0`, `x*1`, `1*x`, `x/1` and `x^1` give `x`;
    /// `0-x`, `x*-1`, `-1*x` and `x/-1` give `-x`;
    /// `x-x`, `0*x`, `x*0`, `0/x` and `0^x` give `0`; `x^0` gives `1`;
    /// `x^2` gives `x*x`, itself simplified.
    /// Dividing a non-zero node by the constant zero is an error; the
    /// operands are taken as already built, so a divisor that simplified to
    /// zero (such as `a - a`) is rejected too.
    pub fn new_binary(&mut self, op: BinaryOp, left: usize, right: usize) -> (r: Result<
        usize,
        GraphError,
    >)
        requires
            old(self).wf(),
            old(self).holds(left as int),
            old(self).holds(right as int),
        ensures
            binary_post(*old(self), *final(self), op, left as int, right as int, r),
    {
        proof {
            lemma_extends_refl(*self);
        }
        match op {
            BinaryOp::Add => {
                if self.is_constant(left, 0) {
                    return Ok(right);
                } else if self.is_constant(right, 0) {
                    return Ok(left);
                }
            },
            BinaryOp::Sub => {
                if self.is_constant(left, 0) {
                    return Ok(self.new_unary(UnaryOp::Negative, right));
                } else if self.is_constant(right, 0) {
                    return Ok(left);
                } else if left == right {
                    return Ok(self.new_constant(Constant::from_int(0)));
                }
                proof {
                    if self.term_of(left as int) == self.term_of(right as int) {
                        lemma_term_injective(self.store(), left as int, right as int);
                    }
                }
            },
            BinaryOp::Mul => {
                return Ok(self.product(left, right));
            },
            BinaryOp::Div => {
                if self.is_constant(left, 0) {
                    return Ok(self.new_constant(Constant::from_int(0)));
                } else if self.is_constant(right, 1) {
                    return Ok(left);
                } else if self.is_constant(right, -1) {
                    return Ok(self.new_unary(UnaryOp::Negative, left));
                } else if self.is_constant(right, 0) {
                    return Err(GraphError::DivisionByZero);
                }
            },
            BinaryOp::Pow => {
                if self.is_constant(left, 0) {
                    return Ok(self.new_constant(Constant::from_int(0)));
                } else if self.is_constant(right, 0) {
                    return Ok(self.new_constant(Constant::from_int(1)));
                } else if self.is_constant(right, 1) {
                    return Ok(left);
                } else if self.is_constant(right, 2) {
                    return Ok(self.product(left, left));
                }
            },
        }
        Ok(self.plain_binary(op, left, right))
    }
}

} // verus!
