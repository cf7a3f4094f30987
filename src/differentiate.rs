use vstd::prelude::*;

use crate::constant::Constant;
use crate::error::GraphError;
use crate::graph::{Graph, lemma_extends_refl, lemma_extends_trans, lemma_term_unfold, node_fits};
use crate::node::{Binary, BinaryOp, NodeType, Unary, UnaryOp, Variable};
use crate::term::{
    Term,
    divides_by_zero,
    int_term,
    simp_binary,
    simp_product,
    simp_unary,
};

verus! {

/// The derivative of `op u`, given the derivative `du` of `u`.
pub open spec fn unary_derivative(op: UnaryOp, u: Term, du: Term) -> Result<Term, GraphError> {
    match op {
        UnaryOp::Negative => Ok(simp_unary(UnaryOp::Negative, du)),
        UnaryOp::Exp => Ok(simp_product(du, simp_unary(UnaryOp::Exp, u))),
        UnaryOp::Log => if divides_by_zero(BinaryOp::Div, du, u) {
            Err(GraphError::DivisionByZero)
        } else {
            Ok(simp_binary(BinaryOp::Div, du, u))
        },
        UnaryOp::Sin => Ok(simp_product(du, simp_unary(UnaryOp::Cos, u))),
        UnaryOp::Cos => Ok(
            simp_product(du, simp_unary(UnaryOp::Negative, simp_unary(UnaryOp::Sin, u))),
        ),
        UnaryOp::Tan => Ok(
            simp_product(
                du,
                simp_binary(BinaryOp::Pow, simp_unary(UnaryOp::Cos, u), int_term(-2i64)),
            ),
        ),
    }
}

/// The derivative of `l op r`, given the derivatives `dl` and `dr`.
pub open spec fn binary_derivative(op: BinaryOp, l: Term, r: Term, dl: Term, dr: Term) -> Result<
    Term,
    GraphError,
> {
    match op {
        BinaryOp::Add => Ok(simp_binary(BinaryOp::Add, dl, dr)),
        BinaryOp::Sub => Ok(simp_binary(BinaryOp::Sub, dl, dr)),
        BinaryOp::Mul => Ok(simp_binary(BinaryOp::Add, simp_product(dl, r), simp_product(l, dr))),
        BinaryOp::Div => {
            let num = simp_binary(BinaryOp::Sub, simp_product(dl, r), simp_product(l, dr));
            let den = simp_product(r, r);
            if divides_by_zero(BinaryOp::Div, num, den) {
                Err(GraphError::DivisionByZero)
            } else {
                Ok(simp_binary(BinaryOp::Div, num, den))
            }
        },
        BinaryOp::Pow => match r {
            Term::Const(c) => if c.can_decrement() {
                Ok(
                    simp_product(
                        dl,
                        simp_product(
                            r,
                            simp_binary(BinaryOp::Pow, l, Term::Const(c.decrement_spec())),
                        ),
                    ),
                )
            } else {
                Err(GraphError::ConstantOutOfRange)
            },
            _ => Err(GraphError::UnsupportedDifferentiation),
        },
    }
}

/// The partial derivative of `t` with respect to the variable `v` (its name
/// and role), as the simplifying constructors build it.
pub open spec fn derivative(t: Term, v: (Seq<char>, bool)) -> Result<Term, GraphError>
    decreases t,
{
    match t {
        Term::Const(_) => Ok(int_term(0)),
        Term::Var(name, parameter) => Ok(
            if name == v.0 && parameter == v.1 {
                int_term(1)
            } else {
                int_term(0)
            },
        ),
        Term::Unary(op, u) => match derivative(*u, v) {
            Ok(du) => unary_derivative(op, *u, du),
            Err(e) => Err(e),
        },
        Term::Binary(op, l, r) => match derivative(*l, v) {
            Ok(dl) => match derivative(*r, v) {
                Ok(dr) => binary_derivative(op, *l, *r, dl, dr),
                Err(e) => Err(e),
            },
            Err(e) => Err(e),
        },
        _ => Err(GraphError::UnsupportedDifferentiation),
    }
}

/// Whether each memoised node `x` maps to a node holding the derivative of `x`.
pub open spec fn memo_ok(g: Graph, memo: Seq<Option<usize>>, key: (Seq<char>, bool)) -> bool {
    forall|x: int|
        0 <= x < memo.len() && #[trigger] memo[x] is Some ==> g.holds(x) && g.holds(
            memo[x]->Some_0 as int,
        ) && derivative(g.term_of(x), key) == Ok::<Term, GraphError>(g.term_of(memo[x]->Some_0 as int))
}

proof fn lemma_memo_extend(g1: Graph, g2: Graph, memo: Seq<Option<usize>>, key: (Seq<char>, bool))
    requires
        g1.extended_by(g2),
        memo_ok(g1, memo, key),
    ensures
        memo_ok(g2, memo, key),
{
    assert forall|x: int| 0 <= x < memo.len() && #[trigger] memo[x] is Some implies g2.holds(x) && g2.holds(
        memo[x]->Some_0 as int,
    ) && derivative(g2.term_of(x), key) == Ok::<Term, GraphError>(g2.term_of(memo[x]->Some_0 as int)) by {
        assert(g2.term_of(x) == g1.term_of(x));
        assert(g2.term_of(memo[x]->Some_0 as int) == g1.term_of(memo[x]->Some_0 as int));
    }
}

/// Whether a term is a collection.
pub open spec fn is_bundle(t: Term) -> bool {
    t is Array || t is Tuple || t is Struct
}

/// The outcome of a derivation on `old` whose exact result is `expected`.
pub open spec fn derived(
    old: Graph,
    new: Graph,
    r: Result<usize, GraphError>,
    expected: Result<Term, GraphError>,
) -> bool {
    &&& old.extended_by(new)
    &&& match r {
        Ok(h) => new.holds(h as int) && expected == Ok::<Term, GraphError>(new.term_of(h as int)),
        Err(e) => expected == Err::<Term, GraphError>(e),
    }
}

impl Graph {
    /// The partial derivative of node `node` with respect to `variable`.
    pub fn differentiate(&mut self, node: usize, variable: &Variable) -> (r: Result<
        usize,
        GraphError,
    >)
        requires
            old(self).wf(),
            old(self).holds(node as int),
        ensures
            derived(
                *old(self),
                *final(self),
                r,
                derivative(old(self).term_of(node as int), variable.key()),
            ),
    {
        let n = self.len();
        let mut memo: Vec<Option<usize>> = Vec::new();
        let mut j: usize = 0;
        while j < n
            invariant
                j <= n,
                memo@.len() == j,
                forall|x: int| 0 <= x < j ==> #[trigger] memo@[x] is None,
            decreases n - j,
        {
            memo.push(None);
            j = j + 1;
        }
        self.differentiate_node(node, variable, &mut memo)
    }

    /// `differentiate`, where `memo` holds the derivatives already built
    /// during this call, by node.
    fn differentiate_node(
        &mut self,
        node: usize,
        variable: &Variable,
        memo: &mut Vec<Option<usize>>,
    ) -> (r: Result<usize, GraphError>)
        requires
            old(self).wf(),
            old(self).holds(node as int),
            node < old(memo)@.len(),
            memo_ok(*old(self), old(memo)@, variable.key()),
        ensures
            derived(
                *old(self),
                *final(self),
                r,
                derivative(old(self).term_of(node as int), variable.key()),
            ),
            final(memo)@.len() == old(memo)@.len(),
            memo_ok(*final(self), final(memo)@, variable.key()),
        decreases node,
    {
        let ghost g0 = *self;
        let ghost key = variable.key();
        proof {
            lemma_extends_refl(*self);
        }
        if let Some(h) = memo[node] {
            return Ok(h);
        }
        proof {
            lemma_term_unfold(self.store(), node as int, node as int);
            assert(node_fits(self.store(), self.store()[node as int], node as int));
        }
        let (unary, binary, matches, scalar_leaf) = match &self.node(node).interior {
            NodeType::Unary(u) => (Some(*u), None, false, false),
            NodeType::Binary(b) => (None, Some(*b), false, false),
            NodeType::Variable(v) => (
                None,
                None,
                v.name == variable.name && v.parameter == variable.parameter,
                true,
            ),
            NodeType::Constant(_) => (None, None, false, true),
            NodeType::Collection(_) => (None, None, false, false),
        };
        let r: Result<usize, GraphError>;
        if scalar_leaf {
            let k: i64 = if matches {
                1
            } else {
                0
            };
            r = Ok(self.new_constant(Constant::from_int(k)));
        } else if let Some(u) = unary {
            proof {
                assert(g0.store()[node as int].interior.children()[0] == u.argument);
            }
            let arg = u.argument;
            let du = match self.differentiate_node(arg, variable, memo) {
                Ok(h) => h,
                Err(e) => return Err(e),
            };
            let ghost g1 = *self;
            r = self.unary_rule(u.operation, arg, du);
            proof {
                lemma_extends_trans(g0, g1, *self);
                lemma_memo_extend(g1, *self, memo@, key);
            }
        } else if let Some(b) = binary {
            proof {
                assert(g0.store()[node as int].interior.children()[0] == b.left);
                assert(g0.store()[node as int].interior.children()[1] == b.right);
            }
            let dl = match self.differentiate_node(b.left, variable, memo) {
                Ok(h) => h,
                Err(e) => return Err(e),
            };
            let ghost g1 = *self;
            let dr = match self.differentiate_node(b.right, variable, memo) {
                Ok(h) => h,
                Err(e) => {
                    proof {
                        lemma_extends_trans(g0, g1, *self);
                    }
                    return Err(e);
                },
            };
            let ghost g2 = *self;
            proof {
                lemma_extends_trans(g0, g1, g2);
            }
            r = self.binary_rule(b.operation, b.left, b.right, dl, dr);
            proof {
                lemma_extends_trans(g0, g2, *self);
                lemma_memo_extend(g2, *self, memo@, key);
            }
        } else {
            return Err(GraphError::UnsupportedDifferentiation);
        }
        proof {
            lemma_memo_extend(g0, *self, old(memo)@, key);
        }
        match r {
            Ok(h) => {
                let ghost m0 = memo@;
                memo.set(node, Some(h));
                proof {
                    assert(self.term_of(node as int) == g0.term_of(node as int));
                    assert forall|x: int| 0 <= x < memo@.len() && #[trigger] memo@[x] is Some implies self.holds(
                        x,
                    ) && self.holds(memo@[x]->Some_0 as int) && derivative(self.term_of(x), key)
                        == Ok::<Term, GraphError>(self.term_of(memo@[x]->Some_0 as int)) by {
                        if x != node {
                            assert(memo@[x] == m0[x]);
                        }
                    }
                }
                Ok(h)
            },
            Err(e) => Err(e),
        }
    }

    /// Applies the chain rule for `op u`, where `du` is the derivative of `u`.
    fn unary_rule(&mut self, op: UnaryOp, u: usize, du: usize) -> (r: Result<usize, GraphError>)
        requires
            old(self).wf(),
            old(self).holds(u as int),
            old(self).holds(du as int),
        ensures
            derived(
                *old(self),
                *final(self),
                r,
                unary_derivative(op, old(self).term_of(u as int), old(self).term_of(du as int)),
            ),
    {
        let ghost g0 = *self;
        match op {
            UnaryOp::Negative => Ok(self.new_unary(UnaryOp::Negative, du)),
            UnaryOp::Exp => {
                let e = self.new_unary(UnaryOp::Exp, u);
                let ghost g1 = *self;
                let r = self.product(du, e);
                proof {
                    lemma_extends_trans(g0, g1, *self);
                }
                Ok(r)
            },
            UnaryOp::Log => self.new_binary(BinaryOp::Div, du, u),
            UnaryOp::Sin => {
                let c = self.new_unary(UnaryOp::Cos, u);
                let ghost g1 = *self;
                let r = self.product(du, c);
                proof {
                    lemma_extends_trans(g0, g1, *self);
                }
                Ok(r)
            },
            UnaryOp::Cos => {
                let s = self.new_unary(UnaryOp::Sin, u);
                let ghost g1 = *self;
                let n = self.new_unary(UnaryOp::Negative, s);
                let ghost g2 = *self;
                let r = self.product(du, n);
                proof {
                    lemma_extends_trans(g0, g1, g2);
                    lemma_extends_trans(g0, g2, *self);
                }
                Ok(r)
            },
            UnaryOp::Tan => {
                let c = self.new_unary(UnaryOp::Cos, u);
                let ghost g1 = *self;
                let p = self.new_constant(Constant::from_int(-2));
                let ghost g2 = *self;
                let sec2 = match self.new_binary(BinaryOp::Pow, c, p) {
                    Ok(h) => h,
                    Err(e) => return Err(e),
                };
                let ghost g3 = *self;
                let r = self.product(du, sec2);
                proof {
                    lemma_extends_trans(g0, g1, g2);
                    lemma_extends_trans(g0, g2, g3);
                    lemma_extends_trans(g0, g3, *self);
                }
                Ok(r)
            },
        }
    }

    /// Applies the differentiation rule for `l op r`, where `dl` and `dr` are
    /// the derivatives of `l` and `r`.
    fn binary_rule(&mut self, op: BinaryOp, l: usize, r: usize, dl: usize, dr: usize) -> (res:
        Result<usize, GraphError>)
        requires
            old(self).wf(),
            old(self).holds(l as int),
            old(self).holds(r as int),
            old(self).holds(dl as int),
            old(self).holds(dr as int),
        ensures
            derived(
                *old(self),
                *final(self),
                res,
                binary_derivative(
                    op,
                    old(self).term_of(l as int),
                    old(self).term_of(r as int),
                    old(self).term_of(dl as int),
                    old(self).term_of(dr as int),
                ),
            ),
    {
        let ghost g0 = *self;
        match op {
            BinaryOp::Add => self.new_binary(BinaryOp::Add, dl, dr),
            BinaryOp::Sub => self.new_binary(BinaryOp::Sub, dl, dr),
            BinaryOp::Mul => {
                let a = self.product(dl, r);
                let ghost g1 = *self;
                let b = self.product(l, dr);
                let ghost g2 = *self;
                let s = self.new_binary(BinaryOp::Add, a, b);
                proof {
                    lemma_extends_trans(g0, g1, g2);
                    lemma_extends_trans(g0, g2, *self);
                }
                s
            },
            BinaryOp::Div => {
                let a = self.product(dl, r);
                let ghost g1 = *self;
                let b = self.product(l, dr);
                let ghost g2 = *self;
                let num = match self.new_binary(BinaryOp::Sub, a, b) {
                    Ok(h) => h,
                    Err(e) => return Err(e),
                };
                let ghost g3 = *self;
                let den = self.product(r, r);
                let ghost g4 = *self;
                let q = self.new_binary(BinaryOp::Div, num, den);
                proof {
                    lemma_extends_trans(g0, g1, g2);
                    lemma_extends_trans(g0, g2, g3);
                    lemma_extends_trans(g0, g3, g4);
                    lemma_extends_trans(g0, g4, *self);
                }
                q
            },
            BinaryOp::Pow => {
                proof {
                    lemma_term_unfold(self.store(), r as int, r as int);
                }
                let exponent = match &self.node(r).interior {
                    NodeType::Constant(c) => Some(*c),
                    _ => None,
                };
                match exponent {
                    Some(c) => {
                        proof {
                            assert(self.store()[r as int].interior.wf());
                        }
                        let c1 = match c.decrement() {
                            Ok(c1) => c1,
                            Err(e) => {
                                proof {
                                    lemma_extends_refl(*self);
                                }
                                return Err(e);
                            },
                        };
                        let e = self.new_constant(c1);
                        let ghost g1 = *self;
                        let p = match self.new_binary(BinaryOp::Pow, l, e) {
                            Ok(h) => h,
                            Err(e) => return Err(e),
                        };
                        let ghost g2 = *self;
                        let m = self.product(r, p);
                        let ghost g3 = *self;
                        let d = self.product(dl, m);
                        proof {
                            lemma_extends_trans(g0, g1, g2);
                            lemma_extends_trans(g0, g2, g3);
                            lemma_extends_trans(g0, g3, *self);
                        }
                        Ok(d)
                    },
                    None => {
                        proof {
                            lemma_extends_refl(*self);
                        }
                        Err(GraphError::UnsupportedDifferentiation)
                    },
                }
            },
        }
    }
}

/// The position in the upper triangle, row by row, where row `i` starts.
pub open spec fn row_start(n: int, i: int) -> int
    decreases i,
{
    if i <= 0 {
        0
    } else {
        row_start(n, i - 1) + (n - (i - 1))
    }
}

/// The position of entry `(i, j)`, `i <= j`, of an `n`-by-`n` upper triangle
/// stored row by row.
pub open spec fn upper_index(n: int, i: int, j: int) -> int {
    row_start(n, i) + (j - i)
}

pub proof fn lemma_row_start_monotone(n: int, i: int, k: int)
    requires
        0 <= i <= k <= n,
    ensures
        row_start(n, i) <= row_start(n, k),
    decreases k - i,
{
    if i < k {
        lemma_row_start_monotone(n, i, k - 1);
    }
}

/// An upper triangle of an `n`-by-`n` matrix holds `n(n+1)/2` entries.
pub proof fn lemma_upper_triangle_size(n: int)
    requires
        0 <= n,
    ensures
        2 * row_start(n, n) == n * (n + 1),
{
    lemma_row_start_closed(n, n);
}

/// Where entry `(i, j)` of the full `n`-by-`n` Hessian is read from its
/// stored upper triangle.
pub open spec fn full_index(n: int, i: int, j: int) -> int {
    if i <= j {
        upper_index(n, i, j)
    } else {
        upper_index(n, j, i)
    }
}

/// The Hessian read as a full matrix from its upper triangle is symmetric,
/// and every entry is read from within the triangle.
pub proof fn lemma_full_hessian_symmetric(n: int, i: int, j: int)
    requires
        0 <= i < n,
        0 <= j < n,
    ensures
        full_index(n, i, j) == full_index(n, j, i),
        0 <= full_index(n, i, j) < row_start(n, n),
{
    let a = if i <= j {
        i
    } else {
        j
    };
    lemma_row_start_monotone(n, 0, a);
    lemma_row_start_monotone(n, a + 1, n);
    assert(row_start(n, a + 1) == row_start(n, a) + (n - a));
}

proof fn lemma_row_start_closed(n: int, i: int)
    requires
        0 <= i <= n,
    ensures
        2 * row_start(n, i) == i * (2 * n - i + 1),
    decreases i,
{
    if i > 0 {
        lemma_row_start_closed(n, i - 1);
        let a = row_start(n, i - 1);
        let b = row_start(n, i);
        assert(b == a + (n - (i - 1)));
        assert(2 * b == i * (2 * n - i + 1)) by (nonlinear_arith)
            requires
                2 * a == (i - 1) * (2 * n - (i - 1) + 1),
                b == a + (n - (i - 1)),
        ;
    } else {
        assert(i * (2 * n - i + 1) == 0) by (nonlinear_arith)
            requires
                i == 0,
        ;
    }
}

impl Graph {
    /// Whether node `h` is a collection.
    pub fn is_collection(&self, h: usize) -> (r: bool)
        requires
            self.wf(),
            self.holds(h as int),
        ensures
            r == is_bundle(self.term_of(h as int)),
    {
        proof {
            lemma_term_unfold(self.store(), h as int, h as int);
            assert(node_fits(self.store(), self.store()[h as int], h as int));
            let k = self.store()[h as int].interior;
            match k {
                NodeType::Unary(u) => {
                    assert(k.children()[0] == u.argument);
                },
                NodeType::Binary(b) => {
                    assert(k.children()[0] == b.left);
                    assert(k.children()[1] == b.right);
                },
                _ => {},
            }
        }
        self.node(h).interior.is_collection()
    }

    /// The partial derivatives of `value` with respect to each variable, in order.
    /// A collection has no gradient.
    pub fn gradient(&mut self, value: usize, variables: &Vec<Variable>) -> (r: Result<
        Vec<usize>,
        GraphError,
    >)
        requires
            old(self).wf(),
            old(self).holds(value as int),
        ensures
            old(self).extended_by(*final(self)),
            ({
                let t = old(self).term_of(value as int);
                match r {
                    Ok(g) => {
                        &&& !is_bundle(t)
                        &&& g@.len() == variables@.len()
                        &&& forall|i: int|
                            0 <= i < g@.len() ==> final(self).holds(#[trigger] g@[i] as int)
                                && derivative(t, variables@[i].key()) == Ok::<Term, GraphError>(
                                final(self).term_of(g@[i] as int),
                            )
                    },
                    Err(e) => if is_bundle(t) {
                        e == GraphError::InvalidRoot
                    } else {
                        exists|i: int|
                            0 <= i < variables@.len() && derivative(t, #[trigger] variables@[i].key())
                                == Err::<Term, GraphError>(e)
                    },
                }
            }),
    {
        let ghost g0 = *self;
        let ghost t = self.term_of(value as int);
        proof {
            lemma_extends_refl(*self);
        }
        if self.is_collection(value) {
            return Err(GraphError::InvalidRoot);
        }
        let mut out: Vec<usize> = Vec::new();
        let mut i: usize = 0;
        while i < variables.len()
            invariant
                g0 == *old(self),
                g0.extended_by(*self),
                g0.holds(value as int),
                t == g0.term_of(value as int),
                !is_bundle(t),
                i <= variables@.len(),
                out@.len() == i,
                forall|k: int|
                    0 <= k < i ==> self.holds(#[trigger] out@[k] as int) && derivative(
                        t,
                        variables@[k].key(),
                    ) == Ok::<Term, GraphError>(self.term_of(out@[k] as int)),
            decreases variables@.len() - i,
        {
            let ghost g1 = *self;
            let d = self.differentiate(value, &variables[i]);
            proof {
                lemma_extends_trans(g0, g1, *self);
            }
            match d {
                Ok(h) => {
                    out.push(h);
                    proof {
                        assert forall|k: int| 0 <= k < i + 1 implies self.holds(
                            #[trigger] out@[k] as int,
                        ) && derivative(t, variables@[k].key()) == Ok::<Term, GraphError>(
                            self.term_of(out@[k] as int),
                        ) by {
                            if k < i {
                                assert(g1.holds(out@[k] as int));
                                assert(self.term_of(out@[k] as int) == g1.term_of(out@[k] as int));
                            }
                        }
                    }
                },
                Err(e) => {
                    proof {
                        assert(g1.term_of(value as int) == t);
                        assert(derivative(t, variables@[i as int].key()) == Err::<Term, GraphError>(e));
                    }
                    return Err(e);
                },
            }
            i = i + 1;
        }
        Ok(out)
    }

    /// The second partial derivatives: entry `(i, j)`, `i <= j`, is the
    /// derivative of `gradient[i]` with respect to `variables[j]`, stored at
    /// `upper_index(n, i, j)`.
    pub fn hessian(&mut self, gradient: &Vec<usize>, variables: &Vec<Variable>) -> (r: Result<
        Vec<usize>,
        GraphError,
    >)
        requires
            old(self).wf(),
            gradient@.len() == variables@.len(),
            forall|i: int| 0 <= i < gradient@.len() ==> old(self).holds(#[trigger] gradient@[i] as int),
        ensures
            old(self).extended_by(*final(self)),
            ({
                let n = variables@.len() as int;
                match r {
                    Ok(h) => {
                        &&& h@.len() == row_start(n, n)
                        &&& forall|k: int| 0 <= k < h@.len() ==> final(self).holds(#[trigger] h@[k] as int)
                        &&& forall|i: int, j: int|
                            0 <= i <= j < n ==> final(self).holds(
                                #[trigger] h@[upper_index(n, i, j)] as int,
                            ) && derivative(
                                old(self).term_of(gradient@[i] as int),
                                variables@[j].key(),
                            ) == Ok::<Term, GraphError>(
                                final(self).term_of(h@[upper_index(n, i, j)] as int),
                            )
                    },
                    Err(e) => exists|i: int, j: int|
                        0 <= i <= j < n && derivative(
                            old(self).term_of(#[trigger] gradient@[i] as int),
                            #[trigger] variables@[j].key(),
                        ) == Err::<Term, GraphError>(e),
                }
            }),
    {
        let ghost g0 = *self;
        let n = variables.len();
        proof {
            lemma_extends_refl(*self);
        }
        let mut out: Vec<usize> = Vec::new();
        let mut i: usize = 0;
        while i < n
            invariant
                g0 == *old(self),
                g0.extended_by(*self),
                n == variables@.len(),
                gradient@.len() == n,
                forall|i: int| 0 <= i < gradient@.len() ==> g0.holds(#[trigger] gradient@[i] as int),
                i <= n,
                out@.len() == row_start(n as int, i as int),
                forall|k: int| 0 <= k < out@.len() ==> self.holds(#[trigger] out@[k] as int),
                forall|a: int, b: int|
                    0 <= a < i && a <= b < n ==> self.holds(
                        #[trigger] out@[upper_index(n as int, a, b)] as int,
                    ) && derivative(g0.term_of(gradient@[a] as int), variables@[b].key()) == Ok::<
                        Term,
                        GraphError,
                    >(self.term_of(out@[upper_index(n as int, a, b)] as int)),
            decreases n - i,
        {
            let mut j: usize = i;
            while j < n
                invariant
                    g0 == *old(self),
                    g0.extended_by(*self),
                    n == variables@.len(),
                    gradient@.len() == n,
                    forall|i: int|
                        0 <= i < gradient@.len() ==> g0.holds(#[trigger] gradient@[i] as int),
                    i < n,
                    i <= j <= n,
                    out@.len() == row_start(n as int, i as int) + (j - i),
                    forall|k: int| 0 <= k < out@.len() ==> self.holds(#[trigger] out@[k] as int),
                    forall|a: int, b: int|
                        0 <= a < i && a <= b < n ==> self.holds(
                            #[trigger] out@[upper_index(n as int, a, b)] as int,
                        ) && derivative(g0.term_of(gradient@[a] as int), variables@[b].key())
                            == Ok::<Term, GraphError>(
                            self.term_of(out@[upper_index(n as int, a, b)] as int),
                        ),
                    forall|b: int|
                        i <= b < j ==> self.holds(
                            #[trigger] out@[upper_index(n as int, i as int, b)] as int,
                        ) && derivative(g0.term_of(gradient@[i as int] as int), variables@[b].key())
                            == Ok::<Term, GraphError>(
                            self.term_of(out@[upper_index(n as int, i as int, b)] as int),
                        ),
                decreases n - j,
            {
                let ghost g1 = *self;
                let ghost o1 = out@;
                let d = self.differentiate(gradient[i], &variables[j]);
                proof {
                    lemma_extends_trans(g0, g1, *self);
                    assert(g1.holds(gradient@[i as int] as int));
                }
                match d {
                    Ok(h) => {
                        out.push(h);
                        proof {
                            assert forall|k: int| 0 <= k < out@.len() implies self.holds(#[trigger] out@[k] as int) by {
                                if k < o1.len() {
                                    assert(out@[k] == o1[k]);
                                    assert(g1.holds(o1[k] as int));
                                }
                            }
                            assert forall|a: int, b: int|
                                0 <= a < i && a <= b < n implies self.holds(
                                #[trigger] out@[upper_index(n as int, a, b)] as int,
                            ) && derivative(g0.term_of(gradient@[a] as int), variables@[b].key())
                                == Ok::<Term, GraphError>(
                                self.term_of(out@[upper_index(n as int, a, b)] as int),
                            ) by {
                                lemma_row_start_monotone(n as int, a + 1, i as int);
                                lemma_row_start_monotone(n as int, 0, a);
                                assert(row_start(n as int, a + 1) == row_start(n as int, a) + (n - a));
                                assert(upper_index(n as int, a, b) < o1.len());
                                assert(out@[upper_index(n as int, a, b)] == o1[upper_index(
                                    n as int,
                                    a,
                                    b,
                                )]);
                            }
                            assert forall|b: int|
                                i <= b < j + 1 implies self.holds(
                                #[trigger] out@[upper_index(n as int, i as int, b)] as int,
                            ) && derivative(
                                g0.term_of(gradient@[i as int] as int),
                                variables@[b].key(),
                            ) == Ok::<Term, GraphError>(
                                self.term_of(out@[upper_index(n as int, i as int, b)] as int),
                            ) by {
                                lemma_row_start_monotone(n as int, 0, i as int);
                                if b < j {
                                    assert(upper_index(n as int, i as int, b) < o1.len());
                                    assert(out@[upper_index(n as int, i as int, b)] == o1[upper_index(
                                        n as int,
                                        i as int,
                                        b,
                                    )]);
                                }
                            }
                        }
                    },
                    Err(e) => {
                        proof {
                            assert(derivative(
                                g0.term_of(gradient@[i as int] as int),
                                variables@[j as int].key(),
                            ) == Err::<Term, GraphError>(e));
                        }
                        return Err(e);
                    },
                }
                j = j + 1;
            }
            proof {
                assert forall|a: int, b: int|
                    0 <= a < i + 1 && a <= b < n implies self.holds(
                    #[trigger] out@[upper_index(n as int, a, b)] as int,
                ) && derivative(g0.term_of(gradient@[a] as int), variables@[b].key()) == Ok::<
                    Term,
                    GraphError,
                >(self.term_of(out@[upper_index(n as int, a, b)] as int)) by {
                    if a == i {
                    }
                }
            }
            i = i + 1;
        }
        Ok(out)
    }
}

} // verus!
