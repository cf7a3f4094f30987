use vstd::prelude::*;

use crate::compile::{Argument, Expr, Function, Model, Statement, VariableGraph};
use crate::constant::Constant;
use crate::error::GraphError;
use crate::graph::{Graph, lemma_extends_trans};
use crate::node::{BinaryOp, UnaryOp};
use crate::term::{Term, divides_by_zero, int_term, simp_binary, simp_product, simp_unary};

verus! {

/// The mean of the Gaussian model: the node of its one field.
#[derive(Debug, Clone, Copy)]
pub struct Mu {
    pub mu: usize,
}

/// The parameters of the Gaussian model, as nodes.
#[derive(Debug, Clone, Copy)]
pub struct Parameters {
    pub mu: Mu,
    pub sigma: usize,
}

/// The observed data of the Gaussian model, as nodes.
#[derive(Debug, Clone, Copy)]
pub struct Data {
    pub x: usize,
}

/// The constant 3.1415926535 that the model writes for pi.
pub open spec fn pi_constant() -> Constant {
    Constant { mantissa: 31415926535, scale: 10 }
}

/// The constant -0.5.
pub open spec fn minus_half() -> Constant {
    Constant { mantissa: -5i64, scale: 1 }
}

/// `(2 * pi) * sigma`, as the constructors build it.
pub open spec fn n_term(sigma: Term) -> Term {
    simp_product(simp_product(int_term(2), Term::Const(pi_constant())), sigma)
}

/// `1 / n(sigma)`, as the constructors build it.
pub open spec fn norm_term(sigma: Term) -> Result<Term, GraphError> {
    let d = n_term(sigma);
    if divides_by_zero(BinaryOp::Div, int_term(1), d) {
        Err(GraphError::DivisionByZero)
    } else {
        Ok(simp_binary(BinaryOp::Div, int_term(1), d))
    }
}

/// `exp(-0.5 * ((x - mu) / sigma)^2) * norm(sigma)`, as the constructors build it.
pub open spec fn distribution_term(mu: Term, sigma: Term, x: Term) -> Result<Term, GraphError> {
    match norm_term(sigma) {
        Err(e) => Err(e),
        Ok(norm) => {
            let diff = simp_binary(BinaryOp::Sub, x, mu);
            if divides_by_zero(BinaryOp::Div, diff, sigma) {
                Err(GraphError::DivisionByZero)
            } else {
                let q = simp_binary(BinaryOp::Div, diff, sigma);
                let square = simp_binary(BinaryOp::Pow, q, int_term(2));
                let exponent = simp_product(Term::Const(minus_half()), square);
                Ok(simp_product(simp_unary(UnaryOp::Exp, exponent), norm))
            }
        },
    }
}

/// The node for `(2 * pi) * sigma`.
pub fn n(graph: &mut Graph, sigma: usize) -> (r: usize)
    requires
        old(graph).wf(),
        old(graph).holds(sigma as int),
    ensures
        old(graph).extended_by(*final(graph)),
        final(graph).holds(r as int),
        final(graph).term_of(r as int) == n_term(old(graph).term_of(sigma as int)),
{
    let ghost g0 = *graph;
    let two = graph.new_constant(Constant::from_int(2));
    let ghost g1 = *graph;
    let pi = graph.new_constant(Constant { mantissa: 31415926535, scale: 10 });
    let ghost g2 = *graph;
    let two_pi = graph.product(two, pi);
    let ghost g3 = *graph;
    let r = graph.product(two_pi, sigma);
    proof {
        lemma_extends_trans(g0, g1, g2);
        lemma_extends_trans(g0, g2, g3);
        lemma_extends_trans(g0, g3, *graph);
    }
    r
}

/// The node for `1 / n(sigma)`.
pub fn norm(graph: &mut Graph, sigma: usize) -> (r: Result<usize, GraphError>)
    requires
        old(graph).wf(),
        old(graph).holds(sigma as int),
    ensures
        old(graph).extended_by(*final(graph)),
        match r {
            Ok(h) => final(graph).holds(h as int) && norm_term(old(graph).term_of(sigma as int))
                == Ok::<Term, GraphError>(final(graph).term_of(h as int)),
            Err(e) => norm_term(old(graph).term_of(sigma as int)) == Err::<Term, GraphError>(e),
        },
{
    let ghost g0 = *graph;
    let one = graph.new_constant(Constant::from_int(1));
    let ghost g1 = *graph;
    let d = n(graph, sigma);
    let ghost g2 = *graph;
    let r = graph.new_binary(BinaryOp::Div, one, d);
    proof {
        lemma_extends_trans(g0, g1, g2);
        lemma_extends_trans(g0, g2, *graph);
    }
    r
}

/// The node for the Gaussian density
/// `exp(-0.5 * ((x - mu) / sigma)^2) * norm(sigma)`.
pub fn distribution(graph: &mut Graph, parameters: &Parameters, data: &Data) -> (r: Result<
    usize,
    GraphError,
>)
    requires
        old(graph).wf(),
        old(graph).holds(parameters.mu.mu as int),
        old(graph).holds(parameters.sigma as int),
        old(graph).holds(data.x as int),
    ensures
        old(graph).extended_by(*final(graph)),
        ({
            let expected = distribution_term(
                old(graph).term_of(parameters.mu.mu as int),
                old(graph).term_of(parameters.sigma as int),
                old(graph).term_of(data.x as int),
            );
            match r {
                Ok(h) => final(graph).holds(h as int) && expected == Ok::<Term, GraphError>(
                    final(graph).term_of(h as int),
                ),
                Err(e) => expected == Err::<Term, GraphError>(e),
            }
        }),
{
    let ghost g0 = *graph;
    let norm = match norm(graph, parameters.sigma) {
        Ok(h) => h,
        Err(e) => return Err(e),
    };
    let ghost g1 = *graph;
    let diff = match graph.new_binary(BinaryOp::Sub, data.x, parameters.mu.mu) {
        Ok(h) => h,
        Err(e) => return Err(e),
    };
    let ghost g2 = *graph;
    proof {
        lemma_extends_trans(g0, g1, g2);
    }
    let q = match graph.new_binary(BinaryOp::Div, diff, parameters.sigma) {
        Ok(h) => h,
        Err(e) => return Err(e),
    };
    let ghost g3 = *graph;
    let two = graph.new_constant(Constant::from_int(2));
    let ghost g4 = *graph;
    let square = match graph.new_binary(BinaryOp::Pow, q, two) {
        Ok(h) => h,
        Err(e) => return Err(e),
    };
    let ghost g5 = *graph;
    let half = graph.new_constant(Constant { mantissa: -5, scale: 1 });
    let ghost g6 = *graph;
    let exponent = graph.product(half, square);
    let ghost g7 = *graph;
    let e = graph.new_unary(UnaryOp::Exp, exponent);
    let ghost g8 = *graph;
    let r = graph.product(e, norm);
    proof {
        lemma_extends_trans(g0, g2, g3);
        lemma_extends_trans(g0, g3, g4);
        lemma_extends_trans(g0, g4, g5);
        lemma_extends_trans(g0, g5, g6);
        lemma_extends_trans(g0, g6, g7);
        lemma_extends_trans(g0, g7, g8);
        lemma_extends_trans(g0, g8, *graph);
    }
    Ok(r)
}

/// The sum of two integers.
pub fn add(left: u64, right: u64) -> (r: u64)
    requires
        left + right <= u64::MAX,
    ensures
        r == left + right,
{
    left + right
}

fn name(s: &str) -> (r: Expr) {
    Expr::Name(s.to_owned())
}

fn binary(op: BinaryOp, l: Expr, r: Expr) -> (e: Expr) {
    Expr::Binary(op, Box::new(l), Box::new(r))
}

/// The Gaussian model in the form the front end hands over: the records
/// `Mu`, `Parameters` and `Data`, the helpers `n` and `norm`, and
/// `distribution`.
pub fn model() -> (r: Model)
    ensures
        r.wf(),
        r.structs@.len() == 3,
        r.functions@.len() == 3,
{
    let mu = VariableGraph { name: "Mu".to_owned(), subgraphs: vec![("mu".to_owned(), None)] };
    let parameters = VariableGraph {
        name: "Parameters".to_owned(),
        subgraphs: vec![("mu".to_owned(), Some(0)), ("sigma".to_owned(), None)],
    };
    let data = VariableGraph { name: "Data".to_owned(), subgraphs: vec![("x".to_owned(), None)] };
    let n_def = Function {
        name: "n".to_owned(),
        arguments: vec![Argument { name: "sigma".to_owned(), record: None, parameter: true }],
        body: vec![
            Statement::Value(
                binary(
                    BinaryOp::Mul,
                    binary(
                        BinaryOp::Mul,
                        Expr::Constant(Constant::from_int(2)),
                        Expr::Constant(Constant { mantissa: 31415926535, scale: 10 }),
                    ),
                    name("sigma"),
                ),
            ),
        ],
    };
    let norm_def = Function {
        name: "norm".to_owned(),
        arguments: vec![Argument { name: "sigma".to_owned(), record: None, parameter: true }],
        body: vec![
            Statement::Value(
                binary(
                    BinaryOp::Div,
                    Expr::Constant(Constant::from_int(1)),
                    Expr::Call("n".to_owned(), vec![name("sigma")]),
                ),
            ),
        ],
    };
    let exponent = binary(
        BinaryOp::Mul,
        Expr::Constant(Constant { mantissa: -5, scale: 1 }),
        binary(
            BinaryOp::Pow,
            binary(
                BinaryOp::Div,
                binary(BinaryOp::Sub, name("data.x"), name("parameters.mu.mu")),
                name("parameters.sigma"),
            ),
            Expr::Constant(Constant::from_int(2)),
        ),
    );
    let distribution_def = Function {
        name: "distribution".to_owned(),
        arguments: vec![
            Argument { name: "parameters".to_owned(), record: Some(1), parameter: true },
            Argument { name: "data".to_owned(), record: Some(2), parameter: false },
        ],
        body: vec![
            Statement::Let(
                "norm".to_owned(),
                Expr::Call("norm".to_owned(), vec![name("parameters.sigma")]),
            ),
            Statement::Let("exp".to_owned(), Expr::Unary(UnaryOp::Exp, Box::new(exponent))),
            Statement::Value(binary(BinaryOp::Mul, name("exp"), name("norm"))),
        ],
    };
    let structs = vec![mu, parameters, data];
    let functions = vec![n_def, norm_def, distribution_def];
    let r = Model { structs, functions };
    proof {
        assert forall|i: int, k: int|
            0 <= i < r.structs@.len() && 0 <= k < r.structs@[i].subgraphs@.len()
                && #[trigger] r.structs@[i].subgraphs@[k].1 is Some
                implies r.structs@[i].subgraphs@[k].1->Some_0 < i by {
        }
        assert forall|f: int, a: int|
            0 <= f < r.functions@.len() && 0 <= a < r.functions@[f].arguments@.len()
                && #[trigger] r.functions@[f].arguments@[a].record is Some
                implies r.functions@[f].arguments@[a].record->Some_0 < r.structs@.len() by {
        }
    }
    r
}

} // verus!
