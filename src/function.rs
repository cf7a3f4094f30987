use vstd::prelude::*;

use crate::differentiate::{derivative, is_bundle, row_start, upper_index};
use crate::error::GraphError;
use crate::graph::{Graph, lemma_extends_refl, lemma_extends_trans, lemma_term_unfold, lemma_terms_index};
use crate::node::{Array, Collection, NodeType, Tuple, Variable};
use crate::schedule::{is_schedule, visit_roots};
use crate::splice::Function;
use crate::term::{Term, terms};

verus! {

/// The derivatives of a function and the bundles that group them with its value.
#[derive(Debug)]
pub struct Derivatives {
    /// One node per argument, in order.
    pub gradient: Vec<usize>,
    /// The upper triangle of the second derivatives, row by row.
    pub hessian: Vec<usize>,
    /// The tuple (value, gradient array).
    pub value_gradient: usize,
    /// The tuple (value, gradient array, Hessian array).
    pub value_gradient_hessian: usize,
}

/// The identities of the variables that the argument nodes are, when each is one.
pub open spec fn argument_keys(g: Graph, args: Seq<usize>) -> Seq<(Seq<char>, bool)> {
    args.map_values(
        |h: usize|
            match g.term_of(h as int) {
                Term::Var(name, parameter) => (name, parameter),
                _ => (Seq::empty(), false),
            },
    )
}

/// Whether every argument node is a variable.
pub open spec fn arguments_are_variables(g: Graph, args: Seq<usize>) -> bool {
    forall|i: int| 0 <= i < args.len() ==> #[trigger] g.term_of(args[i] as int) is Var
}

impl Function {
    /// Checks that `inputs` has one node per argument.
    pub fn validate_inputs(&self, inputs: &Vec<usize>) -> (r: Result<(), GraphError>)
        ensures
            r is Ok <==> inputs@.len() == self.arguments@.len(),
            r is Err ==> r == Err::<(), GraphError>(GraphError::ArityMismatch),
    {
        if inputs.len() != self.arguments.len() {
            Err(GraphError::ArityMismatch)
        } else {
            Ok(())
        }
    }

    /// Every node the result reaches, each once, children first.
    pub fn order(&self, graph: &Graph) -> (r: Vec<usize>)
        requires
            graph.wf(),
            graph.holds(self.result as int),
        ensures
            is_schedule(*graph, seq![self.result], r@),
            r@ == visit_roots(*graph, seq![self.result], 1),
    {
        let roots = vec![self.result];
        assert(roots@ =~= seq![self.result]);
        graph.order(&roots)
    }

    /// The variables that the argument nodes are; an argument that is not a
    /// variable cannot be differentiated against.
    fn argument_variables(&self, graph: &Graph) -> (r: Result<Vec<Variable>, GraphError>)
        requires
            graph.wf(),
            forall|i: int| 0 <= i < self.arguments@.len() ==> graph.holds(#[trigger] self.arguments@[i] as int),
        ensures
            match r {
                Ok(vs) => arguments_are_variables(*graph, self.arguments@) && vs@.len()
                    == self.arguments@.len() && forall|i: int|
                    0 <= i < vs@.len() ==> #[trigger] vs@[i].key() == argument_keys(*graph, self.arguments@)[i],
                Err(e) => !arguments_are_variables(*graph, self.arguments@) && e
                    == GraphError::UnsupportedDifferentiation,
            },
    {
        let mut vs: Vec<Variable> = Vec::new();
        let mut i: usize = 0;
        while i < self.arguments.len()
            invariant
                graph.wf(),
                forall|i: int| 0 <= i < self.arguments@.len() ==> graph.holds(#[trigger] self.arguments@[i] as int),
                i <= self.arguments@.len(),
                vs@.len() == i,
                forall|k: int| 0 <= k < i ==> #[trigger] graph.term_of(self.arguments@[k] as int) is Var,
                forall|k: int| 0 <= k < i ==> #[trigger] vs@[k].key() == argument_keys(*graph, self.arguments@)[k],
            decreases self.arguments@.len() - i,
        {
            let a = self.arguments[i];
            proof {
                lemma_term_unfold(graph.store(), a as int, a as int);
            }
            match &graph.node(a).interior {
                NodeType::Variable(v) => {
                    vs.push(v.duplicate());
                },
                _ => {
                    proof {
                        let k = graph.store()[a as int].interior;
                        match k {
                            NodeType::Unary(u) => {
                                assert(k.children()[0] == u.argument);
                            },
                            NodeType::Binary(b) => {
                                assert(k.children()[0] == b.left);
                                assert(k.children()[1] == b.right);
                            },
                            _ => {},
                        }
                        assert(!(graph.term_of(self.arguments@[i as int] as int) is Var));
                    }
                    return Err(GraphError::UnsupportedDifferentiation);
                },
            }
            i = i + 1;
        }
        Ok(vs)
    }

    /// The gradient and the Hessian of the result with respect to the
    /// arguments, which must be variables, and the bundles (value, gradient)
    /// and (value, gradient, Hessian).
    pub fn compute_derivatives(&self, graph: &mut Graph) -> (r: Result<Derivatives, GraphError>)
        requires
            old(graph).wf(),
            old(graph).holds(self.result as int),
            forall|i: int|
                0 <= i < self.arguments@.len() ==> old(graph).holds(#[trigger] self.arguments@[i] as int),
        ensures
            old(graph).extended_by(*final(graph)),
            ({
                let t = old(graph).term_of(self.result as int);
                let keys = argument_keys(*old(graph), self.arguments@);
                let n = self.arguments@.len() as int;
                match r {
                    Ok(d) => {
                        &&& arguments_are_variables(*old(graph), self.arguments@)
                        &&& !is_bundle(t)
                        &&& d.gradient@.len() == n
                        &&& forall|i: int|
                            0 <= i < n ==> final(graph).holds(#[trigger] d.gradient@[i] as int)
                                && derivative(t, keys[i]) == Ok::<Term, GraphError>(
                                final(graph).term_of(d.gradient@[i] as int),
                            )
                        &&& d.hessian@.len() == row_start(n, n)
                        &&& forall|i: int, j: int|
                            0 <= i <= j < n ==> final(graph).holds(
                                #[trigger] d.hessian@[upper_index(n, i, j)] as int,
                            ) && derivative(final(graph).term_of(d.gradient@[i] as int), keys[j])
                                == Ok::<Term, GraphError>(
                                final(graph).term_of(d.hessian@[upper_index(n, i, j)] as int),
                            )
                        &&& final(graph).holds(d.value_gradient as int)
                        &&& final(graph).term_of(d.value_gradient as int) == Term::Tuple(
                            seq![t, Term::Array(terms(final(graph).store(), d.gradient@, final(graph).store().len() as int))],
                        )
                        &&& final(graph).holds(d.value_gradient_hessian as int)
                        &&& final(graph).term_of(d.value_gradient_hessian as int) == Term::Tuple(
                            seq![
                                t,
                                Term::Array(terms(final(graph).store(), d.gradient@, final(graph).store().len() as int)),
                                Term::Array(terms(final(graph).store(), d.hessian@, final(graph).store().len() as int)),
                            ],
                        )
                    },
                    Err(e) => if !arguments_are_variables(*old(graph), self.arguments@) {
                        e == GraphError::UnsupportedDifferentiation
                    } else if is_bundle(t) {
                        e == GraphError::InvalidRoot
                    } else {
                        (exists|i: int| 0 <= i < n && derivative(t, #[trigger] keys[i]) == Err::<Term, GraphError>(e))
                        || (exists|i: int, j: int|
                        0 <= i <= j < n && #[trigger] derivative(t, keys[i]) is Ok && derivative(
                            derivative(t, keys[i])->Ok_0,
                            #[trigger] keys[j],
                        ) == Err::<Term, GraphError>(e))
                    },
                }
            }),
    {
        let ghost g0 = *graph;
        proof {
            lemma_extends_refl(*graph);
        }
        let variables = self.argument_variables(graph);
        let variables = match variables {
            Ok(vs) => vs,
            Err(e) => return Err(e),
        };
        let gradient = match graph.gradient(self.result, &variables) {
            Ok(g) => g,
            Err(e) => return Err(e),
        };
        let ghost g1 = *graph;
        let hessian = match graph.hessian(&gradient, &variables) {
            Ok(h) => h,
            Err(e) => {
                proof {
                    lemma_extends_trans(g0, g1, *graph);
                    let (i, j) = choose|i: int, j: int|
                        0 <= i <= j < variables@.len() && derivative(
                            g1.term_of(#[trigger] gradient@[i] as int),
                            #[trigger] variables@[j].key(),
                        ) == Err::<Term, GraphError>(e);
                    assert(variables@[i].key() == argument_keys(g0, self.arguments@)[i]);
                    assert(variables@[j].key() == argument_keys(g0, self.arguments@)[j]);
                }
                return Err(e);
            },
        };
        let ghost g2 = *graph;
        proof {
            lemma_extends_trans(g0, g1, g2);
            assert forall|i: int| 0 <= i < gradient@.len() implies g2.holds(#[trigger] gradient@[i] as int) by {
                assert(g1.holds(gradient@[i] as int));
            }
        }
        let (value_gradient, value_gradient_hessian) = self.bundles(graph, &gradient, &hessian);
        proof {
            lemma_extends_trans(g0, g2, *graph);
            let n = self.arguments@.len() as int;
            assert forall|i: int, j: int| 0 <= i <= j < n implies graph.holds(
                #[trigger] hessian@[upper_index(n, i, j)] as int,
            ) && derivative(graph.term_of(gradient@[i] as int), argument_keys(g0, self.arguments@)[j])
                == Ok::<Term, GraphError>(graph.term_of(hessian@[upper_index(n, i, j)] as int)) by {
                assert(variables@[j].key() == argument_keys(g0, self.arguments@)[j]);
                assert(g1.holds(gradient@[i] as int));
                assert(graph.term_of(gradient@[i] as int) == g1.term_of(gradient@[i] as int));
                assert(g2.holds(hessian@[upper_index(n, i, j)] as int));
            }
            assert forall|i: int| 0 <= i < n implies graph.holds(#[trigger] gradient@[i] as int)
                && derivative(g0.term_of(self.result as int), argument_keys(g0, self.arguments@)[i])
                == Ok::<Term, GraphError>(graph.term_of(gradient@[i] as int)) by {
                assert(variables@[i].key() == argument_keys(g0, self.arguments@)[i]);
                assert(g1.holds(gradient@[i] as int));
            }
            assert(graph.term_of(self.result as int) == g0.term_of(self.result as int));
        }
        Ok(Derivatives { gradient, hessian, value_gradient, value_gradient_hessian })
    }

    /// Stores the tuples (value, gradient array) and (value, gradient array,
    /// Hessian array).
    #[verifier::rlimit(40)]
    fn bundles(&self, graph: &mut Graph, gradient: &Vec<usize>, hessian: &Vec<usize>) -> (r: (
        usize,
        usize,
    ))
        requires
            old(graph).wf(),
            old(graph).holds(self.result as int),
            forall|i: int| 0 <= i < gradient@.len() ==> old(graph).holds(#[trigger] gradient@[i] as int),
            forall|i: int| 0 <= i < hessian@.len() ==> old(graph).holds(#[trigger] hessian@[i] as int),
        ensures
            old(graph).extended_by(*final(graph)),
            final(graph).holds(r.0 as int),
            final(graph).holds(r.1 as int),
            final(graph).term_of(r.0 as int) == Term::Tuple(
                seq![
                    final(graph).term_of(self.result as int),
                    Term::Array(terms(final(graph).store(), gradient@, final(graph).store().len() as int)),
                ],
            ),
            final(graph).term_of(r.1 as int) == Term::Tuple(
                seq![
                    final(graph).term_of(self.result as int),
                    Term::Array(terms(final(graph).store(), gradient@, final(graph).store().len() as int)),
                    Term::Array(terms(final(graph).store(), hessian@, final(graph).store().len() as int)),
                ],
            ),
    {
        let ghost g0 = *graph;
        let gradient_array = self.bundle(graph, Collection::Array(Array { elements: copy_handles(gradient) }));
        let ghost g1 = *graph;
        let value_gradient = self.bundle(
            graph,
            Collection::Tuple(Tuple { elements: vec![self.result, gradient_array] }),
        );
        let ghost g2 = *graph;
        proof {
            assert forall|i: int| 0 <= i < hessian@.len() implies g2.holds(#[trigger] hessian@[i] as int) by {
                assert(g0.holds(hessian@[i] as int));
            }
        }
        let hessian_array = self.bundle(graph, Collection::Array(Array { elements: copy_handles(hessian) }));
        let ghost g3 = *graph;
        let value_gradient_hessian = self.bundle(
            graph,
            Collection::Tuple(Tuple { elements: vec![self.result, gradient_array, hessian_array] }),
        );
        proof {
            let g4 = *graph;
            lemma_extends_trans(g0, g1, g2);
            lemma_extends_trans(g0, g2, g3);
            lemma_extends_trans(g0, g3, g4);
            lemma_extends_trans(g1, g2, g3);
            lemma_extends_trans(g1, g3, g4);
            lemma_extends_trans(g2, g3, g4);
            lemma_terms_stable(g0, g4, gradient@);
            lemma_terms_stable(g2, g4, hessian@);
            lemma_terms_stable(g1, g4, seq![self.result, gradient_array]);
            lemma_terms_stable(g3, g4, seq![self.result, gradient_array, hessian_array]);
            lemma_terms_index(g1.store(), seq![self.result, gradient_array], g1.store().len() as int);
            lemma_terms_index(g3.store(), seq![self.result, gradient_array, hessian_array], g3.store().len() as int);
            lemma_terms_index(g4.store(), seq![self.result, gradient_array], g4.store().len() as int);
            lemma_terms_index(g4.store(), seq![self.result, gradient_array, hessian_array], g4.store().len() as int);
            assert(g4.term_of(gradient_array as int) == g1.term_of(gradient_array as int));
            assert(g4.term_of(hessian_array as int) == g3.term_of(hessian_array as int));
            assert(g4.term_of(self.result as int) == g0.term_of(self.result as int));
            assert(terms(g1.store(), seq![self.result, gradient_array], g1.store().len() as int) =~= seq![
                g4.term_of(self.result as int),
                Term::Array(terms(g4.store(), gradient@, g4.store().len() as int)),
            ]);
            assert(terms(g3.store(), seq![self.result, gradient_array, hessian_array], g3.store().len() as int) =~= seq![
                g4.term_of(self.result as int),
                Term::Array(terms(g4.store(), gradient@, g4.store().len() as int)),
                Term::Array(terms(g4.store(), hessian@, g4.store().len() as int)),
            ]);
        }
        (value_gradient, value_gradient_hessian)
    }

    /// Stores a collection of existing nodes.
    fn bundle(&self, graph: &mut Graph, c: Collection) -> (r: usize)
        requires
            old(graph).wf(),
            c.wf(),
            forall|i: int|
                0 <= i < c.elements_spec().len() ==> old(graph).holds(#[trigger] c.elements_spec()[i] as int),
        ensures
            old(graph).extended_by(*final(graph)),
            final(graph).holds(r as int),
            final(graph).term_of(r as int) == match c {
                Collection::Array(_) => Term::Array(terms(old(graph).store(), c.elements_spec(), old(graph).store().len() as int)),
                Collection::Tuple(_) => Term::Tuple(terms(old(graph).store(), c.elements_spec(), old(graph).store().len() as int)),
                Collection::Struct(s) => Term::Struct(s.name@, crate::node::names_view(s.name_order@), terms(old(graph).store(), c.elements_spec(), old(graph).store().len() as int)),
            },
    {
        proof {
            let k = NodeType::Collection(c);
            assert forall|i: int| 0 <= i < k.children().len() implies #[trigger] k.children()[i] < old(graph).store().len() by {
                assert(old(graph).holds(c.elements_spec()[i] as int));
            }
        }
        graph.new_collection(c)
    }
}

/// The terms of handles that a graph keeps are those of its extension.
proof fn lemma_terms_stable(g1: Graph, g2: Graph, hs: Seq<usize>)
    requires
        g1.wf(),
        g1.extended_by(g2),
        forall|i: int| 0 <= i < hs.len() ==> g1.holds(#[trigger] hs[i] as int),
    ensures
        terms(g2.store(), hs, g2.store().len() as int) == terms(g1.store(), hs, g1.store().len() as int),
{
    lemma_terms_index(g1.store(), hs, g1.store().len() as int);
    lemma_terms_index(g2.store(), hs, g2.store().len() as int);
    assert forall|i: int| 0 <= i < hs.len() implies terms(g2.store(), hs, g2.store().len() as int)[i]
        == terms(g1.store(), hs, g1.store().len() as int)[i] by {
        assert(g1.holds(hs[i] as int));
        assert(g2.term_of(hs[i] as int) == g1.term_of(hs[i] as int));
    }
    assert(terms(g2.store(), hs, g2.store().len() as int) =~= terms(g1.store(), hs, g1.store().len() as int));
}

/// A copy of a list of handles.
fn copy_handles(v: &Vec<usize>) -> (r: Vec<usize>)
    ensures
        r@ == v@,
{
    let mut r: Vec<usize> = Vec::new();
    let mut k: usize = 0;
    while k < v.len()
        invariant
            k <= v@.len(),
            r@ =~= v@.take(k as int),
        decreases v@.len() - k,
    {
        r.push(v[k]);
        k = k + 1;
        assert(r@ =~= v@.take(k as int));
    }
    assert(v@.take(v@.len() as int) =~= v@);
    r
}

} // verus!
