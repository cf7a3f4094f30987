use vstd::prelude::*;

use crate::error::GraphError;
use crate::graph::Graph;
use crate::node::{NodeType, UnaryOp};
use crate::schedule::is_schedule;
use crate::term::simp_unary;

verus! {

/// What a code emitter needs for one function: the nodes to evaluate, in
/// order, and how many parameter and data variables they read.
#[derive(Debug)]
pub struct EmissionPlan {
    pub order: Vec<usize>,
    pub num_parameters: usize,
    pub num_data: usize,
}

/// Whether node `h` of `g` is a variable of the given role.
pub open spec fn is_variable_of(g: Graph, h: usize, parameter: bool) -> bool {
    g.store()[h as int].interior is Variable && g.store()[h as int].interior->Variable_0.parameter
        == parameter
}

/// The number of variables of the given role among the first `n` nodes of `order`.
pub open spec fn count_variables(g: Graph, order: Seq<usize>, parameter: bool, n: int) -> nat
    decreases n,
{
    if n <= 0 {
        0
    } else {
        count_variables(g, order, parameter, n - 1) + if is_variable_of(g, order[n - 1], parameter) {
            1nat
        } else {
            0nat
        }
    }
}

/// Whether some node of `order` is a collection.
pub open spec fn has_collection(g: Graph, order: Seq<usize>) -> bool {
    exists|k: int| 0 <= k < order.len() && (#[trigger] g.store()[order[k] as int]).interior is Collection
}

impl Graph {
    /// The nodes to evaluate for `roots`, with the number of parameter and
    /// data variables among them. A collection cannot be evaluated: one
    /// among the nodes is an invalid root.
    pub fn plan(&self, roots: &Vec<usize>) -> (r: Result<EmissionPlan, GraphError>)
        requires
            self.wf(),
            forall|i: int| 0 <= i < roots@.len() ==> self.holds(#[trigger] roots@[i] as int),
        ensures
            match r {
                Ok(p) => {
                    &&& is_schedule(*self, roots@, p.order@)
                    &&& !has_collection(*self, p.order@)
                    &&& p.num_parameters == count_variables(*self, p.order@, true, p.order@.len() as int)
                    &&& p.num_data == count_variables(*self, p.order@, false, p.order@.len() as int)
                },
                Err(e) => e == GraphError::InvalidRoot && exists|o: Seq<usize>|
                    is_schedule(*self, roots@, o) && has_collection(*self, o),
            },
    {
        let order = self.order(roots);
        let mut num_parameters: usize = 0;
        let mut num_data: usize = 0;
        let mut k: usize = 0;
        while k < order.len()
            invariant
                self.wf(),
                is_schedule(*self, roots@, order@),
                k <= order@.len(),
                num_parameters == count_variables(*self, order@, true, k as int),
                num_data == count_variables(*self, order@, false, k as int),
                num_parameters + num_data <= k,
                forall|q: int| 0 <= q < k ==> !((#[trigger] self.store()[order@[q] as int]).interior is Collection),
            decreases order@.len() - k,
        {
            let h = order[k];
            assert(order@[k as int] < self.store().len());
            match &self.node(h).interior {
                NodeType::Collection(_) => {
                    proof {
                        assert((self.store()[order@[k as int] as int]).interior is Collection);
                        assert(has_collection(*self, order@));
                    }
                    return Err(GraphError::InvalidRoot);
                },
                NodeType::Variable(v) => {
                    if v.parameter {
                        num_parameters = num_parameters + 1;
                    } else {
                        num_data = num_data + 1;
                    }
                },
                _ => {},
            }
            k = k + 1;
        }
        Ok(EmissionPlan { order, num_parameters, num_data })
    }

    /// The negative logarithm of node `value`: the quantity a fit minimises
    /// when `value` is a probability density.
    pub fn negative_log(&mut self, value: usize) -> (r: usize)
        requires
            old(self).wf(),
            old(self).holds(value as int),
        ensures
            final(self).holds(r as int),
            old(self).extended_by(*final(self)),
            final(self).term_of(r as int) == simp_unary(
                UnaryOp::Negative,
                simp_unary(UnaryOp::Log, old(self).term_of(value as int)),
            ),
    {
        let ghost g0 = *self;
        let log = self.new_unary(UnaryOp::Log, value);
        let ghost g1 = *self;
        let r = self.new_unary(UnaryOp::Negative, log);
        proof {
            crate::graph::lemma_extends_trans(g0, g1, *self);
        }
        r
    }
}

} // verus!
