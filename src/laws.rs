use vstd::prelude::*;

use crate::construct::{binary_post, built};
use crate::error::GraphError;
use crate::graph::{Graph, insert_post, lemma_equal_terms_same_handle};
use crate::node::{BinaryOp, Node, NodeType, UnaryOp};
use crate::term::{simp_binary, simp_unary};

verus! {

proof fn lemma_same_symmetric_transitive(x: NodeType, y: NodeType, z: NodeType)
    ensures
        x.same(y) ==> y.same(x),
        x.same(y) && y.same(z) ==> x.same(z),
{
}

/// Hash-consing: inserting structurally equal nodes twice yields one
/// handle, and the second insertion leaves the store as it was.
pub proof fn law_insert_twice(
    g0: Graph,
    g1: Graph,
    g2: Graph,
    a: Node,
    b: Node,
    ra: int,
    rb: int,
)
    requires
        g1.wf(),
        insert_post(g0.store(), g1.store(), a, ra),
        insert_post(g1.store(), g2.store(), b, rb),
        a.interior.same(b.interior),
    ensures
        ra == rb,
        g2.store() == g1.store(),
{
    let s1 = g1.store();
    lemma_same_symmetric_transitive(s1[ra].interior, a.interior, b.interior);
    assert(s1[ra].interior.same(b.interior));
    assert(crate::graph::present(s1, b.interior));
    assert(g2.store() == s1);
    lemma_same_symmetric_transitive(s1[ra].interior, b.interior, s1[rb].interior);
    lemma_same_symmetric_transitive(s1[rb].interior, b.interior, s1[ra].interior);
    lemma_same_symmetric_transitive(b.interior, s1[rb].interior, s1[rb].interior);
    if ra < rb {
        assert(!s1[ra].interior.same(s1[rb].interior));
    } else if rb < ra {
        assert(!s1[rb].interior.same(s1[ra].interior));
    }
}

/// A binary constructor returns the node that already holds the simplified
/// form of its operands, whenever one exists (e.g. `x * 1` is `x`).
pub proof fn law_binary_canonical(
    g0: Graph,
    g1: Graph,
    op: BinaryOp,
    l: int,
    r: int,
    h: usize,
    k: int,
)
    requires
        binary_post(g0, g1, op, l, r, Ok::<usize, GraphError>(h)),
        g1.holds(k),
        g1.term_of(k) == simp_binary(op, g0.term_of(l), g0.term_of(r)),
    ensures
        h == k,
{
    lemma_equal_terms_same_handle(g1, h as int, k);
}

/// Building the same binary operation twice yields the same node, and the
/// second build leaves the store unchanged.
pub proof fn law_binary_idempotent(
    g0: Graph,
    g1: Graph,
    g2: Graph,
    op: BinaryOp,
    l: int,
    r: int,
    h1: usize,
    h2: usize,
)
    requires
        g0.holds(l),
        g0.holds(r),
        binary_post(g0, g1, op, l, r, Ok::<usize, GraphError>(h1)),
        binary_post(g1, g2, op, l, r, Ok::<usize, GraphError>(h2)),
    ensures
        h1 == h2,
        g2.store() == g1.store(),
{
    assert(g1.term_of(l) == g0.term_of(l));
    assert(g1.term_of(r) == g0.term_of(r));
    assert(g2.term_of(h1 as int) == g1.term_of(h1 as int));
    lemma_equal_terms_same_handle(g2, h1 as int, h2 as int);
}

/// Building the same unary operation twice yields the same node, and the
/// second build leaves the store unchanged.
pub proof fn law_unary_idempotent(
    g0: Graph,
    g1: Graph,
    g2: Graph,
    op: UnaryOp,
    a: int,
    h1: usize,
    h2: usize,
)
    requires
        g0.holds(a),
        built(g0, g1, h1 as int, simp_unary(op, g0.term_of(a))),
        built(g1, g2, h2 as int, simp_unary(op, g1.term_of(a))),
    ensures
        h1 == h2,
        g2.store() == g1.store(),
{
    assert(g1.term_of(a) == g0.term_of(a));
    assert(g2.term_of(h1 as int) == g1.term_of(h1 as int));
    lemma_equal_terms_same_handle(g2, h1 as int, h2 as int);
}

} // verus!
