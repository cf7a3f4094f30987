use vstd::prelude::*;

use crate::error::GraphError;
use crate::graph::{Graph, adds_at_most, lemma_extends_refl, lemma_extends_trans, lemma_terms_index, node_fits};
use crate::node::{Array, Collection, Node, NodeType, Struct, Tuple, names_view};
use crate::term::{Term, divides_by_zero, simp_binary, simp_unary, terms};

verus! {

/// The last position of `h` among the first `n` entries of `args`, or -1.
pub open spec fn last_position(args: Seq<usize>, h: int, n: int) -> int
    decreases n,
{
    if n <= 0 {
        -1
    } else if args[n - 1] == h {
        n - 1
    } else {
        last_position(args, h, n - 1)
    }
}

/// The term that splicing node `h` of `src` yields when the nodes `args[i]`
/// stand for the terms `inputs[i]`: every other node is rebuilt through the
/// simplifying constructors, and a variable that is not an argument is an
/// undefined reference.
pub open spec fn spliced(src: Seq<Node>, h: int, args: Seq<usize>, inputs: Seq<Term>) -> Result<
    Term,
    GraphError,
>
    decreases h, 2int, 0int,
{
    let p = last_position(args, h, args.len() as int);
    if p >= 0 {
        if p < inputs.len() {
            Ok(inputs[p])
        } else {
            Err(GraphError::ArityMismatch)
        }
    } else if 0 <= h < src.len() {
        spliced_node(src, src[h].interior, h, args, inputs)
    } else {
        Err(GraphError::UndefinedReference)
    }
}

/// `spliced` for a node of content `k` whose children lie below `bound`.
pub open spec fn spliced_node(
    src: Seq<Node>,
    k: NodeType,
    bound: int,
    args: Seq<usize>,
    inputs: Seq<Term>,
) -> Result<Term, GraphError>
    decreases bound, 1int, 0int,
{
    match k {
        NodeType::Constant(c) => Ok(Term::Const(c)),
        NodeType::Variable(_) => Err(GraphError::UndefinedReference),
        NodeType::Unary(u) => if 0 <= u.argument < bound {
            match spliced(src, u.argument as int, args, inputs) {
                Ok(a) => Ok(simp_unary(u.operation, a)),
                Err(e) => Err(e),
            }
        } else {
            Err(GraphError::UndefinedReference)
        },
        NodeType::Binary(b) => if 0 <= b.left < bound && 0 <= b.right < bound {
            match spliced(src, b.left as int, args, inputs) {
                Ok(l) => match spliced(src, b.right as int, args, inputs) {
                    Ok(r) => if divides_by_zero(b.operation, l, r) {
                        Err(GraphError::DivisionByZero)
                    } else {
                        Ok(simp_binary(b.operation, l, r))
                    },
                    Err(e) => Err(e),
                },
                Err(e) => Err(e),
            }
        } else {
            Err(GraphError::UndefinedReference)
        },
        NodeType::Collection(c) => match spliced_all(src, c.elements_spec(), bound, args, inputs) {
            Ok(ts) => Ok(
                match c {
                    Collection::Array(_) => Term::Array(ts),
                    Collection::Tuple(_) => Term::Tuple(ts),
                    Collection::Struct(s) => Term::Struct(s.name@, names_view(s.name_order@), ts),
                },
            ),
            Err(e) => Err(e),
        },
    }
}

/// `spliced` for each of a list of handles below `bound`, left to right.
pub open spec fn spliced_all(
    src: Seq<Node>,
    hs: Seq<usize>,
    bound: int,
    args: Seq<usize>,
    inputs: Seq<Term>,
) -> Result<Seq<Term>, GraphError>
    decreases bound, 0int, hs.len(),
{
    if hs.len() == 0 {
        Ok(Seq::empty())
    } else {
        match spliced_all(src, hs.drop_last(), bound, args, inputs) {
            Ok(ts) => {
                let last = hs.last();
                if 0 <= last < bound {
                    match spliced(src, last as int, args, inputs) {
                        Ok(t) => Ok(ts.push(t)),
                        Err(e) => Err(e),
                    }
                } else {
                    Err(GraphError::UndefinedReference)
                }
            },
            Err(e) => Err(e),
        }
    }
}

/// Whether each memoised node of `src` maps to a node of `g` holding its spliced term.
pub open spec fn memo_ok(
    g: Graph,
    src: Graph,
    memo: Seq<Option<usize>>,
    args: Seq<usize>,
    inputs: Seq<Term>,
) -> bool {
    &&& memo.len() == src.store().len()
    &&& forall|x: int|
        0 <= x < memo.len() && #[trigger] memo[x] is Some ==> g.holds(memo[x]->Some_0 as int)
            && spliced(src.store(), x, args, inputs) == Ok::<Term, GraphError>(
            g.term_of(memo[x]->Some_0 as int),
        )
}

/// Whether every node that `new` adds to `old` holds the spliced term of a
/// node of `src` at or below `bound`.
pub open spec fn adds_spliced(
    old: Graph,
    new: Graph,
    src: Seq<Node>,
    args: Seq<usize>,
    its: Seq<Term>,
    bound: int,
) -> bool {
    forall|k: int|
        old.store().len() <= k < new.store().len() ==> #[trigger] spliced_below(new, k, src, args, its, bound)
}

/// Whether node `k` of `g` holds the spliced term of a node of `src` at or
/// below `bound`.
pub open spec fn spliced_below(
    g: Graph,
    k: int,
    src: Seq<Node>,
    args: Seq<usize>,
    its: Seq<Term>,
    bound: int,
) -> bool {
    exists|x: int|
        0 <= x <= bound && #[trigger] spliced(src, x, args, its) == Ok::<Term, GraphError>(g.term_of(k))
}

proof fn lemma_adds_trans(
    g0: Graph,
    g1: Graph,
    g2: Graph,
    src: Seq<Node>,
    args: Seq<usize>,
    its: Seq<Term>,
    bound: int,
)
    requires
        g0.extended_by(g1),
        g1.extended_by(g2),
        adds_spliced(g0, g1, src, args, its, bound),
        adds_spliced(g1, g2, src, args, its, bound),
    ensures
        adds_spliced(g0, g2, src, args, its, bound),
{
    assert forall|k: int| g0.store().len() <= k < g2.store().len() implies #[trigger] spliced_below(
        g2,
        k,
        src,
        args,
        its,
        bound,
    ) by {
        if k < g1.store().len() {
            assert(spliced_below(g1, k, src, args, its, bound));
            assert(g2.term_of(k) == g1.term_of(k));
        }
    }
}

proof fn lemma_adds_last(
    g0: Graph,
    g1: Graph,
    g2: Graph,
    src: Seq<Node>,
    args: Seq<usize>,
    its: Seq<Term>,
    bound: int,
    r: int,
    h: int,
)
    requires
        g0.extended_by(g1),
        g1.extended_by(g2),
        adds_spliced(g0, g1, src, args, its, bound),
        adds_at_most(g1.store(), g2.store(), r),
        0 <= h <= bound,
        spliced(src, h, args, its) == Ok::<Term, GraphError>(g2.term_of(r)),
    ensures
        adds_spliced(g0, g2, src, args, its, bound),
{
    assert forall|k: int| g0.store().len() <= k < g2.store().len() implies #[trigger] spliced_below(
        g2,
        k,
        src,
        args,
        its,
        bound,
    ) by {
        if k < g1.store().len() {
            assert(spliced_below(g1, k, src, args, its, bound));
            assert(g2.term_of(k) == g1.term_of(k));
        } else {
            assert(k == r);
            assert(spliced(src, h, args, its) == Ok::<Term, GraphError>(g2.term_of(k)));
        }
    }
}

/// Whether the handles `inputs` of `g` stand for the terms `its`.
pub open spec fn inputs_ok(g: Graph, inputs: Seq<usize>, its: Seq<Term>) -> bool {
    &&& inputs.len() == its.len()
    &&& forall|i: int|
        0 <= i < inputs.len() ==> g.holds(#[trigger] inputs[i] as int) && its[i] == g.term_of(
            inputs[i] as int,
        )
}

proof fn lemma_extend_memo(
    g1: Graph,
    g2: Graph,
    src: Graph,
    memo: Seq<Option<usize>>,
    args: Seq<usize>,
    inputs: Seq<usize>,
    its: Seq<Term>,
)
    requires
        g1.extended_by(g2),
        memo_ok(g1, src, memo, args, its),
        inputs_ok(g1, inputs, its),
    ensures
        memo_ok(g2, src, memo, args, its),
        inputs_ok(g2, inputs, its),
{
    assert forall|x: int| 0 <= x < memo.len() && #[trigger] memo[x] is Some implies g2.holds(
        memo[x]->Some_0 as int,
    ) && spliced(src.store(), x, args, its) == Ok::<Term, GraphError>(
        g2.term_of(memo[x]->Some_0 as int),
    ) by {
        assert(g2.term_of(memo[x]->Some_0 as int) == g1.term_of(memo[x]->Some_0 as int));
    }
    assert forall|i: int| 0 <= i < inputs.len() implies g2.holds(#[trigger] inputs[i] as int)
        && its[i] == g2.term_of(inputs[i] as int) by {
        assert(g2.term_of(inputs[i] as int) == g1.term_of(inputs[i] as int));
    }
}

/// The last position of `h` in `args`, if any.
fn find_last(args: &Vec<usize>, h: usize) -> (r: Option<usize>)
    ensures
        match r {
            Some(p) => p as int == last_position(args@, h as int, args@.len() as int),
            None => last_position(args@, h as int, args@.len() as int) == -1,
        },
{
    let mut n: usize = args.len();
    while n > 0
        invariant
            n <= args@.len(),
            last_position(args@, h as int, args@.len() as int) == last_position(
                args@,
                h as int,
                n as int,
            ),
        decreases n,
    {
        if args[n - 1] == h {
            return Some(n - 1);
        }
        n = n - 1;
    }
    None
}

/// A copy of a list of names.
fn copy_names(v: &Vec<String>) -> (r: Vec<String>)
    ensures
        names_view(r@) == names_view(v@),
{
    let mut r: Vec<String> = Vec::new();
    let mut i: usize = 0;
    while i < v.len()
        invariant
            i <= v@.len(),
            r@.len() == i,
            forall|k: int| 0 <= k < i ==> r@[k]@ == v@[k]@,
        decreases v@.len() - i,
    {
        r.push(v[i].clone());
        i = i + 1;
    }
    assert(names_view(r@) =~= names_view(v@));
    r
}

proof fn lemma_spliced_all_prefix_err(
    src: Seq<Node>,
    hs: Seq<usize>,
    n: int,
    bound: int,
    args: Seq<usize>,
    its: Seq<Term>,
    e: GraphError,
)
    requires
        0 <= n <= hs.len(),
        spliced_all(src, hs.take(n), bound, args, its) == Err::<Seq<Term>, GraphError>(e),
    ensures
        spliced_all(src, hs, bound, args, its) == Err::<Seq<Term>, GraphError>(e),
    decreases hs.len() - n,
{
    if n < hs.len() {
        assert(hs.take(n + 1).drop_last() =~= hs.take(n));
        lemma_spliced_all_prefix_err(src, hs, n + 1, bound, args, its, e);
    } else {
        assert(hs.take(n) =~= hs);
    }
}

proof fn lemma_last_position_bounds(args: Seq<usize>, h: int, n: int)
    requires
        0 <= n <= args.len(),
    ensures
        -1 <= last_position(args, h, n) < n,
        last_position(args, h, n) >= 0 ==> args[last_position(args, h, n)] == h,
    decreases n,
{
    if n > 0 {
        lemma_last_position_bounds(args, h, n - 1);
    }
}

proof fn lemma_unfold_spliced(src: Seq<Node>, h: int, args: Seq<usize>, its: Seq<Term>)
    requires
        0 <= h < src.len(),
        last_position(args, h, args.len() as int) == -1,
    ensures
        spliced(src, h, args, its) == spliced_node(src, src[h].interior, h, args, its),
{
}

/// The terms of a list of handles of `g`.
pub open spec fn input_terms(g: Graph, inputs: Seq<usize>) -> Seq<Term> {
    inputs.map_values(|h: usize| g.term_of(h as int))
}

/// A function: a result node computed from its argument nodes, all held in
/// the function's own graph.
#[derive(Debug)]
pub struct Function {
    pub name: String,
    pub arguments: Vec<usize>,
    pub result: usize,
}

impl Graph {
    /// Splices node `h` of `src`, memoising what each node became.
    fn splice_node(
        &mut self,
        src: &Graph,
        h: usize,
        args: &Vec<usize>,
        inputs: &Vec<usize>,
        memo: &mut Vec<Option<usize>>,
        Ghost(its): Ghost<Seq<Term>>,
        Ghost(bound): Ghost<int>,
    ) -> (r: Result<usize, GraphError>)
        requires
            old(self).wf(),
            src.wf(),
            src.holds(h as int),
            h <= bound,
            args@.len() == its.len(),
            memo_ok(*old(self), *src, old(memo)@, args@, its),
            inputs_ok(*old(self), inputs@, its),
        ensures
            old(self).extended_by(*final(self)),
            memo_ok(*final(self), *src, final(memo)@, args@, its),
            inputs_ok(*final(self), inputs@, its),
            adds_spliced(*old(self), *final(self), src.store(), args@, its, bound),
            match r {
                Ok(x) => final(self).holds(x as int) && spliced(src.store(), h as int, args@, its)
                    == Ok::<Term, GraphError>(final(self).term_of(x as int)),
                Err(e) => spliced(src.store(), h as int, args@, its) == Err::<Term, GraphError>(e),
            },
        decreases h, 1int,
    {
        let ghost g0 = *self;
        proof {
            lemma_extends_refl(*self);
        }
        if let Some(x) = memo[h] {
            return Ok(x);
        }
        if let Some(p) = find_last(args, h) {
            proof {
                lemma_last_position_bounds(args@, h as int, args@.len() as int);
            }
            return Ok(inputs[p]);
        }
        proof {
            assert(node_fits(src.store(), src.store()[h as int], h as int));
            lemma_last_position_bounds(args@, h as int, args@.len() as int);
            lemma_unfold_spliced(src.store(), h as int, args@, its);
        }
        if src.node(h).interior.is_collection() {
            return self.splice_collection(src, h, args, inputs, memo, Ghost(its), Ghost(bound));
        }
        let (unary, binary, constant) = match &src.node(h).interior {
            NodeType::Unary(u) => (Some(*u), None, None),
            NodeType::Binary(b) => (None, Some(*b), None),
            NodeType::Constant(c) => (None, None, Some(*c)),
            _ => (None, None, None),
        };
        let r: usize;
        let ghost mut gp = g0;
        if let Some(c) = constant {
            r = self.new_constant(c);
            proof {
                lemma_extend_memo(g0, *self, *src, memo@, args@, inputs@, its);
            }
        } else if let Some(u) = unary {
            proof {
                assert(src.store()[h as int].interior.children()[0] == u.argument);
            }
            let a = match self.splice_node(src, u.argument, args, inputs, memo, Ghost(its), Ghost(bound)) {
                Ok(a) => a,
                Err(e) => return Err(e),
            };
            let ghost g1 = *self;
            proof {
                gp = g1;
            }
            r = self.new_unary(u.operation, a);
            proof {
                lemma_extend_memo(g1, *self, *src, memo@, args@, inputs@, its);
                lemma_extends_trans(g0, g1, *self);
            }
        } else if let Some(b) = binary {
            proof {
                assert(src.store()[h as int].interior.children()[0] == b.left);
                assert(src.store()[h as int].interior.children()[1] == b.right);
            }
            let l = match self.splice_node(src, b.left, args, inputs, memo, Ghost(its), Ghost(bound)) {
                Ok(l) => l,
                Err(e) => return Err(e),
            };
            let ghost g1 = *self;
            let rr = match self.splice_node(src, b.right, args, inputs, memo, Ghost(its), Ghost(bound)) {
                Ok(x) => x,
                Err(e) => {
                    proof {
                        lemma_extends_trans(g0, g1, *self);
                        lemma_adds_trans(g0, g1, *self, src.store(), args@, its, bound);
                    }
                    return Err(e);
                },
            };
            let ghost g2 = *self;
            proof {
                lemma_extends_trans(g0, g1, g2);
                lemma_adds_trans(g0, g1, g2, src.store(), args@, its, bound);
                gp = g2;
            }
            let built = self.new_binary(b.operation, l, rr);
            proof {
                lemma_extends_trans(g0, g2, *self);
            }
            r = match built {
                Ok(x) => x,
                Err(e) => return Err(e),
            };
            proof {
                lemma_extend_memo(g2, *self, *src, memo@, args@, inputs@, its);
            }
        } else {
            return Err(GraphError::UndefinedReference);
        }
        proof {
            lemma_adds_last(g0, gp, *self, src.store(), args@, its, bound, r as int, h as int);
        }
        let ghost m0 = memo@;
        memo.set(h, Some(r));
        proof {
            assert forall|x: int| 0 <= x < memo@.len() && #[trigger] memo@[x] is Some implies self.holds(
                memo@[x]->Some_0 as int,
            ) && spliced(src.store(), x, args@, its) == Ok::<Term, GraphError>(
                self.term_of(memo@[x]->Some_0 as int),
            ) by {
                if x != h {
                    assert(memo@[x] == m0[x]);
                }
            }
        }
        Ok(r)
    }

    /// Splices collection node `h` of `src`.
    fn splice_collection(
        &mut self,
        src: &Graph,
        h: usize,
        args: &Vec<usize>,
        inputs: &Vec<usize>,
        memo: &mut Vec<Option<usize>>,
        Ghost(its): Ghost<Seq<Term>>,
        Ghost(bound): Ghost<int>,
    ) -> (r: Result<usize, GraphError>)
        requires
            old(self).wf(),
            src.wf(),
            src.holds(h as int),
            h <= bound,
            src.store()[h as int].interior is Collection,
            last_position(args@, h as int, args@.len() as int) == -1,
            args@.len() == its.len(),
            memo_ok(*old(self), *src, old(memo)@, args@, its),
            inputs_ok(*old(self), inputs@, its),
        ensures
            old(self).extended_by(*final(self)),
            memo_ok(*final(self), *src, final(memo)@, args@, its),
            inputs_ok(*final(self), inputs@, its),
            adds_spliced(*old(self), *final(self), src.store(), args@, its, bound),
            match r {
                Ok(x) => final(self).holds(x as int) && spliced(src.store(), h as int, args@, its)
                    == Ok::<Term, GraphError>(final(self).term_of(x as int)),
                Err(e) => spliced(src.store(), h as int, args@, its) == Err::<Term, GraphError>(e),
            },
        decreases h, 0int,
    {
        let ghost g0 = *self;
        proof {
            lemma_extends_refl(*self);
            assert(node_fits(src.store(), src.store()[h as int], h as int));
        }
        let children = src.children_of(h);
        let ghost hs = children@;
        let mut out: Vec<usize> = Vec::new();
        let ghost mut ts: Seq<Term> = Seq::empty();
        let mut i: usize = 0;
        proof {
            assert(hs.take(0) =~= Seq::<usize>::empty());
        }
        while i < children.len()
            invariant
                g0 == *old(self),
                g0.extended_by(*self),
                src.wf(),
                src.holds(h as int),
                src.store()[h as int].interior is Collection,
                last_position(args@, h as int, args@.len() as int) == -1,
                children@ == hs,
                hs == src.store()[h as int].interior.children(),
                forall|c: int| 0 <= c < hs.len() ==> #[trigger] hs[c] < h,
                args@.len() == its.len(),
                memo_ok(*self, *src, memo@, args@, its),
                inputs_ok(*self, inputs@, its),
                h <= bound,
                adds_spliced(g0, *self, src.store(), args@, its, bound),
                i <= hs.len(),
                out@.len() == i,
                ts.len() == i,
                spliced_all(src.store(), hs.take(i as int), h as int, args@, its) == Ok::<
                    Seq<Term>,
                    GraphError,
                >(ts),
                forall|k: int|
                    0 <= k < i ==> self.holds(#[trigger] out@[k] as int) && ts[k] == self.term_of(
                        out@[k] as int,
                    ),
            decreases hs.len() - i,
        {
            let ghost g1 = *self;
            proof {
                assert(hs.take(i + 1).drop_last() =~= hs.take(i as int));
                assert(hs.take(i + 1).last() == hs[i as int]);
            }
            match self.splice_node(src, children[i], args, inputs, memo, Ghost(its), Ghost(bound)) {
                Ok(x) => {
                    out.push(x);
                    proof {
                        lemma_adds_trans(g0, g1, *self, src.store(), args@, its, bound);
                        lemma_extends_trans(g0, g1, *self);
                        let t = self.term_of(x as int);
                        assert forall|k: int| 0 <= k < i implies self.holds(#[trigger] out@[k] as int)
                            && ts[k] == self.term_of(out@[k] as int) by {
                            assert(self.term_of(out@[k] as int) == g1.term_of(out@[k] as int));
                        }
                        ts = ts.push(t);
                    }
                },
                Err(e) => {
                    proof {
                        lemma_adds_trans(g0, g1, *self, src.store(), args@, its, bound);
                        lemma_unfold_spliced(src.store(), h as int, args@, its);
                        lemma_extends_trans(g0, g1, *self);
                        lemma_spliced_all_prefix_err(
                            src.store(),
                            hs,
                            i + 1,
                            h as int,
                            args@,
                            its,
                            e,
                        );
                    }
                    return Err(e);
                },
            }
            i = i + 1;
        }
        proof {
            assert(hs.take(hs.len() as int) =~= hs);
        }
        let collection = match &src.node(h).interior {
            NodeType::Collection(Collection::Struct(s)) => {
                let name_order = copy_names(&s.name_order);
                proof {
                    assert(names_view(name_order@).len() == name_order@.len());
                    assert(names_view(s.name_order@).len() == s.name_order@.len());
                }
                Collection::Struct(Struct { name: s.name.clone(), name_order, elements: out })
            },
            NodeType::Collection(Collection::Tuple(_)) => Collection::Tuple(Tuple { elements: out }),
            _ => Collection::Array(Array { elements: out }),
        };
        let ghost g2 = *self;
        proof {
            assert(src.store()[h as int].interior.wf());
            let k = NodeType::Collection(collection);
            assert(k.children() == out@);
            assert forall|c: int| 0 <= c < k.children().len() implies #[trigger] k.children()[c]
                < self.store().len() by {
                assert(self.holds(out@[c] as int));
            }
            lemma_terms_index(self.store(), out@, self.store().len() as int);
            assert(terms(self.store(), out@, self.store().len() as int) =~= ts);
        }
        let r = self.new_collection(collection);
        proof {
            lemma_unfold_spliced(src.store(), h as int, args@, its);
            lemma_adds_last(g0, g2, *self, src.store(), args@, its, bound, r as int, h as int);
            lemma_extend_memo(g2, *self, *src, memo@, args@, inputs@, its);
            lemma_extends_trans(g0, g2, *self);
        }
        Ok(r)
    }

    /// Inlines `function`, whose nodes live in `source`, into this graph:
    /// each argument node stands for the matching input, and every other
    /// node is rebuilt through the simplifying constructors.
    pub fn splice(&mut self, source: &Graph, function: &Function, inputs: Vec<usize>) -> (r: Result<
        usize,
        GraphError,
    >)
        requires
            old(self).wf(),
            source.wf(),
            source.holds(function.result as int),
            forall|i: int| 0 <= i < inputs@.len() ==> old(self).holds(#[trigger] inputs@[i] as int),
        ensures
            old(self).extended_by(*final(self)),
            inputs@.len() != function.arguments@.len() ==> r == Err::<usize, GraphError>(
                GraphError::ArityMismatch,
            ) && *final(self) == *old(self),
            adds_spliced(
                *old(self),
                *final(self),
                source.store(),
                function.arguments@,
                input_terms(*old(self), inputs@),
                function.result as int,
            ),
            inputs@.len() == function.arguments@.len() ==> match r {
                Ok(x) => final(self).holds(x as int) && spliced(
                    source.store(),
                    function.result as int,
                    function.arguments@,
                    input_terms(*old(self), inputs@),
                ) == Ok::<Term, GraphError>(final(self).term_of(x as int)),
                Err(e) => spliced(
                    source.store(),
                    function.result as int,
                    function.arguments@,
                    input_terms(*old(self), inputs@),
                ) == Err::<Term, GraphError>(e),
            },
    {
        proof {
            lemma_extends_refl(*self);
        }
        if inputs.len() != function.arguments.len() {
            return Err(GraphError::ArityMismatch);
        }
        let ghost its = input_terms(*self, inputs@);
        let n = source.len();
        let mut memo: Vec<Option<usize>> = Vec::new();
        let mut j: usize = 0;
        while j < n
            invariant
                j <= n,
                n == source.store().len(),
                memo@.len() == j,
                forall|x: int| 0 <= x < j ==> #[trigger] memo@[x] is None,
            decreases n - j,
        {
            memo.push(None);
            j = j + 1;
        }
        self.splice_node(
            source,
            function.result,
            &function.arguments,
            &inputs,
            &mut memo,
            Ghost(its),
            Ghost(function.result as int),
        )
    }
}

} // verus!
