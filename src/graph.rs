use vstd::prelude::*;

use vstd::hash_map::HashMapWithView;

use crate::constant::Constant;
use crate::node::{BinaryOp, Collection, Node, NodeType, UnaryOp, Variable, names_view};
use crate::term::{Term, node_term, term, terms};

verus! {

/// `a + b`, held at `usize::MAX` when it does not fit.
pub open spec fn sat_add(a: int, b: int) -> usize {
    if a + b > usize::MAX {
        usize::MAX
    } else {
        (a + b) as usize
    }
}

/// Whether the children of `k` all lie below `bound`.
pub open spec fn children_below(k: NodeType, bound: int) -> bool {
    forall|i: int| 0 <= i < k.children().len() ==> #[trigger] k.children()[i] < bound
}

/// Whether the subtree of `k` reads a parameter, given its children in `s`.
pub open spec fn reads_parameters(s: Seq<Node>, k: NodeType) -> bool {
    match k {
        NodeType::Binary(b) => s[b.left as int].parameters || s[b.right as int].parameters,
        NodeType::Unary(u) => s[u.argument as int].parameters,
        NodeType::Variable(v) => v.parameter,
        _ => false,
    }
}

/// Whether the subtree of `k` reads a data value, given its children in `s`.
pub open spec fn reads_data(s: Seq<Node>, k: NodeType) -> bool {
    match k {
        NodeType::Binary(b) => s[b.left as int].data || s[b.right as int].data,
        NodeType::Unary(u) => s[u.argument as int].data,
        NodeType::Variable(v) => !v.parameter,
        _ => false,
    }
}

/// The estimated cost of `k`, given its children in `s`.
pub open spec fn cost_of(s: Seq<Node>, k: NodeType) -> usize {
    match k {
        NodeType::Binary(b) => sat_add(
            sat_add(s[b.left as int].cost as int, s[b.right as int].cost as int) as int,
            b.operation.cost_spec() as int,
        ),
        NodeType::Unary(u) => sat_add(s[u.argument as int].cost as int, u.operation.cost_spec() as int),
        NodeType::Collection(_) => 0,
        _ => 1,
    }
}

/// Whether `n` may stand in a store whose first `bound` nodes are those of `s`.
pub open spec fn node_fits(s: Seq<Node>, n: Node, bound: int) -> bool {
    &&& n.interior.wf()
    &&& children_below(n.interior, bound)
    &&& n.parameters == reads_parameters(s, n.interior)
    &&& n.data == reads_data(s, n.interior)
    &&& n.cost == cost_of(s, n.interior)
}

/// The number of variables of the given role among the first `n` nodes.
pub open spec fn count_role(s: Seq<Node>, n: int, parameter: bool) -> nat
    decreases n,
{
    if n <= 0 {
        0
    } else {
        count_role(s, n - 1, parameter) + if s[n - 1].interior is Variable
            && s[n - 1].interior->Variable_0.parameter == parameter {
            1nat
        } else {
            0nat
        }
    }
}

/// Whether the node at `i` carries the index its variable was assigned.
pub open spec fn index_ok(s: Seq<Node>, i: int) -> bool {
    s[i].interior is Variable ==> s[i].interior->Variable_0.index == count_role(
        s,
        i,
        s[i].interior->Variable_0.parameter,
    )
}

/// Whether a store of nodes is well formed: every node refers only to
/// earlier nodes, carries the facts its children give it, and no two nodes
/// are structurally equal.
pub open spec fn store_wf(s: Seq<Node>) -> bool {
    &&& forall|i: int| 0 <= i < s.len() ==> node_fits(s, #[trigger] s[i], i)
    &&& forall|i: int| 0 <= i < s.len() ==> #[trigger] index_ok(s, i)
    &&& forall|i: int, j: int|
        0 <= i < j < s.len() ==> !(#[trigger] s[i].interior.same(#[trigger] s[j].interior))
}

/// Whether some node of `s` is structurally equal to `k`.
pub open spec fn present(s: Seq<Node>, k: NodeType) -> bool {
    exists|i: int| 0 <= i < s.len() && #[trigger] s[i].interior.same(k)
}

/// The node that `insert` appends to `s` for `n`: a variable receives the
/// next index of its role.
pub open spec fn stored(s: Seq<Node>, n: Node) -> Node {
    match n.interior {
        NodeType::Variable(v) => Node {
            interior: NodeType::Variable(
                Variable {
                    name: v.name,
                    parameter: v.parameter,
                    index: count_role(s, s.len() as int, v.parameter) as usize,
                },
            ),
            parameters: n.parameters,
            data: n.data,
            cost: n.cost,
        },
        _ => n,
    }
}

/// The outcome of inserting `n` into `old`: the existing equal node, or `n`
/// appended.
pub open spec fn insert_post(old: Seq<Node>, new: Seq<Node>, n: Node, r: int) -> bool {
    &&& 0 <= r < new.len()
    &&& new[r].interior.same(n.interior)
    &&& if present(old, n.interior) {
        new == old
    } else {
        new == old.push(stored(old, n)) && r == old.len()
    }
}

/// Whether `new` is `old`, or `old` with the single node `r` appended.
pub open spec fn adds_at_most(old: Seq<Node>, new: Seq<Node>, r: int) -> bool {
    ||| new == old
    ||| (new.len() == old.len() + 1 && r == old.len() && new.drop_last() == old)
}

/// The modulus by which handles and numbers enter an index key.
pub const KEY_MODULUS: u64 = 268435456;

pub open spec fn binary_code(op: BinaryOp) -> int {
    match op {
        BinaryOp::Add => 0,
        BinaryOp::Sub => 1,
        BinaryOp::Mul => 2,
        BinaryOp::Div => 3,
        BinaryOp::Pow => 4,
    }
}

pub open spec fn unary_code(op: UnaryOp) -> int {
    match op {
        UnaryOp::Negative => 0,
        UnaryOp::Exp => 1,
        UnaryOp::Log => 2,
        UnaryOp::Sin => 3,
        UnaryOp::Cos => 4,
        UnaryOp::Tan => 5,
    }
}

/// The index key of a node: structurally equal nodes have equal keys.
#[verifier::opaque]
pub open spec fn node_key(k: NodeType) -> u64 {
    let m = KEY_MODULUS as int;
    (match k {
        NodeType::Binary(b) => 1 + 8 * binary_code(b.operation) + 64 * (b.left as int % m) + 64 * m * (
        b.right as int % m),
        NodeType::Unary(u) => 2 + 8 * unary_code(u.operation) + 64 * (u.argument as int % m),
        NodeType::Constant(c) => 3 + 8 * ((c.mantissa as u64) as int % m) + 8 * m * (c.scale as int
            % 64),
        NodeType::Variable(v) => 4 + if v.parameter {
            8int
        } else {
            0int
        },
        NodeType::Collection(c) => 5 + 8 * (c.elements_spec().len() as int % m),
    }) as u64
}

proof fn lemma_node_key_same(a: NodeType, b: NodeType)
    requires
        a.same(b),
    ensures
        node_key(a) == node_key(b),
{
    reveal(node_key);
    match (a, b) {
        (NodeType::Collection(x), NodeType::Collection(y)) => {
            assert(x.elements_spec() == y.elements_spec());
        },
        _ => {},
    }
}

/// The index key of a node.
fn key_of(k: &NodeType) -> (r: u64)
    ensures
        r == node_key(*k),
{
    reveal(node_key);
    let m = KEY_MODULUS;
    match k {
        NodeType::Binary(b) => {
            let code: u64 = match b.operation {
                BinaryOp::Add => 0,
                BinaryOp::Sub => 1,
                BinaryOp::Mul => 2,
                BinaryOp::Div => 3,
                BinaryOp::Pow => 4,
            };
            let l = (b.left as u64) % m;
            let r = (b.right as u64) % m;
            proof {
                assert(64 * m * r <= 64 * m * m) by (nonlinear_arith)
                    requires
                        r < m,
                ;
            }
            1 + 8 * code + 64 * l + 64 * m * r
        },
        NodeType::Unary(u) => {
            let code: u64 = match u.operation {
                UnaryOp::Negative => 0,
                UnaryOp::Exp => 1,
                UnaryOp::Log => 2,
                UnaryOp::Sin => 3,
                UnaryOp::Cos => 4,
                UnaryOp::Tan => 5,
            };
            2 + 8 * code + 64 * ((u.argument as u64) % m)
        },
        NodeType::Constant(c) => 3 + 8 * ((c.mantissa as u64) % m) + 8 * m * ((c.scale as u64) % 64),
        NodeType::Variable(v) => if v.parameter {
            12
        } else {
            4
        },
        NodeType::Collection(c) => {
            let n = match c {
                Collection::Array(a) => a.elements.len(),
                Collection::Struct(s) => s.elements.len(),
                Collection::Tuple(t) => t.elements.len(),
            };
            5 + 8 * ((n as u64) % m)
        },
    }
}

/// Whether the handle `i` occurs in `b`.
pub open spec fn lists(b: Seq<usize>, i: int) -> bool {
    exists|p: int| 0 <= p < b.len() && b[p] as int == i
}

/// The content-addressed store of expression nodes. Nodes are referred to
/// by handle, their position in the store.
pub struct Graph {
    nodes: Vec<Node>,
    /// The handles of the nodes, by index key.
    index: HashMapWithView<u64, Vec<usize>>,
}

impl Graph {
    /// The nodes of the store, in order of creation.
    pub closed spec fn store(self) -> Seq<Node> {
        self.nodes@
    }

    pub open spec fn wf(self) -> bool {
        store_wf(self.store()) && self.indexed()
    }

    /// Whether the index lists every node under its key, and only nodes.
    pub closed spec fn indexed(self) -> bool {
        &&& forall|i: int|
            0 <= i < self.nodes@.len() ==> #[trigger] self.index@.contains_key(
                node_key(self.nodes@[i].interior),
            ) && lists(self.index@[node_key(self.nodes@[i].interior)]@, i)
        &&& forall|key: u64, q: int|
            #[trigger] self.index@.contains_key(key) && 0 <= q < self.index@[key]@.len()
                ==> #[trigger] self.index@[key]@[q] < self.nodes@.len()
    }

    /// Whether `h` is a handle of this store.
    pub open spec fn holds(self, h: int) -> bool {
        0 <= h < self.store().len()
    }

    /// The term of handle `h`.
    pub open spec fn term_of(self, h: int) -> Term {
        term(self.store(), h)
    }

    /// Whether `other` keeps every node of `self`, and so every term.
    pub open spec fn extended_by(self, other: Graph) -> bool {
        &&& other.wf()
        &&& self.store().len() <= other.store().len()
        &&& forall|i: int| 0 <= i < self.store().len() ==> other.store()[i] == self.store()[i]
        &&& forall|h: int|
            0 <= h < self.store().len() ==> #[trigger] other.term_of(h) == self.term_of(h)
    }

    /// An empty store.
    pub fn new() -> (r: Graph)
        ensures
            r.wf(),
            r.store().len() == 0,
    {
        Graph { nodes: Vec::new(), index: HashMapWithView::new() }
    }

    /// The number of nodes in the store.
    pub fn len(&self) -> (r: usize)
        ensures
            r == self.store().len(),
    {
        self.nodes.len()
    }

    /// The node at handle `h`.
    pub fn node(&self, h: usize) -> (r: &Node)
        requires
            h < self.store().len(),
        ensures
            *r == self.store()[h as int],
    {
        &self.nodes[h]
    }

    /// The handle of the node structurally equal to `k`, if any.
    fn find(&self, k: &NodeType) -> (r: Option<usize>)
        requires
            self.indexed(),
        ensures
            match r {
                Some(i) => i < self.store().len() && self.store()[i as int].interior.same(*k),
                None => !present(self.store(), *k),
            },
    {
        let key = key_of(k);
        match self.index.get(&key) {
            None => {
                proof {
                    self.lemma_absent_key(*k);
                }
                None
            },
            Some(bucket) => {
                let mut q: usize = 0;
                while q < bucket.len()
                    invariant
                        self.indexed(),
                        key == node_key(*k),
                        self.index@.contains_key(key),
                        *bucket == self.index@[key],
                        q <= bucket@.len(),
                        forall|p: int| 0 <= p < q ==> !(#[trigger] self.nodes@[bucket@[p] as int].interior.same(*k)),
                    decreases bucket@.len() - q,
                {
                    let h = bucket[q];
                    proof {
                        assert(self.index@[key]@[q as int] < self.nodes@.len());
                    }
                    if self.nodes[h].interior.same_as(k) {
                        return Some(h);
                    }
                    q = q + 1;
                }
                proof {
                    self.lemma_absent_bucket(*k);
                }
                None
            },
        }
    }

    proof fn lemma_absent_key(self, k: NodeType)
        requires
            self.indexed(),
            !self.index@.contains_key(node_key(k)),
        ensures
            !present(self.store(), k),
    {
        assert forall|i: int| 0 <= i < self.nodes@.len() implies !(#[trigger] self.nodes@[i].interior.same(k)) by {
            if self.nodes@[i].interior.same(k) {
                lemma_node_key_same(self.nodes@[i].interior, k);
                assert(self.index@.contains_key(node_key(self.nodes@[i].interior)));
            }
        }
    }

    proof fn lemma_absent_bucket(self, k: NodeType)
        requires
            self.indexed(),
            self.index@.contains_key(node_key(k)),
            forall|p: int|
                0 <= p < self.index@[node_key(k)]@.len() ==> !(#[trigger] self.nodes@[self.index@[node_key(k)]@[p] as int].interior.same(k)),
        ensures
            !present(self.store(), k),
    {
        let bucket = self.index@[node_key(k)]@;
        assert forall|i: int| 0 <= i < self.nodes@.len() implies !(#[trigger] self.nodes@[i].interior.same(k)) by {
            if self.nodes@[i].interior.same(k) {
                lemma_node_key_same(self.nodes@[i].interior, k);
                assert(lists(self.index@[node_key(self.nodes@[i].interior)]@, i));
                let p = choose|p: int| 0 <= p < bucket.len() && bucket[p] as int == i;
                assert(!self.nodes@[bucket[p] as int].interior.same(k));
            }
        }
    }

    /// The number of variables of the given role in the store.
    fn count_variables(&self, parameter: bool) -> (r: usize)
        ensures
            r == count_role(self.store(), self.store().len() as int, parameter),
    {
        let mut i: usize = 0;
        let mut n: usize = 0;
        while i < self.nodes.len()
            invariant
                i <= self.nodes@.len(),
                n == count_role(self.nodes@, i as int, parameter),
                n <= i,
            decreases self.nodes@.len() - i,
        {
            let is_match = match &self.nodes[i].interior {
                NodeType::Variable(v) => v.parameter == parameter,
                _ => false,
            };
            if is_match {
                n = n + 1;
            }
            i = i + 1;
        }
        n
    }

    /// Returns the handle of the node structurally equal to `node`, storing
    /// `node` first when there is none.
    pub fn insert(&mut self, node: Node) -> (r: usize)
        requires
            old(self).wf(),
            node_fits(old(self).store(), node, old(self).store().len() as int),
        ensures
            insert_post(old(self).store(), final(self).store(), node, r as int),
            old(self).extended_by(*final(self)),
            final(self).term_of(r as int) == node_term(
                old(self).store(),
                node.interior,
                old(self).store().len() as int,
            ),
    {
        let ghost s = self.nodes@;
        match self.find(&node.interior) {
            Some(i) => {
                proof {
                    lemma_term_same_content(s, i as int, node.interior);
                    lemma_extends_refl(*self);
                }
                i
            },
            None => {
                let n = self.nodes.len();
                let Node { interior, parameters, data, cost } = node;
                let interior = match interior {
                    NodeType::Variable(v) => {
                        let index = self.count_variables(v.parameter);
                        NodeType::Variable(Variable { name: v.name, parameter: v.parameter, index })
                    },
                    other => other,
                };
                let new_node = Node { interior, parameters, data, cost };
                assert(new_node == stored(s, node));
                let key = key_of(&new_node.interior);
                assert(!present(s, new_node.interior)) by {
                    assert forall|j: int| 0 <= j < s.len() implies !(
                    #[trigger] s[j].interior.same(new_node.interior)) by {
                        assert(!s[j].interior.same(node.interior));
                    }
                }
                let ghost index0 = self.index@;
                self.nodes.push(new_node);
                let bucket = match self.index.remove(&key) {
                    Some(mut v) => {
                        let ghost v0 = v@;
                        v.push(n);
                        proof {
                            assert(v@[v0.len() as int] == n);
                            assert forall|i: int| lists(v0, i) implies lists(v@, i) by {
                                let p = choose|p: int| 0 <= p < v0.len() && v0[p] as int == i;
                                assert(v@[p] as int == i);
                            }
                        }
                        v
                    },
                    None => {
                        let mut v: Vec<usize> = Vec::new();
                        v.push(n);
                        proof {
                            assert(v@[0] == n);
                        }
                        v
                    },
                };
                proof {
                    assert(lists(bucket@, n as int));
                    assert(forall|q: int| 0 <= q < bucket@.len() ==> bucket@[q] <= n);
                    assert(index0.contains_key(key) ==> (forall|i: int| lists(index0[key]@, i) ==> lists(bucket@, i)));
                }
                self.index.insert(key, bucket);
                proof {
                    let t = self.nodes@;
                    assert forall|i: int| 0 <= i < t.len() implies #[trigger] self.index@.contains_key(
                        node_key(t[i].interior),
                    ) && lists(self.index@[node_key(t[i].interior)]@, i) by {
                        if i < n {
                            assert(t[i] == s[i]);
                            assert(index0.contains_key(node_key(s[i].interior)));
                            assert(lists(index0[node_key(s[i].interior)]@, i));
                        }
                    }
                    assert forall|k2: u64, q: int|
                        #[trigger] self.index@.contains_key(k2) && 0 <= q < self.index@[k2]@.len()
                        implies #[trigger] self.index@[k2]@[q] < t.len() by {
                        if k2 != key {
                            assert(index0.contains_key(k2));
                            assert(self.index@[k2] == index0[k2]);
                        }
                    }
                    assert(self.indexed());
                    lemma_push_wf(s, new_node);
                    lemma_prefix_terms(s, self.nodes@);
                    lemma_node_term_prefix(s, self.nodes@, node.interior, n as int);
                    assert(new_node.interior.same(node.interior));
                    lemma_node_term_same(self.nodes@, new_node.interior, node.interior, n as int);
                }
                n
            },
        }
    }
}

impl Node {
    /// A node for `interior`, with the facts derived from its children in `graph`.
    pub fn new(graph: &Graph, interior: NodeType) -> (r: Node)
        requires
            graph.wf(),
            interior.wf(),
            children_below(interior, graph.store().len() as int),
        ensures
            r.interior == interior,
            node_fits(graph.store(), r, graph.store().len() as int),
    {
        let (parameters, data, cost) = match &interior {
            NodeType::Binary(b) => {
                assert(interior.children()[0] == b.left && interior.children()[1] == b.right);
                let l = graph.node(b.left);
                let r = graph.node(b.right);
                (
                    l.parameters || r.parameters,
                    l.data || r.data,
                    l.cost.saturating_add(r.cost).saturating_add(b.operation.cost()),
                )
            },
            NodeType::Unary(u) => {
                assert(interior.children()[0] == u.argument);
                let a = graph.node(u.argument);
                (a.parameters, a.data, a.cost.saturating_add(u.operation.cost()))
            },
            NodeType::Variable(v) => (v.parameter, !v.parameter, 1),
            NodeType::Constant(_) => (false, false, 1),
            NodeType::Collection(_) => (false, false, 0),
        };
        Node { interior, parameters, data, cost }
    }
}

/// Two structurally equal nodes with children below `bound` have one term.
proof fn lemma_node_term_same(s: Seq<Node>, a: NodeType, b: NodeType, bound: int)
    requires
        a.same(b),
    ensures
        node_term(s, a, bound) == node_term(s, b, bound),
{
    match (a, b) {
        (NodeType::Collection(Collection::Array(x)), NodeType::Collection(Collection::Array(y))) => {
            assert(x.elements@ == y.elements@);
        },
        (NodeType::Collection(Collection::Tuple(x)), NodeType::Collection(Collection::Tuple(y))) => {
            assert(x.elements@ == y.elements@);
        },
        _ => {},
    }
}

/// The terms of handles that lie below both bounds do not depend on the bound.
pub proof fn lemma_terms_index(s: Seq<Node>, hs: Seq<usize>, bound: int)
    ensures
        terms(s, hs, bound).len() == hs.len(),
        forall|k: int|
            0 <= k < hs.len() && hs[k] < bound ==> #[trigger] terms(s, hs, bound)[k] == term(
                s,
                hs[k] as int,
            ),
    decreases hs.len(),
{
    if hs.len() > 0 {
        lemma_terms_index(s, hs.drop_last(), bound);
    }
}

/// In a well-formed store the term of node `i` is that of its content, for
/// any bound above its children.
pub proof fn lemma_term_unfold(s: Seq<Node>, i: int, bound: int)
    requires
        store_wf(s),
        0 <= i < s.len(),
        i <= bound,
    ensures
        term(s, i) == node_term(s, s[i].interior, bound),
{
    let k = s[i].interior;
    assert(node_fits(s, s[i], i));
    match k {
        NodeType::Unary(u) => {
            assert(k.children()[0] == u.argument);
        },
        NodeType::Binary(b) => {
            assert(k.children()[0] == b.left);
            assert(k.children()[1] == b.right);
        },
        NodeType::Collection(c) => {
            let hs = c.elements_spec();
            lemma_terms_index(s, hs, i);
            lemma_terms_index(s, hs, bound);
            assert forall|j: int| 0 <= j < hs.len() implies hs[j] < i by {
                assert(k.children()[j] == hs[j]);
            }
            assert(terms(s, hs, i) =~= terms(s, hs, bound));
        },
        _ => {},
    }
}

/// A node equal in content to node `i` has the same term as node `i`.
proof fn lemma_term_same_content(s: Seq<Node>, i: int, k: NodeType)
    requires
        store_wf(s),
        0 <= i < s.len(),
        s[i].interior.same(k),
    ensures
        term(s, i) == node_term(s, k, s.len() as int),
{
    lemma_term_unfold(s, i, s.len() as int);
    lemma_node_term_same(s, s[i].interior, k, s.len() as int);
}

pub proof fn lemma_extends_refl(g: Graph)
    requires
        g.wf(),
    ensures
        g.extended_by(g),
{
}

/// The term of a node depends only on the nodes up to it.
pub proof fn lemma_term_prefix(s: Seq<Node>, t: Seq<Node>, h: int)
    requires
        store_wf(s),
        s.len() <= t.len(),
        forall|i: int| 0 <= i < s.len() ==> t[i] == s[i],
        0 <= h < s.len(),
    ensures
        term(t, h) == term(s, h),
    decreases h,
{
    let k = s[h].interior;
    assert(node_fits(s, s[h], h));
    assert(t[h] == s[h]);
    match k {
        NodeType::Unary(u) => {
            assert(k.children()[0] == u.argument);
            lemma_term_prefix(s, t, u.argument as int);
        },
        NodeType::Binary(b) => {
            assert(k.children()[0] == b.left);
            assert(k.children()[1] == b.right);
            lemma_term_prefix(s, t, b.left as int);
            lemma_term_prefix(s, t, b.right as int);
        },
        NodeType::Collection(c) => {
            let hs = c.elements_spec();
            lemma_terms_index(s, hs, h);
            lemma_terms_index(t, hs, h);
            assert forall|j: int| 0 <= j < hs.len() implies terms(t, hs, h)[j] == terms(
                s,
                hs,
                h,
            )[j] by {
                assert(k.children()[j] == hs[j]);
                lemma_term_prefix(s, t, hs[j] as int);
            }
            assert(terms(t, hs, h) =~= terms(s, hs, h));
        },
        _ => {},
    }
}

proof fn lemma_prefix_terms(s: Seq<Node>, t: Seq<Node>)
    requires
        store_wf(s),
        s.len() <= t.len(),
        forall|i: int| 0 <= i < s.len() ==> t[i] == s[i],
    ensures
        forall|h: int| 0 <= h < s.len() ==> #[trigger] term(t, h) == term(s, h),
{
    assert forall|h: int| 0 <= h < s.len() implies #[trigger] term(t, h) == term(s, h) by {
        lemma_term_prefix(s, t, h);
    }
}

/// The term of a content whose children lie in a prefix is the same over the prefix.
proof fn lemma_node_term_prefix(s: Seq<Node>, t: Seq<Node>, k: NodeType, bound: int)
    requires
        store_wf(s),
        s.len() <= t.len(),
        forall|i: int| 0 <= i < s.len() ==> t[i] == s[i],
        bound == s.len(),
        children_below(k, bound),
    ensures
        node_term(t, k, bound) == node_term(s, k, bound),
{
    lemma_prefix_terms(s, t);
    match k {
        NodeType::Unary(u) => {
            assert(k.children()[0] == u.argument);
            assert(term(t, u.argument as int) == term(s, u.argument as int));
        },
        NodeType::Binary(b) => {
            assert(k.children()[0] == b.left);
            assert(k.children()[1] == b.right);
            assert(term(t, b.left as int) == term(s, b.left as int));
            assert(term(t, b.right as int) == term(s, b.right as int));
        },
        NodeType::Collection(c) => {
            let hs = c.elements_spec();
            lemma_terms_index(s, hs, bound);
            lemma_terms_index(t, hs, bound);
            assert forall|j: int| 0 <= j < hs.len() implies terms(t, hs, bound)[j] == terms(
                s,
                hs,
                bound,
            )[j] by {
                assert(k.children()[j] == hs[j]);
            }
            assert(terms(t, hs, bound) =~= terms(s, hs, bound));
        },
        _ => {},
    }
}

proof fn lemma_count_prefix(s: Seq<Node>, t: Seq<Node>, n: int, parameter: bool)
    requires
        0 <= n <= s.len(),
        n <= t.len(),
        forall|i: int| 0 <= i < n ==> t[i] == s[i],
    ensures
        count_role(t, n, parameter) == count_role(s, n, parameter),
    decreases n,
{
    if n > 0 {
        lemma_count_prefix(s, t, n - 1, parameter);
    }
}

/// Appending a fitting node that is not yet present keeps the store well formed.
proof fn lemma_push_wf(s: Seq<Node>, n: Node)
    requires
        store_wf(s),
        node_fits(s, n, s.len() as int),
        !present(s, n.interior),
        n.interior is Variable ==> n.interior->Variable_0.index == count_role(
            s,
            s.len() as int,
            n.interior->Variable_0.parameter,
        ),
    ensures
        store_wf(s.push(n)),
{
    let t = s.push(n);
    assert forall|i: int| 0 <= i < t.len() implies node_fits(t, #[trigger] t[i], i) by {
        if i < s.len() {
            assert(node_fits(s, s[i], i));
            let k = s[i].interior;
            match k {
                NodeType::Unary(u) => {
                    assert(k.children()[0] == u.argument);
                },
                NodeType::Binary(b) => {
                    assert(k.children()[0] == b.left);
                    assert(k.children()[1] == b.right);
                },
                _ => {},
            }
        } else {
            let k = n.interior;
            match k {
                NodeType::Unary(u) => {
                    assert(k.children()[0] == u.argument);
                },
                NodeType::Binary(b) => {
                    assert(k.children()[0] == b.left);
                    assert(k.children()[1] == b.right);
                },
                _ => {},
            }
        }
    }
    assert forall|i: int| 0 <= i < t.len() implies #[trigger] index_ok(t, i) by {
        if i < s.len() {
            assert(index_ok(s, i));
            if s[i].interior is Variable {
                lemma_count_prefix(s, t, i, s[i].interior->Variable_0.parameter);
            }
        } else {
            if n.interior is Variable {
                lemma_count_prefix(s, t, i, n.interior->Variable_0.parameter);
            }
        }
    }
    assert forall|i: int, j: int| 0 <= i < j < t.len() implies !(#[trigger] t[i].interior.same(
        #[trigger] t[j].interior,
    )) by {
        if j == s.len() {
            if t[i].interior.same(n.interior) {
                assert(s[i].interior.same(n.interior));
            }
        }
    }
}

/// In a well-formed store, distinct handles have distinct terms.
pub proof fn lemma_term_injective(s: Seq<Node>, i: int, j: int)
    requires
        store_wf(s),
        0 <= i < s.len(),
        0 <= j < s.len(),
        term(s, i) == term(s, j),
    ensures
        i == j,
    decreases i + j,
{
    let a = s[i].interior;
    let b = s[j].interior;
    assert(node_fits(s, s[i], i));
    assert(node_fits(s, s[j], j));
    assert(term(s, i) == node_term(s, a, i));
    assert(term(s, j) == node_term(s, b, j));
    match (a, b) {
        (NodeType::Unary(x), NodeType::Unary(y)) => {
            assert(a.children()[0] == x.argument);
            assert(b.children()[0] == y.argument);
            lemma_term_injective(s, x.argument as int, y.argument as int);
            assert(a.same(b));
        },
        (NodeType::Binary(x), NodeType::Binary(y)) => {
            assert(a.children()[0] == x.left);
            assert(a.children()[1] == x.right);
            assert(b.children()[0] == y.left);
            assert(b.children()[1] == y.right);
            lemma_term_injective(s, x.left as int, y.left as int);
            lemma_term_injective(s, x.right as int, y.right as int);
            assert(a.same(b));
        },
        (NodeType::Collection(x), NodeType::Collection(y)) => {
            let hx = x.elements_spec();
            let hy = y.elements_spec();
            lemma_terms_index(s, hx, i);
            lemma_terms_index(s, hy, j);
            let tx = terms(s, hx, i);
            let ty = terms(s, hy, j);
            match (x, y) {
                (Collection::Array(_), Collection::Array(_)) => {
                    assert(tx == ty);
                },
                (Collection::Tuple(_), Collection::Tuple(_)) => {
                    assert(tx == ty);
                },
                (Collection::Struct(_), Collection::Struct(_)) => {
                    assert(tx == ty);
                },
                _ => {
                    assert(false);
                },
            }
            assert forall|k: int| 0 <= k < hx.len() implies hx[k] == hy[k] by {
                assert(a.children()[k] == hx[k]);
                assert(b.children()[k] == hy[k]);
                assert(tx[k] == ty[k]);
                lemma_term_injective(s, hx[k] as int, hy[k] as int);
            }
            assert(hx =~= hy);
            match (x, y) {
                (Collection::Struct(p), Collection::Struct(q)) => {
                    assert(term(s, i) == Term::Struct(p.name@, names_view(p.name_order@), tx));
                    assert(term(s, j) == Term::Struct(q.name@, names_view(q.name_order@), ty));
                    assert(p.elements@ == q.elements@);
                },
                (Collection::Array(p), Collection::Array(q)) => {
                    assert(p.elements@ == q.elements@);
                },
                (Collection::Tuple(p), Collection::Tuple(q)) => {
                    assert(p.elements@ == q.elements@);
                },
                _ => {},
            }
            assert(a.same(b));
        },
        _ => {
            match a {
                NodeType::Unary(x) => {
                    assert(a.children()[0] == x.argument);
                },
                NodeType::Binary(x) => {
                    assert(a.children()[0] == x.left);
                    assert(a.children()[1] == x.right);
                },
                _ => {},
            }
            match b {
                NodeType::Unary(y) => {
                    assert(b.children()[0] == y.argument);
                },
                NodeType::Binary(y) => {
                    assert(b.children()[0] == y.left);
                    assert(b.children()[1] == y.right);
                },
                _ => {},
            }
            assert(a.same(b));
        },
    }
    if i != j {
        if i < j {
            assert(!s[i].interior.same(s[j].interior));
        } else {
            assert(!s[j].interior.same(s[i].interior));
            assert(b.same(a));
        }
    }
}

} // verus!

verus! {

pub proof fn lemma_extends_trans(a: Graph, b: Graph, c: Graph)
    requires
        a.extended_by(b),
        b.extended_by(c),
    ensures
        a.extended_by(c),
{
    assert forall|h: int| 0 <= h < a.store().len() implies #[trigger] c.term_of(h) == a.term_of(h) by {
        assert(c.term_of(h) == b.term_of(h));
    }
}

} // verus!

verus! {

/// Hash-consing: in a well-formed store, two handles whose expression trees
/// are structurally identical are the same handle.
pub proof fn lemma_equal_terms_same_handle(g: Graph, a: int, b: int)
    requires
        g.wf(),
        g.holds(a),
        g.holds(b),
        g.term_of(a) == g.term_of(b),
    ensures
        a == b,
{
    lemma_term_injective(g.store(), a, b);
}

} // verus!
