use vstd::prelude::*;

use crate::graph::{Graph, node_fits};
use crate::node::{Collection, NodeType};

verus! {

/// Whether node `p` of `g` refers to `c`.
pub open spec fn child_of(g: Graph, p: int, c: usize) -> bool {
    0 <= p < g.store().len() && g.store()[p].interior.children().contains(c)
}

/// Whether every node of `order` comes after all of its children.
pub open spec fn children_first(g: Graph, order: Seq<usize>) -> bool {
    forall|k: int, c: int|
        0 <= k < order.len() && 0 <= c < g.store()[order[k] as int].interior.children().len()
            ==> order.take(k).contains(#[trigger] g.store()[order[k] as int].interior.children()[c])
}

/// Whether the node at position `k` of `order` is a root, or a child of a
/// node listed after it.
pub open spec fn rooted(g: Graph, roots: Seq<usize>, order: Seq<usize>, k: int) -> bool {
    ||| roots.contains(order[k])
    ||| exists|k2: int| k < k2 < order.len() && #[trigger] child_of(g, order[k2] as int, order[k])
}

/// Whether `order` lists every node reachable from `roots`, each exactly
/// once and after all of its children, and nothing else.
pub open spec fn is_schedule(g: Graph, roots: Seq<usize>, order: Seq<usize>) -> bool {
    &&& order.no_duplicates()
    &&& forall|k: int| 0 <= k < order.len() ==> #[trigger] order[k] < g.store().len()
    &&& forall|i: int| 0 <= i < roots.len() ==> order.contains(#[trigger] roots[i])
    &&& children_first(g, order)
    &&& forall|k: int| 0 <= k < order.len() ==> #[trigger] rooted(g, roots, order, k)
}

/// `order` while a depth-first visit is under way: the nodes on `stack`
/// are being visited and are not yet listed.
spec fn partial(g: Graph, roots: Seq<usize>, stack: Set<int>, order: Seq<usize>) -> bool {
    &&& order.no_duplicates()
    &&& forall|k: int| 0 <= k < order.len() ==> #[trigger] order[k] < g.store().len()
    &&& forall|k: int| 0 <= k < order.len() ==> !stack.contains(#[trigger] order[k] as int)
    &&& children_first(g, order)
    &&& forall|k: int|
        0 <= k < order.len() ==> #[trigger] rooted(g, roots, order, k) || exists|p: int|
            stack.contains(p) && child_of(g, p, order[k])
}

/// Whether `visited` marks exactly the listed nodes and those on `stack`.
spec fn marks(g: Graph, visited: Seq<bool>, order: Seq<usize>, stack: Set<int>) -> bool {
    &&& visited.len() == g.store().len()
    &&& forall|x: usize|
        (x as int) < visited.len() ==> (#[trigger] visited[x as int] <==> (order.contains(x)
            || stack.contains(x as int)))
}

/// The list after a depth-first visit of `h` that starts from the listed
/// nodes `done`: unless `h` is listed already, its children are visited in
/// order, then `h` is listed.
pub open spec fn visit_spec(g: Graph, h: int, done: Seq<usize>) -> Seq<usize>
    decreases h, 1int, 0int,
{
    if 0 <= h < g.store().len() && !done.contains(h as usize) {
        visit_children(g, h, g.store()[h].interior.children().len() as int, done).push(h as usize)
    } else {
        done
    }
}

/// The list after visiting the first `n` children of `h`, from `done`.
pub open spec fn visit_children(g: Graph, h: int, n: int, done: Seq<usize>) -> Seq<usize>
    decreases h, 0int, n,
{
    if n <= 0 || h < 0 || h >= g.store().len() || n > g.store()[h].interior.children().len() {
        done
    } else {
        let c = g.store()[h].interior.children()[n - 1];
        let d = visit_children(g, h, n - 1, done);
        if c < h {
            visit_spec(g, c as int, d)
        } else {
            d
        }
    }
}

/// The list after visiting the first `n` roots in order, sharing what is listed.
pub open spec fn visit_roots(g: Graph, roots: Seq<usize>, n: int) -> Seq<usize>
    decreases n,
{
    if n <= 0 || n > roots.len() {
        Seq::empty()
    } else {
        visit_spec(g, roots[n - 1] as int, visit_roots(g, roots, n - 1))
    }
}

spec fn extends(a: Seq<usize>, b: Seq<usize>) -> bool {
    a.len() <= b.len() && forall|i: int| 0 <= i < a.len() ==> b[i] == a[i]
}

impl Graph {
    /// The handles node `h` refers to.
    pub fn children_of(&self, h: usize) -> (r: Vec<usize>)
        requires
            self.holds(h as int),
        ensures
            r@ == self.store()[h as int].interior.children(),
    {
        match &self.node(h).interior {
            NodeType::Binary(b) => {
                let r = vec![b.left, b.right];
                assert(r@ =~= seq![b.left, b.right]);
                r
            },
            NodeType::Unary(u) => {
                let r = vec![u.argument];
                assert(r@ =~= seq![u.argument]);
                r
            },
            NodeType::Collection(c) => {
                let e = match c {
                    Collection::Array(a) => &a.elements,
                    Collection::Struct(s) => &s.elements,
                    Collection::Tuple(t) => &t.elements,
                };
                let mut r: Vec<usize> = Vec::new();
                let mut i: usize = 0;
                while i < e.len()
                    invariant
                        i <= e@.len(),
                        r@ =~= e@.take(i as int),
                    decreases e@.len() - i,
                {
                    r.push(e[i]);
                    i = i + 1;
                    assert(r@ =~= e@.take(i as int));
                }
                assert(e@.take(e@.len() as int) =~= e@);
                r
            },
            _ => Vec::new(),
        }
    }

    /// Lists node `h` and what it reaches that is not yet listed, children first.
    fn visit(
        &self,
        h: usize,
        visited: &mut Vec<bool>,
        order: &mut Vec<usize>,
        Ghost(roots): Ghost<Seq<usize>>,
        Ghost(stack): Ghost<Set<int>>,
    )
        requires
            self.wf(),
            self.holds(h as int),
            marks(*self, old(visited)@, old(order)@, stack),
            partial(*self, roots, stack, old(order)@),
            forall|x: int| #[trigger] stack.contains(x) ==> h < x < self.store().len(),
            roots.contains(h) || exists|p: int| stack.contains(p) && child_of(*self, p, h),
        ensures
            marks(*self, final(visited)@, final(order)@, stack),
            partial(*self, roots, stack, final(order)@),
            final(order)@.contains(h),
            extends(old(order)@, final(order)@),
            final(order)@ == visit_spec(*self, h as int, old(order)@),
        decreases h,
    {
        if visited[h] {
            proof {
                if !stack.contains(h as int) {
                    assert(old(order)@.contains(h));
                }
            }
            return;
        }
        let ghost o0 = order@;
        visited.set(h, true);
        let ghost inner = stack.insert(h as int);
        let children = self.children_of(h);
        proof {
            assert(node_fits(self.store(), self.store()[h as int], h as int));
            assert forall|x: usize| (x as int) < visited@.len() implies (#[trigger] visited@[x as int]
                <==> (order@.contains(x) || inner.contains(x as int))) by {
                if x == h {
                } else {
                    assert(old(visited)@[x as int] == visited@[x as int]);
                }
            }
            assert forall|k: int| 0 <= k < order@.len() implies #[trigger] rooted(
                *self,
                roots,
                order@,
                k,
            ) || exists|p: int| inner.contains(p) && child_of(*self, p, order@[k]) by {
                if !rooted(*self, roots, order@, k) {
                    let p = choose|p: int| stack.contains(p) && child_of(*self, p, order@[k]);
                    assert(inner.contains(p));
                }
            }
            assert(!order@.contains(h));
        }
        let mut i: usize = 0;
        while i < children.len()
            invariant
                self.wf(),
                self.holds(h as int),
                children@ == self.store()[h as int].interior.children(),
                inner == stack.insert(h as int),
                forall|x: int| #[trigger] stack.contains(x) ==> h < x < self.store().len(),
                forall|c: int| 0 <= c < children@.len() ==> #[trigger] children@[c] < h,
                i <= children@.len(),
                marks(*self, visited@, order@, inner),
                partial(*self, roots, inner, order@),
                extends(o0, order@),
                forall|c: int| 0 <= c < i ==> order@.contains(#[trigger] children@[c]),
                order@ == visit_children(*self, h as int, i as int, o0),
            decreases children@.len() - i,
        {
            let c = children[i];
            proof {
                assert(children@.contains(c));
                assert(child_of(*self, h as int, c));
                assert(inner.contains(h as int));
                assert forall|x: int| #[trigger] inner.contains(x) implies c < x < self.store().len() by {
                    if x != h {
                        assert(stack.contains(x));
                    }
                }
            }
            let ghost before = order@;
            self.visit(c, visited, order, Ghost(roots), Ghost(inner));
            proof {
                assert(self.store()[h as int].interior.children()[i as int] == c);
                assert forall|d: int| 0 <= d < i + 1 implies order@.contains(#[trigger] children@[d]) by {
                    if d < i {
                        let w = choose|w: int| 0 <= w < before.len() && before[w] == children@[d];
                        assert(order@[w] == children@[d]);
                    }
                }
            }
            i = i + 1;
        }
        let ghost o1 = order@;
        proof {
            assert forall|c: int| 0 <= c < self.store()[h as int].interior.children().len() implies o1.contains(
                #[trigger] self.store()[h as int].interior.children()[c],
            ) by {
                assert(children@[c] == self.store()[h as int].interior.children()[c]);
            }
            assert(!o1.contains(h)) by {
                if o1.contains(h) {
                    let w = choose|w: int| 0 <= w < o1.len() && o1[w] == h;
                    assert(!inner.contains(o1[w] as int));
                }
            }
        }
        order.push(h);
        proof {
            assert(!stack.contains(h as int));
            lemma_finish_visit(*self, roots, stack, h, o1, visited@);
            assert(order@[o1.len() as int] == h);
        }
    }

    /// Every node reachable from `roots`, each once, children before
    /// parents. Roots are taken in the given order, and a node reached from
    /// several roots is listed once, where it is first reached.
    pub fn order(&self, roots: &Vec<usize>) -> (r: Vec<usize>)
        requires
            self.wf(),
            forall|i: int| 0 <= i < roots@.len() ==> self.holds(#[trigger] roots@[i] as int),
        ensures
            is_schedule(*self, roots@, r@),
            r@ == visit_roots(*self, roots@, roots@.len() as int),
    {
        let n = self.len();
        let mut visited: Vec<bool> = Vec::new();
        let mut j: usize = 0;
        while j < n
            invariant
                j <= n,
                n == self.store().len(),
                visited@.len() == j,
                forall|x: int| 0 <= x < j ==> !(#[trigger] visited@[x]),
            decreases n - j,
        {
            visited.push(false);
            j = j + 1;
        }
        let mut order: Vec<usize> = Vec::new();
        let ghost empty = Set::<int>::empty();
        let mut i: usize = 0;
        while i < roots.len()
            invariant
                self.wf(),
                forall|i: int| 0 <= i < roots@.len() ==> self.holds(#[trigger] roots@[i] as int),
                i <= roots@.len(),
                empty == Set::<int>::empty(),
                marks(*self, visited@, order@, empty),
                partial(*self, roots@, empty, order@),
                forall|q: int| 0 <= q < i ==> order@.contains(#[trigger] roots@[q]),
                order@ == visit_roots(*self, roots@, i as int),
            decreases roots@.len() - i,
        {
            let ghost before = order@;
            proof {
                assert(roots@.contains(roots@[i as int]));
                assert forall|x: int| !(#[trigger] empty.contains(x)) by {
                    vstd::set::axiom_set_empty::<int>(x);
                }
            }
            self.visit(roots[i], &mut visited, &mut order, Ghost(roots@), Ghost(empty));
            proof {
                assert forall|q: int| 0 <= q < i + 1 implies order@.contains(#[trigger] roots@[q]) by {
                    if q < i {
                        let w = choose|w: int| 0 <= w < before.len() && before[w] == roots@[q];
                        assert(order@[w] == roots@[q]);
                    }
                }
            }
            i = i + 1;
        }
        order
    }
}


/// Listing `h` once its children are listed ends its visit.
proof fn lemma_finish_visit(
    g: Graph,
    roots: Seq<usize>,
    stack: Set<int>,
    h: usize,
    o1: Seq<usize>,
    visited: Seq<bool>,
)
    requires
        g.wf(),
        g.holds(h as int),
        !stack.contains(h as int),
        marks(g, visited, o1, stack.insert(h as int)),
        partial(g, roots, stack.insert(h as int), o1),
        forall|c: int|
            0 <= c < g.store()[h as int].interior.children().len() ==> o1.contains(
                #[trigger] g.store()[h as int].interior.children()[c],
            ),
        !o1.contains(h),
        roots.contains(h) || exists|p: int| stack.contains(p) && child_of(g, p, h),
    ensures
        marks(g, visited, o1.push(h), stack),
        partial(g, roots, stack, o1.push(h)),
{
    let inner = stack.insert(h as int);
    let o2 = o1.push(h);
    let n = o1.len() as int;
    assert(o2[n] == h);
    assert forall|k: int| 0 <= k < o2.len() implies !stack.contains(#[trigger] o2[k] as int) by {
        if k < n {
            assert(o2[k] == o1[k]);
            assert(!inner.contains(o1[k] as int));
        }
    }
    assert forall|k: int| 0 <= k < o2.len() implies #[trigger] o2[k] < g.store().len() by {
        if k < n {
            assert(o2[k] == o1[k]);
        }
    }
    lemma_push_no_duplicates(o1, h);
    lemma_push_children_first(g, o1, h);
    lemma_push_rooted(g, roots, stack, h, o1);
    lemma_push_marks(g, visited, o1, stack, h);
}

proof fn lemma_push_no_duplicates(o1: Seq<usize>, h: usize)
    requires
        o1.no_duplicates(),
        !o1.contains(h),
    ensures
        o1.push(h).no_duplicates(),
{
    let o2 = o1.push(h);
    let n = o1.len() as int;
    assert forall|a: int, b: int| 0 <= a < o2.len() && 0 <= b < o2.len() && a != b implies o2[a]
        != o2[b] by {
        if a == n {
            if o1[b] == h {
                assert(o1.contains(h));
            }
        } else if b == n {
            if o1[a] == h {
                assert(o1.contains(h));
            }
        }
    }
}

proof fn lemma_push_children_first(g: Graph, o1: Seq<usize>, h: usize)
    requires
        children_first(g, o1),
        forall|c: int|
            0 <= c < g.store()[h as int].interior.children().len() ==> o1.contains(
                #[trigger] g.store()[h as int].interior.children()[c],
            ),
    ensures
        children_first(g, o1.push(h)),
{
    let o2 = o1.push(h);
    let n = o1.len() as int;
    assert forall|k: int, c: int|
        0 <= k < o2.len() && 0 <= c < g.store()[o2[k] as int].interior.children().len()
        implies o2.take(k).contains(#[trigger] g.store()[o2[k] as int].interior.children()[c]) by {
        let ch = g.store()[o2[k] as int].interior.children()[c];
        if k == n {
            assert(o1.contains(ch));
            let w = choose|w: int| 0 <= w < o1.len() && o1[w] == ch;
            assert(o2.take(k)[w] == ch);
        } else {
            assert(o2[k] == o1[k]);
            assert(o1.take(k).contains(ch));
            let w = choose|w: int| 0 <= w < o1.take(k).len() && o1.take(k)[w] == ch;
            assert(o2.take(k)[w] == ch);
        }
    }
}

proof fn lemma_push_rooted(g: Graph, roots: Seq<usize>, stack: Set<int>, h: usize, o1: Seq<usize>)
    requires
        forall|k: int|
            0 <= k < o1.len() ==> #[trigger] rooted(g, roots, o1, k) || exists|p: int|
                stack.insert(h as int).contains(p) && child_of(g, p, o1[k]),
        roots.contains(h) || exists|p: int| stack.contains(p) && child_of(g, p, h),
    ensures
        forall|k: int|
            0 <= k < o1.push(h).len() ==> #[trigger] rooted(g, roots, o1.push(h), k) || exists|p: int|
                stack.contains(p) && child_of(g, p, o1.push(h)[k]),
{
    let inner = stack.insert(h as int);
    let o2 = o1.push(h);
    let n = o1.len() as int;
    assert forall|k: int| 0 <= k < o2.len() implies #[trigger] rooted(g, roots, o2, k) || exists|
        p: int,
    | stack.contains(p) && child_of(g, p, o2[k]) by {
        if k == n {
            assert(o2[k] == h);
            if !roots.contains(h) {
                let p = choose|p: int| stack.contains(p) && child_of(g, p, h);
                assert(stack.contains(p) && child_of(g, p, o2[k]));
            }
        } else {
            assert(o2[k] == o1[k]);
            assert(rooted(g, roots, o1, k) || exists|p: int|
                inner.contains(p) && child_of(g, p, o1[k]));
            if roots.contains(o1[k]) {
            } else if exists|k2: int| k < k2 < o1.len() && #[trigger] child_of(g, o1[k2] as int, o1[k]) {
                let k2 = choose|k2: int| k < k2 < o1.len() && #[trigger] child_of(g, o1[k2] as int, o1[k]);
                assert(o2[k2] == o1[k2]);
                assert(child_of(g, o2[k2] as int, o2[k]));
                assert(rooted(g, roots, o2, k));
            } else {
                let p = choose|p: int| inner.contains(p) && child_of(g, p, o1[k]);
                if p == h {
                    assert(o2[n] == h);
                    assert(child_of(g, o2[n] as int, o2[k]));
                    assert(rooted(g, roots, o2, k));
                } else {
                    assert(stack.contains(p));
                }
            }
        }
    }
}

proof fn lemma_push_marks(g: Graph, visited: Seq<bool>, o1: Seq<usize>, stack: Set<int>, h: usize)
    requires
        marks(g, visited, o1, stack.insert(h as int)),
        !stack.contains(h as int),
    ensures
        marks(g, visited, o1.push(h), stack),
{
    let o2 = o1.push(h);
    let n = o1.len() as int;
    assert forall|x: usize| (x as int) < visited.len() implies (#[trigger] visited[x as int] <==> (
    o2.contains(x) || stack.contains(x as int))) by {
        if o1.contains(x) {
            let w = choose|w: int| 0 <= w < o1.len() && o1[w] == x;
            assert(o2[w] == x);
        }
        if o2.contains(x) && x != h {
            let w = choose|w: int| 0 <= w < o2.len() && o2[w] == x;
            assert(o2[n] == h);
            assert(w < n);
            assert(o1.contains(x));
        }
        if x == h {
            assert(o2[n] == h);
            assert(o2.contains(h));
        }
    }
}

} // verus!
