use vstd::prelude::*;

use crate::constant::Constant;

verus! {

/// The binary operators of an expression.
#[derive(Clone, Copy, Debug, PartialEq, Eq, Structural, Hash)]
pub enum BinaryOp {
    Add,
    Sub,
    Mul,
    Div,
    Pow,
}

impl BinaryOp {
    pub open spec fn cost_spec(self) -> usize {
        match self {
            BinaryOp::Add => 3,
            BinaryOp::Sub => 3,
            BinaryOp::Mul => 5,
            BinaryOp::Div => 20,
            BinaryOp::Pow => 100,
        }
    }

    /// The estimated cost of evaluating the operator.
    pub fn cost(&self) -> (r: usize)
        ensures
            r == self.cost_spec(),
    {
        match self {
            BinaryOp::Add => 3,
            BinaryOp::Sub => 3,
            BinaryOp::Mul => 5,
            BinaryOp::Div => 20,
            BinaryOp::Pow => 100,
        }
    }
}

/// The unary operators of an expression.
#[derive(Clone, Copy, Debug, PartialEq, Eq, Structural, Hash)]
pub enum UnaryOp {
    Negative,
    Exp,
    Log,
    Sin,
    Cos,
    Tan,
}

impl UnaryOp {
    pub open spec fn cost_spec(self) -> usize {
        match self {
            UnaryOp::Negative => 3,
            _ => 100,
        }
    }

    /// The estimated cost of evaluating the operator.
    pub fn cost(&self) -> (r: usize)
        ensures
            r == self.cost_spec(),
    {
        match self {
            UnaryOp::Negative => 3,
            UnaryOp::Sin => 100,
            UnaryOp::Cos => 100,
            UnaryOp::Tan => 100,
            UnaryOp::Exp => 100,
            UnaryOp::Log => 100,
        }
    }
}

/// A named input: a parameter (differentiable) or a data value.
///
/// Two variables are the same variable when name and role agree; the index
/// is the position assigned in the store and takes no part in identity.
#[derive(Debug)]
pub struct Variable {
    pub name: String,
    pub parameter: bool,
    pub index: usize,
}

impl Variable {
    /// The identity of the variable: its name and its role.
    pub open spec fn key(self) -> (Seq<char>, bool) {
        (self.name@, self.parameter)
    }

    pub fn new(name: String, parameter: bool) -> (r: Self)
        ensures
            r.name == name,
            r.parameter == parameter,
            r.index == 0,
    {
        Variable { name, parameter, index: 0 }
    }

    /// A copy of the variable.
    pub fn duplicate(&self) -> (r: Self)
        ensures
            r == *self,
    {
        Variable { name: self.name.clone(), parameter: self.parameter, index: self.index }
    }
}

impl PartialEq for Variable {
    fn eq(&self, other: &Variable) -> (r: bool) {
        self.name == other.name && self.parameter == other.parameter
    }
}

impl Eq for Variable {

}

impl vstd::std_specs::cmp::PartialEqSpecImpl for Variable {
    open spec fn obeys_eq_spec() -> bool {
        true
    }

    open spec fn eq_spec(&self, other: &Variable) -> bool {
        self.key() == other.key()
    }
}

/// An ordered list of node handles.
#[derive(Debug)]
pub struct Array {
    pub elements: Vec<usize>,
}

/// A tuple of node handles.
#[derive(Debug)]
pub struct Tuple {
    pub elements: Vec<usize>,
}

/// A named record: field `name_order[i]` holds node `elements[i]`.
#[derive(Debug)]
pub struct Struct {
    pub name: String,
    pub name_order: Vec<String>,
    pub elements: Vec<usize>,
}

/// A bundle of nodes; it carries no numeric meaning of its own.
#[derive(Debug)]
pub enum Collection {
    Array(Array),
    Struct(Struct),
    Tuple(Tuple),
}

/// The views of a list of names.
pub open spec fn names_view(v: Seq<String>) -> Seq<Seq<char>> {
    v.map_values(|s: String| s@)
}

impl Collection {
    /// The handles the collection refers to, in order.
    pub open spec fn elements_spec(self) -> Seq<usize> {
        match self {
            Collection::Array(a) => a.elements@,
            Collection::Struct(s) => s.elements@,
            Collection::Tuple(t) => t.elements@,
        }
    }

    pub open spec fn same(self, other: Collection) -> bool {
        match (self, other) {
            (Collection::Array(a), Collection::Array(b)) => a.elements@ == b.elements@,
            (Collection::Tuple(a), Collection::Tuple(b)) => a.elements@ == b.elements@,
            (Collection::Struct(a), Collection::Struct(b)) => {
                &&& a.name@ == b.name@
                &&& names_view(a.name_order@) == names_view(b.name_order@)
                &&& a.elements@ == b.elements@
            },
            _ => false,
        }
    }

    /// Whether the collection is well formed (a record names each element).
    pub open spec fn wf(self) -> bool {
        match self {
            Collection::Struct(s) => s.name_order@.len() == s.elements@.len(),
            _ => true,
        }
    }
}

/// An operator applied to one node.
#[derive(Clone, Copy, Debug, PartialEq, Eq, Structural)]
pub struct Unary {
    pub operation: UnaryOp,
    pub argument: usize,
}

/// An operator applied to two nodes.
#[derive(Clone, Copy, Debug, PartialEq, Eq, Structural)]
pub struct Binary {
    pub operation: BinaryOp,
    pub left: usize,
    pub right: usize,
}

/// What a node is; children are handles into the node store.
#[derive(Debug)]
pub enum NodeType {
    Binary(Binary),
    Constant(Constant),
    Unary(Unary),
    Variable(Variable),
    Collection(Collection),
}

impl NodeType {
    /// The handles this node refers to, in order.
    pub open spec fn children(self) -> Seq<usize> {
        match self {
            NodeType::Binary(b) => seq![b.left, b.right],
            NodeType::Unary(u) => seq![u.argument],
            NodeType::Collection(c) => c.elements_spec(),
            _ => Seq::empty(),
        }
    }

    /// Structural equality: the relation under which the store deduplicates.
    pub open spec fn same(self, other: NodeType) -> bool {
        match (self, other) {
            (NodeType::Binary(a), NodeType::Binary(b)) => a == b,
            (NodeType::Constant(a), NodeType::Constant(b)) => a == b,
            (NodeType::Unary(a), NodeType::Unary(b)) => a == b,
            (NodeType::Variable(a), NodeType::Variable(b)) => a.key() == b.key(),
            (NodeType::Collection(a), NodeType::Collection(b)) => a.same(b),
            _ => false,
        }
    }

    /// Whether the node is a collection.
    pub open spec fn is_collection_spec(self) -> bool {
        self is Collection
    }

    /// Whether the node's own data is well formed.
    pub open spec fn wf(self) -> bool {
        match self {
            NodeType::Constant(c) => c.wf(),
            NodeType::Collection(c) => c.wf(),
            _ => true,
        }
    }

    /// Whether the node is a collection.
    pub fn is_collection(&self) -> (r: bool)
        ensures
            r == self.is_collection_spec(),
    {
        match self {
            NodeType::Collection(_) => true,
            _ => false,
        }
    }

    /// Whether the node is the constant `k`.
    pub fn is_constant_int(&self, k: i64) -> (r: bool)
        ensures
            r == (*self is Constant && self->Constant_0 == Constant::int_spec(k)),
    {
        match self {
            NodeType::Constant(c) => c.is_int(k),
            _ => false,
        }
    }
}

/// Structural equality of two lists of handles.
fn handles_equal(a: &Vec<usize>, b: &Vec<usize>) -> (r: bool)
    ensures
        r == (a@ == b@),
{
    if a.len() != b.len() {
        return false;
    }
    let mut i: usize = 0;
    while i < a.len()
        invariant
            a@.len() == b@.len(),
            i <= a@.len(),
            forall|k: int| 0 <= k < i ==> a@[k] == b@[k],
        decreases a@.len() - i,
    {
        if a[i] != b[i] {
            return false;
        }
        i = i + 1;
    }
    assert(a@ =~= b@);
    true
}

/// Equality of two lists of names.
fn names_equal(a: &Vec<String>, b: &Vec<String>) -> (r: bool)
    ensures
        r == (names_view(a@) == names_view(b@)),
{
    if a.len() != b.len() {
        assert(names_view(a@).len() != names_view(b@).len());
        return false;
    }
    let mut i: usize = 0;
    while i < a.len()
        invariant
            a@.len() == b@.len(),
            i <= a@.len(),
            forall|k: int| 0 <= k < i ==> a@[k]@ == b@[k]@,
        decreases a@.len() - i,
    {
        if a[i] != b[i] {
            assert(names_view(a@)[i as int] != names_view(b@)[i as int]);
            return false;
        }
        i = i + 1;
    }
    assert(names_view(a@) =~= names_view(b@));
    true
}

impl Collection {
    /// Structural equality of two collections.
    pub fn same_as(&self, other: &Collection) -> (r: bool)
        ensures
            r == self.same(*other),
    {
        match (self, other) {
            (Collection::Array(a), Collection::Array(b)) => handles_equal(&a.elements, &b.elements),
            (Collection::Tuple(a), Collection::Tuple(b)) => handles_equal(&a.elements, &b.elements),
            (Collection::Struct(a), Collection::Struct(b)) => {
                a.name == b.name && names_equal(&a.name_order, &b.name_order) && handles_equal(
                    &a.elements,
                    &b.elements,
                )
            },
            _ => false,
        }
    }
}

impl NodeType {
    /// Structural equality of two nodes.
    pub fn same_as(&self, other: &NodeType) -> (r: bool)
        ensures
            r == self.same(*other),
    {
        match (self, other) {
            (NodeType::Binary(a), NodeType::Binary(b)) => {
                a.operation == b.operation && a.left == b.left && a.right == b.right
            },
            (NodeType::Constant(a), NodeType::Constant(b)) => a.mantissa == b.mantissa && a.scale
                == b.scale,
            (NodeType::Unary(a), NodeType::Unary(b)) => a.operation == b.operation && a.argument
                == b.argument,
            (NodeType::Variable(a), NodeType::Variable(b)) => a.name == b.name && a.parameter
                == b.parameter,
            (NodeType::Collection(a), NodeType::Collection(b)) => a.same_as(b),
            _ => false,
        }
    }
}

/// A node of the expression graph, with facts derived from its children.
#[derive(Debug)]
pub struct Node {
    pub interior: NodeType,
    /// Whether the subtree reads a parameter.
    pub parameters: bool,
    /// Whether the subtree reads a data value.
    pub data: bool,
    /// Estimated evaluation cost; advisory only.
    pub cost: usize,
}

} // verus!
