//! The computation graph and the operators that extend it.
//!
//! A graph holds its nodes in the order of their construction. Each node holds
//! its forward value, its gradient, the operation that produced it and the
//! nodes it was computed from. The scalars are of any copyable type: an
//! operator takes the arithmetic it needs as a function and stores what that
//! function returns.

use crate::arithmetic::{computes1, computes2, Arithmetic};
use vstd::prelude::*;

verus! {

/// The operation that produced a node.
#[derive(Clone, Copy, PartialEq, Eq, Structural, Debug, Hash)]
pub enum Op {
    /// An input constant.
    Leaf,
    /// The sum of two nodes.
    Sum,
    /// The product of two nodes.
    Product,
    /// The hyperbolic tangent of one node.
    Tanh,
}

/// A handle on one node of a graph: the position at which it was added.
///
/// Two handles are the same node exactly when they are equal.
#[derive(Clone, Copy, PartialEq, Eq, Structural, Debug, Hash)]
pub struct Value(pub usize);

/// The place of a node in the graph, as a mathematical value: its operation
/// and its operands.
pub struct Node {
    pub op: Op,
    pub operands: Seq<Value>,
}

/// A node as a mathematical value.
pub struct Record<T> {
    pub data: T,
    pub grad: T,
    pub op: Op,
    pub operands: Seq<Value>,
}

/// One node: its forward value, its gradient, its operation and its operands,
/// in order.
#[derive(Clone, PartialEq, Eq, Debug, Hash)]
pub struct InnerValue<T> {
    data: T,
    grad: T,
    op: Op,
    prev: Vec<Value>,
}

/// A graph of nodes over scalars of type `T`, with the zero and the one of
/// those scalars. Operands always precede the node built from them, so the
/// graph has no cycle.
#[derive(Debug)]
pub struct Graph<T> {
    zero: T,
    one: T,
    nodes: Vec<InnerValue<T>>,
}

/// The number of operands that an operation takes.
pub open spec fn arity(op: Op) -> nat {
    match op {
        Op::Leaf => 0,
        Op::Sum => 2,
        Op::Product => 2,
        Op::Tanh => 1,
    }
}

/// The characters of the tag under which an operation is shown.
pub open spec fn symbol_of(op: Op) -> Seq<char> {
    match op {
        Op::Leaf => seq![],
        Op::Sum => seq!['+'],
        Op::Product => seq!['*'],
        Op::Tanh => seq!['t', 'a', 'n', 'h'],
    }
}

/// A node may stand at position `at` when it has as many operands as its
/// operation takes and each of them stands before `at`.
pub open spec fn node_fits(op: Op, operands: Seq<Value>, at: int) -> bool {
    &&& operands.len() == arity(op)
    &&& forall|k: int| 0 <= k < operands.len() ==> (#[trigger] operands[k]).0 < at
}

/// Every node of the sequence may stand where it does.
pub open spec fn well_formed(nodes: Seq<Node>) -> bool {
    forall|i: int|
        0 <= i < nodes.len() ==> node_fits((#[trigger] nodes[i]).op, nodes[i].operands, i)
}

/// The operands of the node that `at` names.
#[verifier::inline]
pub open spec fn operands_of(nodes: Seq<Node>, at: Value) -> Seq<Value> {
    nodes[at.0 as int].operands
}

impl<T> Record<T> {
    /// The place of the node in the graph, without its scalars.
    pub open spec fn node(self) -> Node {
        Node { op: self.op, operands: self.operands }
    }
}

/// The operations and operands of the nodes, without their scalars.
pub open spec fn shape_of<T>(records: Seq<Record<T>>) -> Seq<Node> {
    Seq::new(records.len(), |i: int| records[i].node())
}

/// The forward values of the nodes.
pub open spec fn values_of<T>(records: Seq<Record<T>>) -> Seq<T> {
    Seq::new(records.len(), |i: int| records[i].data)
}

/// The gradients of the nodes.
pub open spec fn gradients_of<T>(records: Seq<Record<T>>) -> Seq<T> {
    Seq::new(records.len(), |i: int| records[i].grad)
}

/// The value of the node at position `at` is what its operation gives on
/// the values of its operands. Of a leaf nothing is asked.
pub open spec fn evaluated_at<T>(
    ar: Arithmetic<T>,
    nodes: Seq<Node>,
    values: Seq<T>,
    at: int,
) -> bool {
    let operands = nodes[at].operands;
    match nodes[at].op {
        Op::Leaf => true,
        Op::Sum => {
            values[at] == (ar.add)(values[operands[0].0 as int], values[operands[1].0 as int])
        },
        Op::Product => {
            values[at] == (ar.mul)(values[operands[0].0 as int], values[operands[1].0 as int])
        },
        Op::Tanh => values[at] == (ar.tanh)(values[operands[0].0 as int]),
    }
}

/// Every value is what the operation of its node gives on the values of the
/// operands.
pub open spec fn evaluated<T>(ar: Arithmetic<T>, nodes: Seq<Node>, values: Seq<T>) -> bool {
    forall|i: int| 0 <= i < nodes.len() ==> #[trigger] evaluated_at(ar, nodes, values, i)
}

/// Values that are evaluated stay so when a node is added whose own value is
/// evaluated.
pub proof fn lemma_push_keeps_evaluated<T>(
    ar: Arithmetic<T>,
    nodes: Seq<Node>,
    values: Seq<T>,
    node: Node,
    value: T,
)
    requires
        well_formed(nodes),
        values.len() == nodes.len(),
        evaluated(ar, nodes, values),
        node_fits(node.op, node.operands, nodes.len() as int),
        evaluated_at(ar, nodes.push(node), values.push(value), nodes.len() as int),
    ensures
        evaluated(ar, nodes.push(node), values.push(value)),
{
    let longer = nodes.push(node);
    let more = values.push(value);
    assert forall|i: int| 0 <= i < longer.len()
        implies #[trigger] evaluated_at(ar, longer, more, i) by {
        if i < nodes.len() {
            assert(evaluated_at(ar, nodes, values, i));
            assert(node_fits(nodes[i].op, nodes[i].operands, i));
            let operands = nodes[i].operands;
            if operands.len() >= 1 {
                assert(operands[0].0 < i);
            }
            if operands.len() >= 2 {
                assert(operands[1].0 < i);
            }
        }
    }
}

impl Op {
    /// The number of operands that the operation takes.
    pub fn arity(&self) -> (n: usize)
        ensures
            n == arity(*self),
    {
        match self {
            Op::Leaf => 0,
            Op::Sum => 2,
            Op::Product => 2,
            Op::Tanh => 1,
        }
    }

    /// The tag under which the operation is shown: empty for a leaf.
    pub fn symbol(&self) -> (s: &'static str)
        ensures
            s@ == symbol_of(*self),
    {
        proof {
            reveal_strlit("");
            reveal_strlit("+");
            reveal_strlit("*");
            reveal_strlit("tanh");
        }
        match self {
            Op::Leaf => "",
            Op::Sum => "+",
            Op::Product => "*",
            Op::Tanh => "tanh",
        }
    }
}

impl<T> View for InnerValue<T> {
    type V = Record<T>;

    closed spec fn view(&self) -> Record<T> {
        Record { data: self.data, grad: self.grad, op: self.op, operands: self.prev@ }
    }
}

impl<T: Copy> InnerValue<T> {
    /// A node for the given graph, with the given value, operation and
    /// operands. Its gradient is the zero of the graph, whatever the
    /// arguments.
    pub fn new(graph: &Graph<T>, data: T, op: Op, prev: Vec<Value>) -> (value: InnerValue<T>)
        ensures
            value@ == (Record { data, grad: graph.zero(), op, operands: prev@ }),
    {
        InnerValue { data, grad: graph.zero, op, prev }
    }

    /// The forward value of the node.
    pub fn data(&self) -> (data: T)
        ensures
            data == self@.data,
    {
        self.data
    }

    /// The gradient of the node.
    pub fn grad(&self) -> (grad: T)
        ensures
            grad == self@.grad,
    {
        self.grad
    }

    /// The operation that produced the node.
    pub fn op(&self) -> (op: Op)
        ensures
            op == self@.op,
    {
        self.op
    }

    /// The nodes that the node was computed from, in order.
    pub fn prev(&self) -> (prev: &Vec<Value>)
        ensures
            prev@ == self@.operands,
    {
        &self.prev
    }
}

impl<T> View for Graph<T> {
    type V = Seq<Record<T>>;

    closed spec fn view(&self) -> Seq<Record<T>> {
        Seq::new(self.nodes@.len(), |i: int| self.nodes@[i]@)
    }
}

impl<T: Copy> Graph<T> {
    /// The scalar with which the gradient of a new node starts.
    pub closed spec fn zero(&self) -> T {
        self.zero
    }

    /// The scalar with which a backward pass seeds the gradient of its
    /// output.
    pub closed spec fn one(&self) -> T {
        self.one
    }

    /// The operations and operands of the nodes.
    pub open spec fn shape(&self) -> Seq<Node> {
        shape_of(self@)
    }

    /// The forward values of the nodes.
    pub open spec fn values(&self) -> Seq<T> {
        values_of(self@)
    }

    /// The gradients of the nodes.
    pub open spec fn gradients(&self) -> Seq<T> {
        gradients_of(self@)
    }

    /// The invariant of a graph: every operand precedes the node that uses it,
    /// and every node has the operands that its operation takes.
    pub open spec fn wf(&self) -> bool {
        well_formed(self.shape())
    }

    /// Whether the handle names a node of this graph.
    pub open spec fn has(&self, value: Value) -> bool {
        value.0 < self@.len()
    }

    /// This graph is `before` with one node more: the one that `value` names,
    /// with the given operation and operands and a gradient of zero.
    pub open spec fn extends(
        &self,
        before: Graph<T>,
        value: Value,
        op: Op,
        operands: Seq<Value>,
    ) -> bool {
        let added = Record { data: self@.last().data, grad: before.zero(), op, operands };
        &&& self.zero() == before.zero()
        &&& self.one() == before.one()
        &&& value.0 == before@.len()
        &&& self@ == before@.push(added)
    }

    /// A graph without nodes, over scalars with the given zero and one.
    pub fn new(zero: T, one: T) -> (graph: Graph<T>)
        ensures
            graph@ == Seq::<Record<T>>::empty(),
            graph.zero() == zero,
            graph.one() == one,
            graph.wf(),
    {
        let graph = Graph { zero, one, nodes: Vec::new() };
        assert(graph@ =~= Seq::<Record<T>>::empty());
        graph
    }

    /// The number of nodes.
    pub fn len(&self) -> (n: usize)
        ensures
            n == self@.len(),
    {
        self.nodes.len()
    }

    /// Whether the handle names a node of this graph.
    pub fn contains(&self, value: Value) -> (found: bool)
        ensures
            found == self.has(value),
    {
        value.0 < self.nodes.len()
    }

    /// The node that the handle names.
    pub fn node(&self, value: Value) -> (node: &InnerValue<T>)
        requires
            self.has(value),
        ensures
            node@ == self@[value.0 as int],
    {
        &self.nodes[value.0]
    }

    /// The forward value of a node.
    pub fn value(&self, value: Value) -> (data: T)
        requires
            self.has(value),
        ensures
            data == self.values()[value.0 as int],
    {
        self.nodes[value.0].data
    }

    /// The gradient of a node.
    pub fn gradient(&self, value: Value) -> (grad: T)
        requires
            self.has(value),
        ensures
            grad == self.gradients()[value.0 as int],
    {
        self.nodes[value.0].grad
    }

    /// Whether the node may be added: it has the operands that its operation
    /// takes, and all of them are nodes of this graph.
    pub fn admits(&self, value: &InnerValue<T>) -> (fits: bool)
        ensures
            fits == node_fits(value@.op, value@.operands, self@.len() as int),
    {
        if value.prev.len() != value.op.arity() {
            return false;
        }
        let mut k: usize = 0;
        while k < value.prev.len()
            invariant
                k <= value.prev@.len(),
                forall|j: int| 0 <= j < k ==> (#[trigger] value.prev@[j]).0 < self.nodes@.len(),
            decreases value.prev@.len() - k,
        {
            if value.prev[k].0 >= self.nodes.len() {
                return false;
            }
            k += 1;
        }
        true
    }

    /// The scalar with which a backward pass seeds the gradient of its
    /// output.
    pub(crate) fn one_scalar(&self) -> (one: T)
        ensures
            one == self.one(),
    {
        self.one
    }

    /// Replaces the gradient of a node and leaves everything else as it is.
    pub(crate) fn set_gradient(&mut self, value: Value, grad: T)
        requires
            old(self).has(value),
        ensures
            final(self)@ == old(self)@.update(
                value.0 as int,
                (Record { grad, ..old(self)@[value.0 as int] }),
            ),
            final(self).zero() == old(self).zero(),
            final(self).one() == old(self).one(),
    {
        self.nodes[value.0].grad = grad;
        assert(self@ =~= old(self)@.update(
            value.0 as int,
            Record { grad, ..old(self)@[value.0 as int] },
        ));
    }
}

impl Value {
    /// Adds a leaf to the graph: a node without operands, which holds an
    /// input constant. Its gradient is zero. Nodes already in the graph stay
    /// as they are, and the new node is none of them.
    pub fn create<T: Copy>(graph: &mut Graph<T>, data: T) -> (leaf: Value)
        requires
            old(graph).wf(),
        ensures
            final(graph).extends(*old(graph), leaf, Op::Leaf, Seq::empty()),
            final(graph)@.last().data == data,
            final(graph).wf(),
            forall|ar: Arithmetic<T>| #[trigger]
                evaluated(ar, old(graph).shape(), old(graph).values())
                    ==> evaluated(ar, final(graph).shape(), final(graph).values()),
    {
        let record = InnerValue::new(graph, data, Op::Leaf, Vec::new());
        let leaf = Value::new(graph, record);
        proof {
            let node = Node { op: Op::Leaf, operands: Seq::empty() };
            assert forall|ar: Arithmetic<T>| #[trigger]
                evaluated(ar, old(graph).shape(), old(graph).values())
                implies evaluated(ar, graph.shape(), graph.values()) by {
                lemma_push_keeps_evaluated(ar, old(graph).shape(), old(graph).values(), node, data);
            }
        }
        leaf
    }

    /// Adds the given node and returns its handle. The gradient of the node
    /// starts at the zero of the graph, whatever the record held. Nodes
    /// already in the graph stay as they are, and the new node is none of
    /// them.
    pub fn new<T: Copy>(graph: &mut Graph<T>, value: InnerValue<T>) -> (handle: Value)
        requires
            old(graph).wf(),
            node_fits(value@.op, value@.operands, old(graph)@.len() as int),
        ensures
            final(graph).extends(*old(graph), handle, value@.op, value@.operands),
            final(graph)@.last().data == value@.data,
            value@.grad == old(graph).zero() ==> final(graph)@ == old(graph)@.push(value@),
            final(graph).shape() == old(graph).shape().push(value@.node()),
            final(graph).values() == old(graph).values().push(value@.data),
            final(graph).gradients() == old(graph).gradients().push(old(graph).zero()),
            final(graph).wf(),
    {
        let handle = Value(graph.nodes.len());
        let mut fresh = value;
        fresh.grad = graph.zero;
        graph.nodes.push(fresh);
        proof {
            let added = Record { grad: old(graph).zero(), ..value@ };
            assert(fresh@ == added);
            assert(graph@ =~= old(graph)@.push(added));
            assert(graph.shape() =~= old(graph).shape().push(value@.node()));
            assert(graph.values() =~= old(graph).values().push(value@.data));
            assert(graph.gradients() =~= old(graph).gradients().push(old(graph).zero()));
        }
        handle
    }

    /// Adds the hyperbolic tangent of this node to the graph. Its value is
    /// what `tanh` returns on the value of this node, and its gradient is
    /// zero.
    pub fn tanh<T: Copy>(&self, graph: &mut Graph<T>, tanh: impl Fn(T) -> T) -> (result: Value)
        requires
            old(graph).wf(),
            old(graph).has(*self),
            call_requires(tanh, (old(graph).values()[self.0 as int],)),
        ensures
            final(graph).extends(*old(graph), result, Op::Tanh, seq![*self]),
            call_ensures(tanh, (old(graph).values()[self.0 as int],), final(graph)@.last().data),
            final(graph).wf(),
            forall|ar: Arithmetic<T>|
                computes1(tanh, ar.tanh)
                    && #[trigger] evaluated(ar, old(graph).shape(), old(graph).values())
                    ==> evaluated(ar, final(graph).shape(), final(graph).values()),
    {
        let data = tanh(graph.value(*self));
        let mut prev: Vec<Value> = Vec::new();
        prev.push(*self);
        assert(prev@ =~= seq![*self]);
        let record = InnerValue::new(graph, data, Op::Tanh, prev);
        let result = Value::new(graph, record);
        proof {
            let node = Node { op: Op::Tanh, operands: seq![*self] };
            assert forall|ar: Arithmetic<T>|
                computes1(tanh, ar.tanh)
                    && #[trigger] evaluated(ar, old(graph).shape(), old(graph).values())
                implies evaluated(ar, graph.shape(), graph.values()) by {
                lemma_push_keeps_evaluated(ar, old(graph).shape(), old(graph).values(), node, data);
            }
        }
        result
    }
}

/// Adds the sum of two nodes to the graph. Its value is what `plus` returns
/// on the values of the operands, and its gradient is zero. The operands may
/// be one and the same node.
pub fn add<T: Copy>(
    graph: &mut Graph<T>,
    a: &Value,
    b: &Value,
    plus: impl Fn(T, T) -> T,
) -> (result: Value)
    requires
        old(graph).wf(),
        old(graph).has(*a),
        old(graph).has(*b),
        call_requires(plus, (old(graph).values()[a.0 as int], old(graph).values()[b.0 as int])),
    ensures
        final(graph).extends(*old(graph), result, Op::Sum, seq![*a, *b]),
        call_ensures(
            plus,
            (old(graph).values()[a.0 as int], old(graph).values()[b.0 as int]),
            final(graph)@.last().data,
        ),
        final(graph).wf(),
        forall|ar: Arithmetic<T>|
            computes2(plus, ar.add)
                && #[trigger] evaluated(ar, old(graph).shape(), old(graph).values())
                ==> evaluated(ar, final(graph).shape(), final(graph).values()),
{
    let data = plus(graph.value(*a), graph.value(*b));
    let mut prev: Vec<Value> = Vec::new();
    prev.push(*a);
    prev.push(*b);
    assert(prev@ =~= seq![*a, *b]);
    let record = InnerValue::new(graph, data, Op::Sum, prev);
    let result = Value::new(graph, record);
    proof {
        let node = Node { op: Op::Sum, operands: seq![*a, *b] };
        assert forall|ar: Arithmetic<T>|
            computes2(plus, ar.add)
                && #[trigger] evaluated(ar, old(graph).shape(), old(graph).values())
            implies evaluated(ar, graph.shape(), graph.values()) by {
            lemma_push_keeps_evaluated(ar, old(graph).shape(), old(graph).values(), node, data);
        }
    }
    result
}

/// Adds the product of two nodes to the graph. Its value is what `times`
/// returns on the values of the operands, and its gradient is zero. The
/// operands may be one and the same node.
pub fn mul<T: Copy>(
    graph: &mut Graph<T>,
    a: &Value,
    b: &Value,
    times: impl Fn(T, T) -> T,
) -> (result: Value)
    requires
        old(graph).wf(),
        old(graph).has(*a),
        old(graph).has(*b),
        call_requires(times, (old(graph).values()[a.0 as int], old(graph).values()[b.0 as int])),
    ensures
        final(graph).extends(*old(graph), result, Op::Product, seq![*a, *b]),
        call_ensures(
            times,
            (old(graph).values()[a.0 as int], old(graph).values()[b.0 as int]),
            final(graph)@.last().data,
        ),
        final(graph).wf(),
        forall|ar: Arithmetic<T>|
            computes2(times, ar.mul)
                && #[trigger] evaluated(ar, old(graph).shape(), old(graph).values())
                ==> evaluated(ar, final(graph).shape(), final(graph).values()),
{
    let data = times(graph.value(*a), graph.value(*b));
    let mut prev: Vec<Value> = Vec::new();
    prev.push(*a);
    prev.push(*b);
    assert(prev@ =~= seq![*a, *b]);
    let record = InnerValue::new(graph, data, Op::Product, prev);
    let result = Value::new(graph, record);
    proof {
        let node = Node { op: Op::Product, operands: seq![*a, *b] };
        assert forall|ar: Arithmetic<T>|
            computes2(times, ar.mul)
                && #[trigger] evaluated(ar, old(graph).shape(), old(graph).values())
            implies evaluated(ar, graph.shape(), graph.values()) by {
            lemma_push_keeps_evaluated(ar, old(graph).shape(), old(graph).values(), node, data);
        }
    }
    result
}

} // verus!
