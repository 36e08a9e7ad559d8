//! The order in which a backward pass meets the nodes below an output.
//!
//! The traversal is depth first and appends a node once all of its operands
//! are done, so that an operand always stands before the node that uses it.
//! Read from its end, that order lets a node's turn come only after the turn
//! of every node that uses it.

use crate::value::{operands_of, well_formed, Graph, Node, Value};
use vstd::prelude::*;

verus! {

/// `to` can be reached from `from` by going from a node to one of its
/// operands, any number of times.
pub open spec fn reachable(nodes: Seq<Node>, from: Value, to: Value) -> bool
    decreases from.0,
{
    from == to || (from.0 < nodes.len() && exists|k: int|
        0 <= k < operands_of(nodes, from).len()
            && (#[trigger] operands_of(nodes, from)[k]).0 < from.0
            && reachable(nodes, operands_of(nodes, from)[k], to))
}

/// `to` can be reached from one of the operands of `from` that stand at
/// position `first` or later.
pub open spec fn reachable_below(nodes: Seq<Node>, from: Value, first: nat, to: Value) -> bool {
    from.0 < nodes.len() && exists|k: int|
        first <= k < operands_of(nodes, from).len()
            && (#[trigger] operands_of(nodes, from)[k]).0 < from.0
            && reachable(nodes, operands_of(nodes, from)[k], to)
}

/// `x` stands in `order` before position `i`.
pub open spec fn stands_before(order: Seq<Value>, x: Value, i: int) -> bool {
    exists|j: int| 0 <= j < i && j < order.len() && order[j] == x
}

/// What holds of an order that a traversal has built: its nodes are nodes of
/// the graph, none stands in it twice, and every operand of a node in it
/// stands before that node.
pub open spec fn ordered(nodes: Seq<Node>, order: Seq<Value>) -> bool {
    &&& forall|i: int| 0 <= i < order.len() ==> (#[trigger] order[i]).0 < nodes.len()
    &&& order.no_duplicates()
    &&& forall|i: int, k: int|
        0 <= i < order.len() && 0 <= k < operands_of(nodes, order[i]).len()
            ==> #[trigger] stands_before(order, operands_of(nodes, order[i])[k], i)
}

/// The order after a depth-first visit of `at`, given the nodes that were
/// done before: unchanged when `at` is among them, else extended by what lies
/// below the operands of `at`, from the first operand to the last, and then by
/// `at` itself.
pub open spec fn visit(nodes: Seq<Node>, at: Value, done: Seq<Value>) -> Seq<Value>
    decreases at.0, 1nat, 0nat,
{
    if done.contains(at) {
        done
    } else {
        visit_operands(nodes, at, 0, done).push(at)
    }
}

/// The order after the visits of the operands of `at` from the one at
/// position `from` on.
pub open spec fn visit_operands(
    nodes: Seq<Node>,
    at: Value,
    from: nat,
    done: Seq<Value>,
) -> Seq<Value>
    decreases at.0, 0nat, operands_of(nodes, at).len() - from,
{
    if at.0 < nodes.len() && from < operands_of(nodes, at).len()
        && operands_of(nodes, at)[from as int].0 < at.0 {
        let operand = operands_of(nodes, at)[from as int];
        visit_operands(nodes, at, from + 1, visit(nodes, operand, done))
    } else {
        done
    }
}

/// The nodes below `output` in post-order: every node after its operands,
/// `output` last.
pub open spec fn post_order(nodes: Seq<Node>, output: Value) -> Seq<Value> {
    visit(nodes, output, Seq::empty())
}

/// The order of a backward pass: `output` first, every node before its
/// operands.
pub open spec fn backward_order(nodes: Seq<Node>, output: Value) -> Seq<Value> {
    post_order(nodes, output).reverse()
}

/// Every node of the order is marked.
pub open spec fn marks_cover(visited: Seq<bool>, order: Seq<Value>) -> bool {
    forall|v: Value| #[trigger] order.contains(v) && v.0 < visited.len() ==> visited[v.0 as int]
}

/// Every marked node up to position `bound` is in the order.
pub open spec fn marks_within(visited: Seq<bool>, order: Seq<Value>, bound: int) -> bool {
    forall|v: Value|
        v.0 < visited.len() && v.0 <= bound && visited[v.0 as int] ==> #[trigger] order.contains(v)
}

/// The marks after a visit are those before it together with those of the
/// nodes of the order: a node is marked afterwards exactly when it was
/// marked or stands in the order.
pub open spec fn marks_joined(before: Seq<bool>, after: Seq<bool>, order: Seq<Value>) -> bool {
    &&& after.len() == before.len()
    &&& forall|i: int| 0 <= i < after.len() && before[i] ==> #[trigger] after[i]
    &&& marks_cover(after, order)
    &&& forall|v: Value|
        v.0 < after.len() && after[v.0 as int] && !before[v.0 as int]
            ==> #[trigger] order.contains(v)
}

/// A visit only appends: what was done stays where it was.
pub proof fn lemma_visit_extends(nodes: Seq<Node>, at: Value, done: Seq<Value>)
    ensures
        done.len() <= visit(nodes, at, done).len(),
        visit(nodes, at, done).subrange(0, done.len() as int) == done,
        forall|v: Value| done.contains(v) ==> #[trigger] visit(nodes, at, done).contains(v),
    decreases at.0, 1nat, 0nat,
{
    let after = visit(nodes, at, done);
    if done.contains(at) {
        assert(after.subrange(0, done.len() as int) =~= done);
    } else {
        lemma_visit_operands_extends(nodes, at, 0, done);
        let below = visit_operands(nodes, at, 0, done);
        assert(after.subrange(0, done.len() as int) =~= below.subrange(0, done.len() as int));
    }
    assert forall|v: Value| done.contains(v) implies #[trigger] after.contains(v) by {
        let i = choose|i: int| 0 <= i < done.len() && done[i] == v;
        assert(after.subrange(0, done.len() as int)[i] == after[i]);
    }
}

/// The visits of the operands only append.
pub proof fn lemma_visit_operands_extends(
    nodes: Seq<Node>,
    at: Value,
    from: nat,
    done: Seq<Value>,
)
    ensures
        done.len() <= visit_operands(nodes, at, from, done).len(),
        visit_operands(nodes, at, from, done).subrange(0, done.len() as int) == done,
    decreases at.0, 0nat, operands_of(nodes, at).len() - from,
{
    if at.0 < nodes.len() && from < operands_of(nodes, at).len()
        && operands_of(nodes, at)[from as int].0 < at.0 {
        let operand = operands_of(nodes, at)[from as int];
        let next = visit(nodes, operand, done);
        lemma_visit_extends(nodes, operand, done);
        lemma_visit_operands_extends(nodes, at, from + 1, next);
        let after = visit_operands(nodes, at, from + 1, next);
        let kept = after.subrange(0, next.len() as int);
        assert(after.subrange(0, done.len() as int) =~= kept.subrange(0, done.len() as int));
    } else {
        assert(done.subrange(0, done.len() as int) =~= done);
    }
}

/// What can be reached from a node stands at or before it.
pub proof fn lemma_reachable_is_earlier(nodes: Seq<Node>, from: Value, to: Value)
    requires
        reachable(nodes, from, to),
    ensures
        to.0 <= from.0,
        reachable_below(nodes, from, 0, to) ==> to.0 < from.0,
    decreases from.0,
{
    if reachable_below(nodes, from, 0, to) {
        let k = choose|k: int|
            0 <= k < operands_of(nodes, from).len()
                && (#[trigger] operands_of(nodes, from)[k]).0 < from.0
                && reachable(nodes, operands_of(nodes, from)[k], to);
        lemma_reachable_is_earlier(nodes, operands_of(nodes, from)[k], to);
    }
}

/// Reachability is transitive.
pub proof fn lemma_reachable_transitive(nodes: Seq<Node>, a: Value, b: Value, c: Value)
    requires
        reachable(nodes, a, b),
        reachable(nodes, b, c),
    ensures
        reachable(nodes, a, c),
    decreases a.0,
{
    if a != b {
        let k = choose|k: int|
            0 <= k < operands_of(nodes, a).len()
                && (#[trigger] operands_of(nodes, a)[k]).0 < a.0
                && reachable(nodes, operands_of(nodes, a)[k], b);
        lemma_reachable_transitive(nodes, operands_of(nodes, a)[k], b, c);
        assert(reachable_below(nodes, a, 0, c));
    }
}

/// An operand of a node can be reached from it.
pub proof fn lemma_operand_reachable(nodes: Seq<Node>, user: Value, k: int)
    requires
        well_formed(nodes),
        user.0 < nodes.len(),
        0 <= k < operands_of(nodes, user).len(),
    ensures
        reachable(nodes, user, operands_of(nodes, user)[k]),
        reachable_below(nodes, user, k as nat, operands_of(nodes, user)[k]),
{
    let operand = operands_of(nodes, user)[k];
    assert(reachable(nodes, operand, operand));
    assert(reachable_below(nodes, user, k as nat, operand));
    assert(reachable_below(nodes, user, 0, operand));
}

/// An order that a traversal has built holds whatever can be reached from
/// its nodes.
pub proof fn lemma_ordered_is_closed(nodes: Seq<Node>, order: Seq<Value>, from: Value, to: Value)
    requires
        ordered(nodes, order),
        order.contains(from),
        reachable(nodes, from, to),
    ensures
        order.contains(to),
    decreases from.0,
{
    if from != to {
        let k = choose|k: int|
            0 <= k < operands_of(nodes, from).len()
                && (#[trigger] operands_of(nodes, from)[k]).0 < from.0
                && reachable(nodes, operands_of(nodes, from)[k], to);
        let operand = operands_of(nodes, from)[k];
        let i = choose|i: int| 0 <= i < order.len() && order[i] == from;
        assert(stands_before(order, operands_of(nodes, order[i])[k], i));
        let j = choose|j: int| 0 <= j < i && j < order.len() && order[j] == operand;
        assert(order.contains(operand));
        lemma_ordered_is_closed(nodes, order, operand, to);
    }
}

/// A visit of `at` keeps the order well built and adds to it exactly what can
/// be reached from `at` and was not done.
pub proof fn lemma_visit_ordered(nodes: Seq<Node>, at: Value, done: Seq<Value>)
    requires
        well_formed(nodes),
        at.0 < nodes.len(),
        ordered(nodes, done),
    ensures
        ordered(nodes, visit(nodes, at, done)),
        visit(nodes, at, done).contains(at),
        forall|x: Value| #[trigger]
            visit(nodes, at, done).contains(x) ==> done.contains(x) || reachable(nodes, at, x),
        forall|x: Value| done.contains(x) ==> #[trigger] visit(nodes, at, done).contains(x),
        forall|x: Value|
            reachable(nodes, at, x) ==> #[trigger] visit(nodes, at, done).contains(x),
    decreases at.0, 1nat, 0nat,
{
    let after = visit(nodes, at, done);
    if done.contains(at) {
        assert forall|x: Value| reachable(nodes, at, x) implies #[trigger] after.contains(x) by {
            lemma_ordered_is_closed(nodes, done, at, x);
        }
    } else {
        let below = visit_operands(nodes, at, 0, done);
        lemma_visit_operands_ordered(nodes, at, 0, done);
        let n = below.len() as int;
        assert(after.len() == n + 1);
        assert(after[n] == at);
        assert(forall|i: int| 0 <= i < n ==> after[i] == below[i]);
        assert(!below.contains(at)) by {
            if below.contains(at) {
                lemma_reachable_is_earlier(nodes, at, at);
            }
        }
        assert(after.no_duplicates());
        assert forall|i: int, k: int|
            0 <= i < after.len() && 0 <= k < operands_of(nodes, after[i]).len()
            implies #[trigger] stands_before(after, operands_of(nodes, after[i])[k], i) by {
            let operand = operands_of(nodes, after[i])[k];
            if i < n {
                assert(stands_before(below, operands_of(nodes, below[i])[k], i));
                let j = choose|j: int| 0 <= j < i && j < below.len() && below[j] == operand;
                assert(after[j] == operand);
            } else {
                lemma_operand_reachable(nodes, at, k);
                assert(below.contains(operand));
                let j = choose|j: int| 0 <= j < below.len() && below[j] == operand;
                assert(after[j] == operand);
            }
        }
        assert(after.contains(at));
        assert forall|x: Value| #[trigger] after.contains(x)
            implies done.contains(x) || reachable(nodes, at, x) by {
            let i = choose|i: int| 0 <= i < after.len() && after[i] == x;
            if i < n {
                assert(below.contains(x));
            }
        }
        assert forall|x: Value| below.contains(x) implies #[trigger] after.contains(x) by {
            let i = choose|i: int| 0 <= i < below.len() && below[i] == x;
            assert(after[i] == x);
        }
    }
}

/// The visits of the operands of `at` from position `from` on keep the order
/// well built and add to it exactly what can be reached from those operands
/// and was not done.
pub proof fn lemma_visit_operands_ordered(
    nodes: Seq<Node>,
    at: Value,
    from: nat,
    done: Seq<Value>,
)
    requires
        well_formed(nodes),
        at.0 < nodes.len(),
        from <= operands_of(nodes, at).len(),
        ordered(nodes, done),
    ensures
        ordered(nodes, visit_operands(nodes, at, from, done)),
        forall|x: Value| #[trigger]
            visit_operands(nodes, at, from, done).contains(x)
                ==> done.contains(x) || reachable_below(nodes, at, from, x),
        forall|x: Value|
            done.contains(x) ==> #[trigger] visit_operands(nodes, at, from, done).contains(x),
        forall|x: Value|
            reachable_below(nodes, at, from, x)
                ==> #[trigger] visit_operands(nodes, at, from, done).contains(x),
    decreases at.0, 0nat, operands_of(nodes, at).len() - from,
{
    let operands = operands_of(nodes, at);
    let after = visit_operands(nodes, at, from, done);
    if from < operands.len() {
        let operand = operands[from as int];
        assert(operand.0 < at.0);
        let next = visit(nodes, operand, done);
        lemma_visit_ordered(nodes, operand, done);
        lemma_visit_operands_ordered(nodes, at, from + 1, next);
        assert forall|x: Value| #[trigger] after.contains(x)
            implies done.contains(x) || reachable_below(nodes, at, from, x) by {
            if !done.contains(x) {
                if next.contains(x) {
                    assert(reachable(nodes, operands[from as int], x));
                } else {
                    assert(reachable_below(nodes, at, from + 1, x));
                    let k = choose|k: int|
                        from + 1 <= k < operands.len() && (#[trigger] operands[k]).0 < at.0
                            && reachable(nodes, operands[k], x);
                    assert(reachable(nodes, operands[k], x));
                }
            }
        }
        assert forall|x: Value| reachable_below(nodes, at, from, x)
            implies #[trigger] after.contains(x) by {
            let k = choose|k: int|
                from <= k < operands.len() && (#[trigger] operands[k]).0 < at.0
                    && reachable(nodes, operands[k], x);
            if k == from {
                assert(next.contains(x));
            } else {
                assert(reachable(nodes, operands[k], x));
                assert(reachable_below(nodes, at, from + 1, x));
            }
        }
    }
}

impl Value {
    /// Visits this node depth first: unless it is marked, marks it, visits
    /// its operands from the first to the last, and then appends it to the
    /// order.
    ///
    /// The marks are those of the nodes that the traversal has entered. On
    /// entry every node of the order is marked, and up to this node nothing
    /// else is.
    pub fn build_topo<T: Copy>(
        &self,
        graph: &Graph<T>,
        visited: &mut Vec<bool>,
        order: &mut Vec<Value>,
    )
        requires
            graph.wf(),
            graph.has(*self),
            old(visited)@.len() == graph.shape().len(),
            marks_cover(old(visited)@, old(order)@),
            marks_within(old(visited)@, old(order)@, self.0 as int),
        ensures
            final(order)@ == visit(graph.shape(), *self, old(order)@),
            marks_joined(old(visited)@, final(visited)@, final(order)@),
        decreases self.0,
    {
        let ghost nodes = graph.shape();
        let ghost visited0 = visited@;
        let ghost order0 = order@;
        if visited[self.0] {
            assert(order0.contains(*self));
            return ;
        }
        visited.set(self.0, true);
        let prev = graph.node(*self).prev();
        let mut k: usize = 0;
        while k < prev.len()
            invariant
                graph.wf(),
                graph.has(*self),
                graph.shape() == nodes,
                prev@ == operands_of(nodes, *self),
                k <= prev@.len(),
                visited@.len() == nodes.len(),
                visited0.len() == nodes.len(),
                visited@[self.0 as int],
                !visited0[self.0 as int],
                marks_cover(visited0, order0),
                marks_cover(visited@, order@),
                marks_within(visited@, order@, self.0 - 1),
                visit_operands(nodes, *self, k as nat, order@)
                    == visit_operands(nodes, *self, 0, order0),
                forall|i: int| 0 <= i < visited0.len() && visited0[i] ==> #[trigger] visited@[i],
                forall|v: Value|
                    v.0 < nodes.len() && visited@[v.0 as int] && !visited0[v.0 as int] && v != *self
                        ==> #[trigger] order@.contains(v),
            decreases prev@.len() - k,
        {
            let operand = prev[k];
            proof {
                lemma_visit_extends(nodes, operand, order@);
            }
            operand.build_topo(graph, visited, order);
            k += 1;
        }
        order.push(*self);
        proof {
            assert(!order0.contains(*self));
            let below = visit_operands(nodes, *self, 0, order0);
            assert forall|v: Value| below.contains(v) || v == *self
                implies #[trigger] order@.contains(v) by {
                if below.contains(v) {
                    let i = choose|i: int| 0 <= i < below.len() && below[i] == v;
                    assert(order@[i] == v);
                } else {
                    assert(order@[below.len() as int] == v);
                }
            }
            assert forall|v: Value| #[trigger] order@.contains(v)
                implies below.contains(v) || v == *self by {
                let i = choose|i: int| 0 <= i < order@.len() && order@[i] == v;
                if i < below.len() {
                    assert(below[i] == v);
                }
            }
        }
    }
}

} // verus!
