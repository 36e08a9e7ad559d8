//! The gradient rules of the operations, and the backward pass as the
//! sequence of updates that they give.
//!
//! The pass seeds the gradient of the output and then lets every node below
//! it, in backward order, hand its gradient on to its operands by the rule of
//! its operation. Each update names the gradient it changes, the gradient it
//! reads and the factor between them.

use crate::order::backward_order;
use crate::value::{arity, operands_of, well_formed, InnerValue, Node, Op, Value};
use vstd::prelude::*;

verus! {

/// The local derivative by which a gradient is scaled on its way to an
/// operand.
#[derive(Clone, Copy, PartialEq, Eq, Structural, Debug, Hash)]
pub enum Factor {
    /// The constant one: the gradient is handed on as it is.
    One,
    /// The forward value of the named node.
    ValueOf(Value),
    /// One minus the square of the forward value of the named node.
    OneMinusSquare(Value),
}

/// One update of a gradient.
#[derive(Clone, Copy, PartialEq, Eq, Structural, Debug, Hash)]
pub enum Step {
    /// Set the gradient of the node to one, whatever it was.
    Seed(Value),
    /// Add to the gradient of `target` the gradient of `source`, scaled by
    /// `factor`.
    Accumulate { target: Value, source: Value, factor: Factor },
}

impl Factor {
    /// Whether the factor names no node, or one of the first `count` nodes.
    pub open spec fn within(self, count: nat) -> bool {
        match self {
            Factor::One => true,
            Factor::ValueOf(node) => node.0 < count,
            Factor::OneMinusSquare(node) => node.0 < count,
        }
    }
}

impl Step {
    /// Whether the step changes the gradient of `node`.
    pub open spec fn writes(self, node: Value) -> bool {
        match self {
            Step::Seed(seeded) => seeded == node,
            Step::Accumulate { target, .. } => target == node,
        }
    }

    /// Whether the step reads the gradient of `node`.
    pub open spec fn reads(self, node: Value) -> bool {
        match self {
            Step::Seed(_) => false,
            Step::Accumulate { source, .. } => source == node,
        }
    }

    /// Whether the step names only nodes among the first `count`.
    pub open spec fn within(self, count: nat) -> bool {
        match self {
            Step::Seed(seeded) => seeded.0 < count,
            Step::Accumulate { target, source, factor } => {
                target.0 < count && source.0 < count && factor.within(count)
            },
        }
    }
}

/// The updates by which a node hands its gradient on to its operands: one for
/// each operand slot, in the order of the slots. Where both slots of a
/// product hold one node, that node gets both updates, each scaled by its own
/// forward value.
pub open spec fn rule(node: Node, out: Value) -> Seq<Step> {
    match node.op {
        Op::Leaf => Seq::empty(),
        Op::Sum => seq![
            Step::Accumulate { target: node.operands[0], source: out, factor: Factor::One },
            Step::Accumulate { target: node.operands[1], source: out, factor: Factor::One },
        ],
        Op::Product => seq![
            Step::Accumulate {
                target: node.operands[0],
                source: out,
                factor: Factor::ValueOf(node.operands[1]),
            },
            Step::Accumulate {
                target: node.operands[1],
                source: out,
                factor: Factor::ValueOf(node.operands[0]),
            },
        ],
        Op::Tanh => seq![
            Step::Accumulate {
                target: node.operands[0],
                source: out,
                factor: Factor::OneMinusSquare(out),
            },
        ],
    }
}

/// The updates of the nodes of `order`, one node after the other.
pub open spec fn steps_of(nodes: Seq<Node>, order: Seq<Value>) -> Seq<Step>
    decreases order.len(),
{
    if order.len() == 0 {
        Seq::empty()
    } else {
        steps_of(nodes, order.drop_last()) + rule(nodes[order.last().0 as int], order.last())
    }
}

/// The whole backward pass from `output`: the seed, then the updates of the
/// nodes below `output` in backward order.
pub open spec fn backward_plan(nodes: Seq<Node>, output: Value) -> Seq<Step> {
    seq![Step::Seed(output)] + steps_of(nodes, backward_order(nodes, output))
}

/// `operand` stands in one of the operand slots of `user`.
pub open spec fn operand_of(nodes: Seq<Node>, operand: Value, user: Value) -> bool {
    user.0 < nodes.len() && exists|k: int|
        0 <= k < operands_of(nodes, user).len()
            && #[trigger] operands_of(nodes, user)[k] == operand
}

/// The step is one by which the node `at` hands its gradient on: it reads the
/// gradient of `at`, adds to the gradient of one of its operands, and names
/// only nodes of the graph.
pub open spec fn fired_by(nodes: Seq<Node>, step: Step, at: Value) -> bool {
    &&& step matches Step::Accumulate { target, source, .. }
    &&& source == at
    &&& operand_of(nodes, target, at)
    &&& step.within(nodes.len())
}

/// Wherever a node of the order is an operand of another, the other comes
/// first.
pub open spec fn users_first(nodes: Seq<Node>, order: Seq<Value>) -> bool {
    forall|i: int, j: int, k: int|
        0 <= i < order.len() && 0 <= j < order.len()
            && 0 <= k < operands_of(nodes, order[i]).len()
            && #[trigger] order[j] == #[trigger] operands_of(nodes, order[i])[k] ==> i < j
}

/// Every step of a node's rule is fired by that node.
pub proof fn lemma_rule_steps(nodes: Seq<Node>, at: Value, m: int)
    requires
        well_formed(nodes),
        at.0 < nodes.len(),
        0 <= m < rule(nodes[at.0 as int], at).len(),
    ensures
        fired_by(nodes, rule(nodes[at.0 as int], at)[m], at),
{
    let node = nodes[at.0 as int];
    assert(node.operands.len() == arity(node.op));
    match node.op {
        Op::Leaf => {},
        Op::Sum => {
            assert(node.operands[0].0 < at.0 && node.operands[1].0 < at.0);
        },
        Op::Product => {
            assert(node.operands[0].0 < at.0 && node.operands[1].0 < at.0);
        },
        Op::Tanh => {
            assert(node.operands[0].0 < at.0);
        },
    }
}

/// The updates of two orders, one after the other, are the updates of the
/// orders joined.
pub proof fn lemma_steps_of_joined(nodes: Seq<Node>, first: Seq<Value>, second: Seq<Value>)
    ensures
        steps_of(nodes, first + second) == steps_of(nodes, first) + steps_of(nodes, second),
    decreases second.len(),
{
    if second.len() == 0 {
        assert(first + second =~= first);
        assert(steps_of(nodes, first) + steps_of(nodes, second) =~= steps_of(nodes, first));
    } else {
        let joined = first + second;
        assert(joined.drop_last() =~= first + second.drop_last());
        assert(joined.last() == second.last());
        lemma_steps_of_joined(nodes, first, second.drop_last());
        assert(steps_of(nodes, joined) =~= steps_of(nodes, first) + steps_of(nodes, second));
    }
}

/// Every update of an order is fired by one of its nodes. The result is the
/// position of that node in the order.
pub proof fn lemma_step_origin(nodes: Seq<Node>, order: Seq<Value>, p: int) -> (a: int)
    requires
        well_formed(nodes),
        forall|i: int| 0 <= i < order.len() ==> (#[trigger] order[i]).0 < nodes.len(),
        0 <= p < steps_of(nodes, order).len(),
    ensures
        0 <= a < order.len(),
        fired_by(nodes, steps_of(nodes, order)[p], order[a]),
    decreases order.len(),
{
    let earlier = steps_of(nodes, order.drop_last());
    if p < earlier.len() {
        lemma_step_origin(nodes, order.drop_last(), p)
    } else {
        lemma_rule_steps(nodes, order.last(), p - earlier.len());
        order.len() - 1
    }
}

/// Where users come first, no update changes a gradient that an earlier
/// update has read.
pub proof fn lemma_steps_settled(nodes: Seq<Node>, order: Seq<Value>, p: int, q: int, x: Value)
    requires
        well_formed(nodes),
        forall|i: int| 0 <= i < order.len() ==> (#[trigger] order[i]).0 < nodes.len(),
        users_first(nodes, order),
        0 <= p < q < steps_of(nodes, order).len(),
        steps_of(nodes, order)[p].reads(x),
    ensures
        !steps_of(nodes, order)[q].writes(x),
    decreases order.len(),
{
    let steps = steps_of(nodes, order);
    let rest = order.drop_last();
    let earlier = steps_of(nodes, rest);
    let last = order.last();
    if q < earlier.len() {
        assert(users_first(nodes, rest)) by {
            assert forall|i: int, j: int, k: int|
                0 <= i < rest.len() && 0 <= j < rest.len()
                    && 0 <= k < operands_of(nodes, rest[i]).len()
                    && #[trigger] rest[j] == #[trigger] operands_of(nodes, rest[i])[k]
                implies i < j by {
                assert(order[j] == operands_of(nodes, order[i])[k]);
            }
        }
        lemma_steps_settled(nodes, rest, p, q, x);
    } else {
        lemma_rule_steps(nodes, last, q - earlier.len());
        if steps[q].writes(x) {
            let k = choose|k: int|
                0 <= k < operands_of(nodes, last).len()
                    && #[trigger] operands_of(nodes, last)[k] == x;
            if p < earlier.len() {
                let a = lemma_step_origin(nodes, rest, p);
                assert(order[a] == operands_of(nodes, order[order.len() - 1])[k]);
            } else {
                lemma_rule_steps(nodes, last, p - earlier.len());
                assert(operands_of(nodes, last)[k].0 < last.0);
            }
        }
    }
}

impl<T: Copy> InnerValue<T> {
    /// The updates by which this node, standing at `out`, hands its gradient
    /// on to its operands.
    pub fn propagate(&self, out: Value) -> (steps: Vec<Step>)
        requires
            self@.operands.len() == arity(self@.op),
        ensures
            steps@ == rule(self@.node(), out),
    {
        let prev = self.prev();
        let mut steps: Vec<Step> = Vec::new();
        match self.op() {
            Op::Leaf => {},
            Op::Sum => {
                steps.push(Step::Accumulate { target: prev[0], source: out, factor: Factor::One });
                steps.push(Step::Accumulate { target: prev[1], source: out, factor: Factor::One });
            },
            Op::Product => {
                let first = prev[0];
                let second = prev[1];
                let by_second = Factor::ValueOf(second);
                let by_first = Factor::ValueOf(first);
                steps.push(Step::Accumulate { target: first, source: out, factor: by_second });
                steps.push(Step::Accumulate { target: second, source: out, factor: by_first });
            },
            Op::Tanh => {
                steps.push(
                    Step::Accumulate {
                        target: prev[0],
                        source: out,
                        factor: Factor::OneMinusSquare(out),
                    },
                );
            },
        }
        assert(steps@ =~= rule(self@.node(), out));
        steps
    }
}

} // verus!
