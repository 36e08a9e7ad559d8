//! What holds of every graph and every backward pass.
//!
//! The laws on gradients are stated of [`run`] on [`backward_plan`], which is
//! what [`Value::backward`] leaves in the gradients of a graph, and hold for
//! every arithmetic.

use crate::arithmetic::Arithmetic;
use crate::order::{
    backward_order, lemma_operand_reachable, lemma_reachable_is_earlier,
    lemma_reachable_transitive, lemma_visit_ordered, ordered, post_order, reachable,
    stands_before,
};
use crate::pass::{
    all_within, apply, lemma_run_joined, lemma_run_keeps_length, lemma_run_keeps_untouched, run,
    scaled,
};
use crate::rule::{
    backward_plan, lemma_rule_steps, lemma_step_origin, lemma_steps_of_joined,
    lemma_steps_settled, rule, steps_of, users_first, Step,
};
use crate::value::{
    evaluated, evaluated_at, node_fits, operands_of, well_formed, Graph, Node, Op, Value,
};
use vstd::prelude::*;

verus! {

/// The post-order below an output is an order that a traversal has built, and
/// the backward order is that order read from its end.
pub proof fn lemma_backward_order(nodes: Seq<Node>, output: Value)
    requires
        well_formed(nodes),
        output.0 < nodes.len(),
    ensures
        ordered(nodes, post_order(nodes, output)),
        post_order(nodes, output).len() > 0,
        post_order(nodes, output).last() == output,
        backward_order(nodes, output).len() == post_order(nodes, output).len(),
        forall|i: int|
            0 <= i < post_order(nodes, output).len()
                ==> #[trigger] backward_order(nodes, output)[i]
                    == post_order(nodes, output)[post_order(nodes, output).len() - 1 - i],
{
    lemma_visit_ordered(nodes, output, Seq::empty());
}

/// The backward order holds exactly the nodes that can be reached from the
/// output.
pub proof fn law_order_holds_what_is_reachable(nodes: Seq<Node>, output: Value, x: Value)
    requires
        well_formed(nodes),
        output.0 < nodes.len(),
    ensures
        backward_order(nodes, output).contains(x) <==> reachable(nodes, output, x),
{
    let post = post_order(nodes, output);
    let turns = backward_order(nodes, output);
    lemma_backward_order(nodes, output);
    lemma_visit_ordered(nodes, output, Seq::empty());
    if turns.contains(x) {
        let i = choose|i: int| 0 <= i < turns.len() && turns[i] == x;
        assert(post[post.len() - 1 - i] == x);
        assert(post.contains(x));
    }
    if reachable(nodes, output, x) {
        assert(post.contains(x));
        let i = choose|i: int| 0 <= i < post.len() && post[i] == x;
        assert(turns[post.len() - 1 - i] == x);
    }
}

/// No node has two turns in the backward order.
pub proof fn law_order_has_no_repeats(nodes: Seq<Node>, output: Value)
    requires
        well_formed(nodes),
        output.0 < nodes.len(),
    ensures
        backward_order(nodes, output).no_duplicates(),
{
    lemma_backward_order(nodes, output);
}

/// The backward order starts with the output.
pub proof fn law_order_starts_with_output(nodes: Seq<Node>, output: Value)
    requires
        well_formed(nodes),
        output.0 < nodes.len(),
    ensures
        backward_order(nodes, output).len() > 0,
        backward_order(nodes, output)[0] == output,
{
    lemma_backward_order(nodes, output);
}

/// In the backward order a node comes strictly after every node that has it
/// as an operand: where the node at position `j` is an operand of the node at
/// position `i`, `i` is before `j`.
pub proof fn law_users_come_first(nodes: Seq<Node>, output: Value, i: int, j: int, k: int)
    requires
        well_formed(nodes),
        output.0 < nodes.len(),
        0 <= i < backward_order(nodes, output).len(),
        0 <= j < backward_order(nodes, output).len(),
        0 <= k < operands_of(nodes, backward_order(nodes, output)[i]).len(),
        backward_order(nodes, output)[j]
            == operands_of(nodes, backward_order(nodes, output)[i])[k],
    ensures
        i < j,
{
    let post = post_order(nodes, output);
    let turns = backward_order(nodes, output);
    lemma_backward_order(nodes, output);
    let pi = post.len() - 1 - i;
    let pj = post.len() - 1 - j;
    assert(turns[i] == post[pi]);
    assert(turns[j] == post[pj]);
    assert(stands_before(post, operands_of(nodes, post[pi])[k], pi));
}

/// The backward order holds nodes of the graph only, and in it users come
/// first, whatever the positions.
pub proof fn lemma_backward_users_first(nodes: Seq<Node>, output: Value)
    requires
        well_formed(nodes),
        output.0 < nodes.len(),
    ensures
        users_first(nodes, backward_order(nodes, output)),
        forall|i: int|
            0 <= i < backward_order(nodes, output).len()
                ==> (#[trigger] backward_order(nodes, output)[i]).0 < nodes.len(),
{
    let turns = backward_order(nodes, output);
    lemma_backward_order(nodes, output);
    assert forall|i: int, j: int, k: int|
        0 <= i < turns.len() && 0 <= j < turns.len()
            && 0 <= k < operands_of(nodes, turns[i]).len()
            && #[trigger] turns[j] == #[trigger] operands_of(nodes, turns[i])[k]
        implies i < j by {
        law_users_come_first(nodes, output, i, j, k);
    }
}

/// Every step of a backward pass names only nodes of the graph.
pub proof fn law_plan_stays_within(nodes: Seq<Node>, output: Value)
    requires
        well_formed(nodes),
        output.0 < nodes.len(),
    ensures
        all_within(backward_plan(nodes, output), nodes.len()),
{
    let plan = backward_plan(nodes, output);
    lemma_backward_users_first(nodes, output);
    assert forall|i: int| 0 <= i < plan.len()
        implies (#[trigger] plan[i]).within(nodes.len()) by {
        if i > 0 {
            let a = lemma_step_origin(nodes, backward_order(nodes, output), i - 1);
        }
    }
}

/// When a step of a backward pass reads the gradient of a node, that
/// gradient is final: no later step changes it. So a node hands on a gradient
/// to which every node that uses it has already added.
pub proof fn law_gradient_is_final_when_read(
    nodes: Seq<Node>,
    output: Value,
    p: int,
    q: int,
    x: Value,
)
    requires
        well_formed(nodes),
        output.0 < nodes.len(),
        0 <= p < q < backward_plan(nodes, output).len(),
        backward_plan(nodes, output)[p].reads(x),
    ensures
        !backward_plan(nodes, output)[q].writes(x),
{
    lemma_backward_users_first(nodes, output);
    lemma_steps_settled(nodes, backward_order(nodes, output), p - 1, q - 1, x);
}

/// A backward pass changes only gradients of nodes that can be reached from
/// its output.
pub proof fn law_plan_writes_only_below_output(nodes: Seq<Node>, output: Value, i: int, x: Value)
    requires
        well_formed(nodes),
        output.0 < nodes.len(),
        0 <= i < backward_plan(nodes, output).len(),
        backward_plan(nodes, output)[i].writes(x),
    ensures
        reachable(nodes, output, x),
{
    let turns = backward_order(nodes, output);
    lemma_backward_users_first(nodes, output);
    if i > 0 {
        let a = lemma_step_origin(nodes, turns, i - 1);
        let user = turns[a];
        assert(turns.contains(user));
        law_order_holds_what_is_reachable(nodes, output, user);
        let k = choose|k: int|
            0 <= k < operands_of(nodes, user).len()
                && #[trigger] operands_of(nodes, user)[k] == x;
        lemma_operand_reachable(nodes, user, k);
        lemma_reachable_transitive(nodes, output, user, x);
    }
}

/// The gradient of the output is changed by the seed, which comes first, and
/// by nothing after it.
pub proof fn law_output_is_only_seeded(nodes: Seq<Node>, output: Value, i: int)
    requires
        well_formed(nodes),
        output.0 < nodes.len(),
        0 < i < backward_plan(nodes, output).len(),
    ensures
        backward_plan(nodes, output)[0] == Step::Seed(output),
        !backward_plan(nodes, output)[i].writes(output),
{
    let turns = backward_order(nodes, output);
    lemma_backward_users_first(nodes, output);
    if backward_plan(nodes, output)[i].writes(output) {
        let a = lemma_step_origin(nodes, turns, i - 1);
        let user = turns[a];
        assert(turns.contains(user));
        law_order_holds_what_is_reachable(nodes, output, user);
        lemma_reachable_is_earlier(nodes, output, user);
        let k = choose|k: int|
            0 <= k < operands_of(nodes, user).len()
                && #[trigger] operands_of(nodes, user)[k] == output;
        assert(operands_of(nodes, user)[k].0 < user.0);
    }
}

/// The updates of the plan that read the gradient of `node`, in their order.
pub open spec fn read_by(plan: Seq<Step>, node: Value) -> Seq<Step> {
    plan.filter(|step: Step| step.reads(node))
}

/// Of updates that all read the gradient of one node, those that read the
/// gradient of `x` are all of them or none.
proof fn lemma_read_by_one_reader(steps: Seq<Step>, at: Value, x: Value)
    requires
        forall|i: int| 0 <= i < steps.len() ==> (#[trigger] steps[i]).reads(at),
    ensures
        read_by(steps, x) == if x == at { steps } else { Seq::empty() },
    decreases steps.len(),
{
    reveal(Seq::filter);
    if steps.len() > 0 {
        let rest = steps.drop_last();
        assert forall|i: int| 0 <= i < rest.len() implies (#[trigger] rest[i]).reads(at) by {
            assert(rest[i] == steps[i]);
        }
        lemma_read_by_one_reader(rest, at, x);
        assert(steps.last() == steps[steps.len() - 1]);
        assert(steps.last().reads(x) <==> x == at);
        if x == at {
            assert(rest.push(steps.last()) =~= steps);
        }
    }
}

/// The updates of an order without repeats that read the gradient of `x` are
/// those of the rule of `x` where `x` is in the order, and none where it is
/// not.
proof fn lemma_steps_read_by(nodes: Seq<Node>, order: Seq<Value>, x: Value)
    requires
        well_formed(nodes),
        forall|i: int| 0 <= i < order.len() ==> (#[trigger] order[i]).0 < nodes.len(),
        order.no_duplicates(),
    ensures
        read_by(steps_of(nodes, order), x) == if order.contains(x) {
            rule(nodes[x.0 as int], x)
        } else {
            Seq::empty()
        },
    decreases order.len(),
{
    let reads = |step: Step| step.reads(x);
    if order.len() == 0 {
        reveal(Seq::filter);
    } else {
        let rest = order.drop_last();
        let last = order.last();
        let fired = rule(nodes[last.0 as int], last);
        assert forall|i: int| 0 <= i < rest.len() implies (#[trigger] rest[i]).0 < nodes.len() by {
            assert(rest[i] == order[i]);
        }
        assert(rest.no_duplicates()) by {
            assert forall|i: int, j: int|
                0 <= i < rest.len() && 0 <= j < rest.len() && i != j implies rest[i] != rest[j] by {
                assert(rest[i] == order[i] && rest[j] == order[j]);
            }
        }
        lemma_steps_read_by(nodes, rest, x);
        assert forall|i: int| 0 <= i < fired.len() implies (#[trigger] fired[i]).reads(last) by {
            lemma_rule_steps(nodes, last, i);
        }
        lemma_read_by_one_reader(fired, last, x);
        Seq::filter_distributes_over_add(steps_of(nodes, rest), fired, reads);
        assert(order[order.len() - 1] == last);
        if rest.contains(x) {
            let i = choose|i: int| 0 <= i < rest.len() && rest[i] == x;
            assert(order[i] == x);
            assert(last != x);
            assert(rule(nodes[x.0 as int], x) + Seq::<Step>::empty()
                =~= rule(nodes[x.0 as int], x));
        } else if last == x {
            assert(Seq::<Step>::empty() + fired =~= fired);
        } else {
            assert(!order.contains(x)) by {
                if order.contains(x) {
                    let i = choose|i: int| 0 <= i < order.len() && order[i] == x;
                    assert(rest[i] == x);
                }
            }
            assert(Seq::<Step>::empty() + Seq::<Step>::empty() =~= Seq::<Step>::empty());
        }
    }
}

/// Every node below the output hands its gradient on exactly once: the
/// updates of a backward pass that read the gradient of a node are those of
/// the rule of that node, once, where the node can be reached from the
/// output, and none where it cannot.
pub proof fn law_each_node_hands_on_once(nodes: Seq<Node>, output: Value, x: Value)
    requires
        well_formed(nodes),
        output.0 < nodes.len(),
    ensures
        read_by(backward_plan(nodes, output), x) == if reachable(nodes, output, x) {
            rule(nodes[x.0 as int], x)
        } else {
            Seq::empty()
        },
{
    let turns = backward_order(nodes, output);
    let seed = seq![Step::Seed(output)];
    let reads = |step: Step| step.reads(x);
    lemma_backward_users_first(nodes, output);
    law_order_has_no_repeats(nodes, output);
    law_order_holds_what_is_reachable(nodes, output, x);
    lemma_steps_read_by(nodes, turns, x);
    Seq::filter_distributes_over_add(seed, steps_of(nodes, turns), reads);
    assert(seed.filter(reads) =~= Seq::<Step>::empty()) by {
        reveal(Seq::filter);
        assert(seed.drop_last() =~= Seq::<Step>::empty());
        assert(seed.drop_last().filter(reads) =~= Seq::<Step>::empty());
    }
    assert(Seq::<Step>::empty() + read_by(steps_of(nodes, turns), x)
        =~= read_by(steps_of(nodes, turns), x));
}

/// Going from a node to an operand that stands before it never leads back:
/// two nodes that can be reached from each other are one node. In a graph
/// that is well formed every operand stands before its node, so that no way
/// along operands is a cycle.
pub proof fn law_graph_has_no_cycle(nodes: Seq<Node>, a: Value, b: Value)
    requires
        reachable(nodes, a, b),
        reachable(nodes, b, a),
    ensures
        a == b,
{
    lemma_reachable_is_earlier(nodes, a, b);
    lemma_reachable_is_earlier(nodes, b, a);
}

/// A node that cannot be reached from the output keeps its gradient through
/// a backward pass.
pub proof fn law_unreached_gradient_is_kept<T>(
    ar: Arithmetic<T>,
    nodes: Seq<Node>,
    values: Seq<T>,
    gradients: Seq<T>,
    output: Value,
    x: Value,
)
    requires
        well_formed(nodes),
        output.0 < nodes.len(),
        gradients.len() == nodes.len(),
        x.0 < nodes.len(),
        !reachable(nodes, output, x),
    ensures
        run(ar, values, gradients, backward_plan(nodes, output))[x.0 as int]
            == gradients[x.0 as int],
{
    let plan = backward_plan(nodes, output);
    law_plan_stays_within(nodes, output);
    assert forall|i: int| 0 <= i < plan.len() implies !(#[trigger] plan[i]).writes(x) by {
        if plan[i].writes(x) {
            law_plan_writes_only_below_output(nodes, output, i, x);
        }
    }
    lemma_run_keeps_untouched(ar, values, gradients, plan, x);
}

/// After a backward pass the gradient of the output is one, whatever it was.
pub proof fn law_output_gradient_is_one<T>(
    ar: Arithmetic<T>,
    nodes: Seq<Node>,
    values: Seq<T>,
    gradients: Seq<T>,
    output: Value,
)
    requires
        well_formed(nodes),
        output.0 < nodes.len(),
        gradients.len() == nodes.len(),
    ensures
        run(ar, values, gradients, backward_plan(nodes, output))[output.0 as int] == ar.one,
{
    let plan = backward_plan(nodes, output);
    let seed = seq![Step::Seed(output)];
    let rest = steps_of(nodes, backward_order(nodes, output));
    law_plan_stays_within(nodes, output);
    assert forall|i: int| 0 <= i < rest.len()
        implies (#[trigger] rest[i]).within(nodes.len()) && !rest[i].writes(output) by {
        assert(plan[i + 1] == rest[i]);
        law_output_is_only_seeded(nodes, output, i + 1);
    }
    lemma_run_joined(ar, values, gradients, seed, rest);
    let seeded = run(ar, values, gradients, seed);
    assert(seed.drop_last() =~= Seq::<Step>::empty());
    assert(run(ar, values, gradients, seed.drop_last()) == gradients);
    assert(seeded == gradients.update(output.0 as int, ar.one));
    lemma_run_keeps_untouched(ar, values, seeded, rest, output);
}

/// What the updates of `plan` make of the gradient `start` of the node `x`,
/// where every update that adds to it scales the gradient that its source has
/// in `finals`.
pub open spec fn gathered<T>(
    ar: Arithmetic<T>,
    values: Seq<T>,
    finals: Seq<T>,
    plan: Seq<Step>,
    x: Value,
    start: T,
) -> T
    decreases plan.len(),
{
    if plan.len() == 0 {
        start
    } else {
        let before = gathered(ar, values, finals, plan.drop_last(), x, start);
        match plan.last() {
            Step::Seed(node) => if node == x {
                ar.one
            } else {
                before
            },
            Step::Accumulate { target, source, factor } => if target == x {
                (ar.add)(before, scaled(ar, values, factor, finals[source.0 as int]))
            } else {
                before
            },
        }
    }
}

/// The first `n` updates of a backward pass leave in every gradient what
/// they gather from the gradients as they are at the end of the pass.
proof fn lemma_prefix_gathers<T>(
    ar: Arithmetic<T>,
    nodes: Seq<Node>,
    values: Seq<T>,
    gradients: Seq<T>,
    output: Value,
    n: int,
    x: Value,
)
    requires
        well_formed(nodes),
        output.0 < nodes.len(),
        gradients.len() == nodes.len(),
        0 <= n <= backward_plan(nodes, output).len(),
        x.0 < nodes.len(),
    ensures
        run(ar, values, gradients, backward_plan(nodes, output).take(n))[x.0 as int] == gathered(
            ar,
            values,
            run(ar, values, gradients, backward_plan(nodes, output)),
            backward_plan(nodes, output).take(n),
            x,
            gradients[x.0 as int],
        ),
    decreases n,
{
    let plan = backward_plan(nodes, output);
    let finals = run(ar, values, gradients, plan);
    if n > 0 {
        let done = plan.take(n);
        let earlier = plan.take(n - 1);
        let later = plan.skip(n - 1);
        let step = plan[n - 1];
        assert(done.drop_last() =~= earlier);
        assert(done.last() == step);
        lemma_prefix_gathers(ar, nodes, values, gradients, output, n - 1, x);
        law_plan_stays_within(nodes, output);
        assert(all_within(earlier, nodes.len())) by {
            assert forall|i: int| 0 <= i < earlier.len()
                implies (#[trigger] earlier[i]).within(nodes.len()) by {
                assert(earlier[i] == plan[i]);
            }
        }
        lemma_run_keeps_length(ar, values, gradients, earlier);
        let reached = run(ar, values, gradients, earlier);
        match step {
            Step::Seed(node) => {},
            Step::Accumulate { target, source, factor } => {
                assert(plan =~= earlier + later);
                lemma_run_joined(ar, values, gradients, earlier, later);
                assert forall|i: int| 0 <= i < later.len()
                    implies (#[trigger] later[i]).within(nodes.len())
                        && !later[i].writes(source) by {
                    assert(later[i] == plan[n - 1 + i]);
                    if i == 0 {
                        lemma_backward_users_first(nodes, output);
                        let a = lemma_step_origin(nodes, backward_order(nodes, output), n - 2);
                        let k = choose|k: int|
                            0 <= k < operands_of(nodes, source).len()
                                && #[trigger] operands_of(nodes, source)[k] == target;
                        assert(operands_of(nodes, source)[k].0 < source.0);
                    } else {
                        law_gradient_is_final_when_read(nodes, output, n - 1, n - 1 + i, source);
                    }
                }
                lemma_run_keeps_untouched(ar, values, reached, later, source);
                assert(finals[source.0 as int] == reached[source.0 as int]);
            },
        }
    }
}

/// The chain rule, as the pass adds it up: after a backward pass the gradient
/// of a node is what it was, with the term of every update that targets the
/// node added in the order of the pass, and each term is the final gradient of
/// the update's source, scaled by the update's factor. For the output it is
/// one.
pub proof fn law_gradient_gathers_final_terms<T>(
    ar: Arithmetic<T>,
    nodes: Seq<Node>,
    values: Seq<T>,
    gradients: Seq<T>,
    output: Value,
    x: Value,
)
    requires
        well_formed(nodes),
        output.0 < nodes.len(),
        gradients.len() == nodes.len(),
        x.0 < nodes.len(),
    ensures
        ({
            let plan = backward_plan(nodes, output);
            let finals = run(ar, values, gradients, plan);
            finals[x.0 as int] == gathered(ar, values, finals, plan, x, gradients[x.0 as int])
        }),
{
    let plan = backward_plan(nodes, output);
    lemma_prefix_gathers(ar, nodes, values, gradients, output, plan.len() as int, x);
    assert(plan.take(plan.len() as int) =~= plan);
}

/// `x` is below no operand of `at` but itself: the only way from `at` down to
/// `x` is the step from `at` to its operand `x`.
pub open spec fn met_only_directly(nodes: Seq<Node>, at: Value, x: Value) -> bool {
    forall|k: int|
        0 <= k < operands_of(nodes, at).len()
            && reachable(nodes, #[trigger] operands_of(nodes, at)[k], x)
            ==> operands_of(nodes, at)[k] == x
}

/// Where the only way from the output down to `x` is one step, the gradient
/// of `x` after a backward pass is what the seed and the rule of the output
/// alone leave in it.
pub proof fn lemma_operand_gets_rule_only<T>(
    ar: Arithmetic<T>,
    nodes: Seq<Node>,
    values: Seq<T>,
    gradients: Seq<T>,
    output: Value,
    x: Value,
)
    requires
        well_formed(nodes),
        output.0 < nodes.len(),
        gradients.len() == nodes.len(),
        x.0 < nodes.len(),
        met_only_directly(nodes, output, x),
    ensures
        run(ar, values, gradients, backward_plan(nodes, output))[x.0 as int] == run(
            ar,
            values,
            gradients,
            seq![Step::Seed(output)] + rule(nodes[output.0 as int], output),
        )[x.0 as int],
{
    let turns = backward_order(nodes, output);
    let plan = backward_plan(nodes, output);
    lemma_backward_users_first(nodes, output);
    lemma_backward_order(nodes, output);
    law_plan_stays_within(nodes, output);
    let head = seq![output];
    let tail = turns.subrange(1, turns.len() as int);
    assert(turns =~= head + tail);
    lemma_steps_of_joined(nodes, head, tail);
    assert(head.drop_last() =~= Seq::<Value>::empty());
    assert(steps_of(nodes, head.drop_last()) =~= Seq::<Step>::empty());
    assert(steps_of(nodes, head) =~= rule(nodes[output.0 as int], output));
    let first = seq![Step::Seed(output)] + rule(nodes[output.0 as int], output);
    let rest = steps_of(nodes, tail);
    assert(plan =~= first + rest);
    assert forall|i: int| 0 <= i < first.len()
        implies (#[trigger] first[i]).within(nodes.len()) by {
        assert(plan[i] == first[i]);
    }
    assert forall|i: int| 0 <= i < rest.len()
        implies (#[trigger] rest[i]).within(nodes.len()) && !rest[i].writes(x) by {
        assert(plan[first.len() + i] == rest[i]);
        let a = lemma_step_origin(nodes, tail, i);
        let user = tail[a];
        if rest[i].writes(x) {
            assert(user == turns[a + 1]);
            assert(turns.contains(user));
            law_order_holds_what_is_reachable(nodes, output, user);
            assert(user != output);
            let k = choose|k: int|
                0 <= k < operands_of(nodes, output).len()
                    && (#[trigger] operands_of(nodes, output)[k]).0 < output.0
                    && reachable(nodes, operands_of(nodes, output)[k], user);
            let operand = operands_of(nodes, output)[k];
            let slot = choose|slot: int|
                0 <= slot < operands_of(nodes, user).len()
                    && #[trigger] operands_of(nodes, user)[slot] == x;
            lemma_operand_reachable(nodes, user, slot);
            lemma_reachable_transitive(nodes, operand, user, x);
            assert(operand == x);
            lemma_reachable_is_earlier(nodes, x, user);
        }
    }
    lemma_run_joined(ar, values, gradients, first, rest);
    lemma_run_keeps_length(ar, values, gradients, first);
    lemma_run_keeps_untouched(ar, values, run(ar, values, gradients, first), rest, x);
}

/// A seed and up to two updates after it, carried out one by one.
proof fn lemma_short_run<T>(
    ar: Arithmetic<T>,
    values: Seq<T>,
    gradients: Seq<T>,
    seed: Step,
    steps: Seq<Step>,
)
    requires
        steps.len() <= 2,
    ensures
        steps.len() == 0 ==> run(ar, values, gradients, seq![seed] + steps)
            == apply(ar, values, gradients, seed),
        steps.len() == 1 ==> run(ar, values, gradients, seq![seed] + steps)
            == apply(ar, values, apply(ar, values, gradients, seed), steps[0]),
        steps.len() == 2 ==> run(ar, values, gradients, seq![seed] + steps) == apply(
            ar,
            values,
            apply(ar, values, apply(ar, values, gradients, seed), steps[0]),
            steps[1],
        ),
{
    let head = seq![seed];
    assert(head.drop_last() =~= Seq::<Step>::empty());
    assert(run(ar, values, gradients, head.drop_last()) == gradients);
    assert(run(ar, values, gradients, head) == apply(ar, values, gradients, seed));
    if steps.len() == 0 {
        assert(head + steps =~= head);
    } else if steps.len() == 1 {
        let plan = head + steps;
        assert(plan.drop_last() =~= head);
        assert(plan.last() == steps[0]);
    } else {
        let plan = head + steps;
        let shorter = plan.drop_last();
        assert(shorter.drop_last() =~= head);
        assert(shorter.last() == steps[0]);
        assert(plan.last() == steps[1]);
        assert(run(ar, values, gradients, shorter)
            == apply(ar, values, run(ar, values, gradients, head), steps[0]));
    }
}

/// The sum rule: after a backward pass from the sum of two different nodes,
/// neither of which can be reached from the other, the gradient of each has
/// grown by one.
pub proof fn law_sum_rule<T>(
    ar: Arithmetic<T>,
    nodes: Seq<Node>,
    values: Seq<T>,
    gradients: Seq<T>,
    output: Value,
)
    requires
        well_formed(nodes),
        output.0 < nodes.len(),
        gradients.len() == nodes.len(),
        nodes[output.0 as int].op == Op::Sum,
        operands_of(nodes, output)[0] != operands_of(nodes, output)[1],
        !reachable(nodes, operands_of(nodes, output)[0], operands_of(nodes, output)[1]),
        !reachable(nodes, operands_of(nodes, output)[1], operands_of(nodes, output)[0]),
    ensures
        ({
            let a = operands_of(nodes, output)[0];
            let b = operands_of(nodes, output)[1];
            let after = run(ar, values, gradients, backward_plan(nodes, output));
            &&& after[a.0 as int] == (ar.add)(gradients[a.0 as int], ar.one)
            &&& after[b.0 as int] == (ar.add)(gradients[b.0 as int], ar.one)
        }),
{
    let a = operands_of(nodes, output)[0];
    let b = operands_of(nodes, output)[1];
    let steps = rule(nodes[output.0 as int], output);
    assert(a.0 < output.0 && b.0 < output.0);
    lemma_operand_gets_rule_only(ar, nodes, values, gradients, output, a);
    lemma_operand_gets_rule_only(ar, nodes, values, gradients, output, b);
    lemma_short_run(ar, values, gradients, Step::Seed(output), steps);
}

/// The sum of a node with itself: after a backward pass from it, the gradient
/// of the node has grown twice by one.
pub proof fn law_self_sum_rule<T>(
    ar: Arithmetic<T>,
    nodes: Seq<Node>,
    values: Seq<T>,
    gradients: Seq<T>,
    output: Value,
)
    requires
        well_formed(nodes),
        output.0 < nodes.len(),
        gradients.len() == nodes.len(),
        nodes[output.0 as int].op == Op::Sum,
        operands_of(nodes, output)[0] == operands_of(nodes, output)[1],
    ensures
        ({
            let a = operands_of(nodes, output)[0];
            let after = run(ar, values, gradients, backward_plan(nodes, output));
            after[a.0 as int] == (ar.add)((ar.add)(gradients[a.0 as int], ar.one), ar.one)
        }),
{
    let a = operands_of(nodes, output)[0];
    let steps = rule(nodes[output.0 as int], output);
    assert(a.0 < output.0);
    lemma_operand_gets_rule_only(ar, nodes, values, gradients, output, a);
    lemma_short_run(ar, values, gradients, Step::Seed(output), steps);
}

/// The product rule: after a backward pass from the product of two
/// different nodes, neither of which can be reached from the other, the
/// gradient of each has grown by the value of the other, times one.
pub proof fn law_product_rule<T>(
    ar: Arithmetic<T>,
    nodes: Seq<Node>,
    values: Seq<T>,
    gradients: Seq<T>,
    output: Value,
)
    requires
        well_formed(nodes),
        output.0 < nodes.len(),
        gradients.len() == nodes.len(),
        nodes[output.0 as int].op == Op::Product,
        operands_of(nodes, output)[0] != operands_of(nodes, output)[1],
        !reachable(nodes, operands_of(nodes, output)[0], operands_of(nodes, output)[1]),
        !reachable(nodes, operands_of(nodes, output)[1], operands_of(nodes, output)[0]),
    ensures
        ({
            let a = operands_of(nodes, output)[0];
            let b = operands_of(nodes, output)[1];
            let after = run(ar, values, gradients, backward_plan(nodes, output));
            &&& after[a.0 as int]
                == (ar.add)(gradients[a.0 as int], (ar.mul)(values[b.0 as int], ar.one))
            &&& after[b.0 as int]
                == (ar.add)(gradients[b.0 as int], (ar.mul)(values[a.0 as int], ar.one))
        }),
{
    let a = operands_of(nodes, output)[0];
    let b = operands_of(nodes, output)[1];
    let steps = rule(nodes[output.0 as int], output);
    assert(a.0 < output.0 && b.0 < output.0);
    lemma_operand_gets_rule_only(ar, nodes, values, gradients, output, a);
    lemma_operand_gets_rule_only(ar, nodes, values, gradients, output, b);
    lemma_short_run(ar, values, gradients, Step::Seed(output), steps);
}

/// The product of a node with itself: after a backward pass from it, the
/// gradient of the node has grown twice by its own value, times one. Both
/// terms are computed from the value of the node, which the pass never
/// changes.
pub proof fn law_self_product_rule<T>(
    ar: Arithmetic<T>,
    nodes: Seq<Node>,
    values: Seq<T>,
    gradients: Seq<T>,
    output: Value,
)
    requires
        well_formed(nodes),
        output.0 < nodes.len(),
        gradients.len() == nodes.len(),
        nodes[output.0 as int].op == Op::Product,
        operands_of(nodes, output)[0] == operands_of(nodes, output)[1],
    ensures
        ({
            let a = operands_of(nodes, output)[0];
            let term = (ar.mul)(values[a.0 as int], ar.one);
            let after = run(ar, values, gradients, backward_plan(nodes, output));
            after[a.0 as int] == (ar.add)((ar.add)(gradients[a.0 as int], term), term)
        }),
{
    let a = operands_of(nodes, output)[0];
    let steps = rule(nodes[output.0 as int], output);
    assert(a.0 < output.0);
    lemma_operand_gets_rule_only(ar, nodes, values, gradients, output, a);
    lemma_short_run(ar, values, gradients, Step::Seed(output), steps);
}

/// The tanh rule: after a backward pass from the hyperbolic tangent of a
/// node, the gradient of the node has grown by one minus the square of the
/// output's value, times one.
pub proof fn law_tanh_rule<T>(
    ar: Arithmetic<T>,
    nodes: Seq<Node>,
    values: Seq<T>,
    gradients: Seq<T>,
    output: Value,
)
    requires
        well_formed(nodes),
        output.0 < nodes.len(),
        gradients.len() == nodes.len(),
        nodes[output.0 as int].op == Op::Tanh,
    ensures
        ({
            let a = operands_of(nodes, output)[0];
            let t = values[output.0 as int];
            let slope = (ar.sub)(ar.one, (ar.mul)(t, t));
            let after = run(ar, values, gradients, backward_plan(nodes, output));
            after[a.0 as int] == (ar.add)(gradients[a.0 as int], (ar.mul)(slope, ar.one))
        }),
{
    let a = operands_of(nodes, output)[0];
    let steps = rule(nodes[output.0 as int], output);
    assert(a.0 < output.0);
    lemma_operand_gets_rule_only(ar, nodes, values, gradients, output, a);
    lemma_short_run(ar, values, gradients, Step::Seed(output), steps);
}

/// The nodes `u` and `v` stand for the same expression: they have the same
/// operation, and as leaves equal values, else operands that stand for the
/// same expressions, slot by slot.
pub open spec fn same_expression<T>(nodes: Seq<Node>, values: Seq<T>, u: Value, v: Value) -> bool
    decreases u.0,
{
    &&& u.0 < nodes.len()
    &&& v.0 < nodes.len()
    &&& nodes[u.0 as int].op == nodes[v.0 as int].op
    &&& operands_of(nodes, u).len() == operands_of(nodes, v).len()
    &&& if nodes[u.0 as int].op == Op::Leaf {
        values[u.0 as int] == values[v.0 as int]
    } else {
        forall|k: int|
            0 <= k < operands_of(nodes, u).len()
                && (#[trigger] operands_of(nodes, u)[k]).0 < u.0
                ==> same_expression(
                    nodes,
                    values,
                    operands_of(nodes, u)[k],
                    operands_of(nodes, v)[k],
                )
    }
}

/// Forward values are determined by the expression: where all values are
/// evaluated, two nodes that stand for the same expression have equal values,
/// whether they are one node or two.
pub proof fn law_same_expression_same_value<T>(
    ar: Arithmetic<T>,
    nodes: Seq<Node>,
    values: Seq<T>,
    u: Value,
    v: Value,
)
    requires
        well_formed(nodes),
        evaluated(ar, nodes, values),
        same_expression(nodes, values, u, v),
    ensures
        values[u.0 as int] == values[v.0 as int],
    decreases u.0,
{
    let left = nodes[u.0 as int];
    let right = nodes[v.0 as int];
    assert(evaluated_at(ar, nodes, values, u.0 as int));
    assert(evaluated_at(ar, nodes, values, v.0 as int));
    assert(node_fits(left.op, left.operands, u.0 as int));
    if left.op != Op::Leaf {
        assert(left.operands[0].0 < u.0);
        law_same_expression_same_value(ar, nodes, values, left.operands[0], right.operands[0]);
        if left.operands.len() == 2 {
            assert(left.operands[1].0 < u.0);
            law_same_expression_same_value(ar, nodes, values, left.operands[1], right.operands[1]);
        }
    }
}

/// The node that an operator adds is none of the nodes that were there, and
/// those stay as they were. Its gradient is zero.
pub proof fn law_added_node_is_new<T: Copy>(
    before: Graph<T>,
    after: Graph<T>,
    added: Value,
    op: Op,
    operands: Seq<Value>,
    x: Value,
)
    requires
        after.extends(before, added, op, operands),
        before.has(x),
    ensures
        after.has(added),
        after.has(x),
        added != x,
        after@[x.0 as int] == before@[x.0 as int],
        after.gradients()[added.0 as int] == before.zero(),
{
}

} // verus!
