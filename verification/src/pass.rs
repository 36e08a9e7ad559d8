//! The backward pass carried out on the gradients of a graph.
//!
//! The pass gets the addition, the subtraction and the multiplication of the
//! scalars as functions. What it leaves in the gradients is stated for every
//! arithmetic that those functions compute.

use crate::arithmetic::{models, total2, Arithmetic};
use crate::laws::{law_output_is_only_seeded, law_plan_writes_only_below_output};
use crate::order::{backward_order, lemma_visit_ordered, post_order, reachable};
use crate::rule::{backward_plan, lemma_rule_steps, rule, steps_of, Factor, Step};
use crate::value::{Graph, Value};
use vstd::prelude::*;

verus! {

/// The gradient `g`, scaled by a factor.
pub open spec fn scaled<T>(ar: Arithmetic<T>, values: Seq<T>, factor: Factor, g: T) -> T {
    match factor {
        Factor::One => g,
        Factor::ValueOf(node) => (ar.mul)(values[node.0 as int], g),
        Factor::OneMinusSquare(node) => {
            let t = values[node.0 as int];
            (ar.mul)((ar.sub)(ar.one, (ar.mul)(t, t)), g)
        },
    }
}

/// The gradients after one update.
pub open spec fn apply<T>(
    ar: Arithmetic<T>,
    values: Seq<T>,
    gradients: Seq<T>,
    step: Step,
) -> Seq<T> {
    match step {
        Step::Seed(node) => gradients.update(node.0 as int, ar.one),
        Step::Accumulate { target, source, factor } => {
            let term = scaled(ar, values, factor, gradients[source.0 as int]);
            gradients.update(target.0 as int, (ar.add)(gradients[target.0 as int], term))
        },
    }
}

/// The gradients after the updates of `plan`, from the first to the last.
pub open spec fn run<T>(
    ar: Arithmetic<T>,
    values: Seq<T>,
    gradients: Seq<T>,
    plan: Seq<Step>,
) -> Seq<T>
    decreases plan.len(),
{
    if plan.len() == 0 {
        gradients
    } else {
        apply(ar, values, run(ar, values, gradients, plan.drop_last()), plan.last())
    }
}

/// No update of the plan changes the gradient of `node`.
pub open spec fn untouched(plan: Seq<Step>, node: Value) -> bool {
    forall|i: int| 0 <= i < plan.len() ==> !(#[trigger] plan[i]).writes(node)
}

/// Every update of the plan names only nodes among the first `count`.
pub open spec fn all_within(plan: Seq<Step>, count: nat) -> bool {
    forall|i: int| 0 <= i < plan.len() ==> (#[trigger] plan[i]).within(count)
}

/// The updates keep the number of gradients.
pub proof fn lemma_run_keeps_length<T>(
    ar: Arithmetic<T>,
    values: Seq<T>,
    gradients: Seq<T>,
    plan: Seq<Step>,
)
    requires
        all_within(plan, gradients.len()),
    ensures
        run(ar, values, gradients, plan).len() == gradients.len(),
    decreases plan.len(),
{
    if plan.len() > 0 {
        let rest = plan.drop_last();
        assert forall|i: int| 0 <= i < rest.len()
            implies (#[trigger] rest[i]).within(gradients.len()) by {
            assert(rest[i] == plan[i]);
        }
        lemma_run_keeps_length(ar, values, gradients, rest);
        assert(plan.last() == plan[plan.len() - 1]);
    }
}

/// Running two plans one after the other is running them joined.
pub proof fn lemma_run_joined<T>(
    ar: Arithmetic<T>,
    values: Seq<T>,
    gradients: Seq<T>,
    first: Seq<Step>,
    second: Seq<Step>,
)
    ensures
        run(ar, values, gradients, first + second)
            == run(ar, values, run(ar, values, gradients, first), second),
    decreases second.len(),
{
    if second.len() == 0 {
        assert(first + second =~= first);
    } else {
        let joined = first + second;
        assert(joined.drop_last() =~= first + second.drop_last());
        assert(joined.last() == second.last());
        lemma_run_joined(ar, values, gradients, first, second.drop_last());
    }
}

/// A gradient that no update of the plan changes is after the plan what it
/// was before.
pub proof fn lemma_run_keeps_untouched<T>(
    ar: Arithmetic<T>,
    values: Seq<T>,
    gradients: Seq<T>,
    plan: Seq<Step>,
    x: Value,
)
    requires
        all_within(plan, gradients.len()),
        untouched(plan, x),
        x.0 < gradients.len(),
    ensures
        run(ar, values, gradients, plan)[x.0 as int] == gradients[x.0 as int],
    decreases plan.len(),
{
    if plan.len() > 0 {
        let rest = plan.drop_last();
        assert forall|i: int| 0 <= i < rest.len()
            implies (#[trigger] rest[i]).within(gradients.len()) && !rest[i].writes(x) by {
            assert(rest[i] == plan[i]);
        }
        lemma_run_keeps_untouched(ar, values, gradients, rest, x);
        lemma_run_keeps_length(ar, values, gradients, rest);
        assert(plan.last() == plan[plan.len() - 1]);
    }
}

/// Carries out one update on the gradients of the graph. The term that an
/// update adds is computed from the gradients as they are before it.
fn update<T: Copy, P: Fn(T, T) -> T, S: Fn(T, T) -> T, M: Fn(T, T) -> T>(
    graph: &mut Graph<T>,
    step: Step,
    plus: &P,
    minus: &S,
    times: &M,
)
    requires
        step.within(old(graph)@.len()),
        total2(*plus),
        total2(*minus),
        total2(*times),
    ensures
        final(graph).shape() == old(graph).shape(),
        final(graph).values() == old(graph).values(),
        final(graph).zero() == old(graph).zero(),
        final(graph).one() == old(graph).one(),
        final(graph).gradients().len() == old(graph).gradients().len(),
        step matches Step::Seed(node)
            ==> final(graph).gradients()[node.0 as int] == old(graph).one(),
        forall|x: Value|
            x.0 < old(graph)@.len() && !#[trigger] step.writes(x)
                ==> final(graph).gradients()[x.0 as int] == old(graph).gradients()[x.0 as int],
        forall|ar: Arithmetic<T>| #[trigger]
            models(ar, old(graph).one(), *plus, *minus, *times)
                ==> final(graph).gradients()
                    == apply(ar, old(graph).values(), old(graph).gradients(), step),
{
    match step {
        Step::Seed(node) => {
            let one = graph.one_scalar();
            graph.set_gradient(node, one);
        },
        Step::Accumulate { target, source, factor } => {
            let g = graph.gradient(source);
            let term = match factor {
                Factor::One => g,
                Factor::ValueOf(node) => times(graph.value(node), g),
                Factor::OneMinusSquare(node) => {
                    let t = graph.value(node);
                    times(minus(graph.one_scalar(), times(t, t)), g)
                },
            };
            let sum = plus(graph.gradient(target), term);
            graph.set_gradient(target, sum);
        },
    }
    assert(graph.shape() =~= old(graph).shape());
    assert(graph.values() =~= old(graph).values());
    assert forall|ar: Arithmetic<T>| #[trigger]
        models(ar, old(graph).one(), *plus, *minus, *times)
        implies graph.gradients()
            == apply(ar, old(graph).values(), old(graph).gradients(), step) by {
        assert(graph.gradients()
            =~= apply(ar, old(graph).values(), old(graph).gradients(), step));
    }
}

impl Value {
    /// Runs the backward pass from this node on the gradients of the graph:
    /// seeds the gradient of this node with one and then lets every node
    /// below it, in backward order, add to the gradients of its operands what
    /// the rule of its operation gives.
    ///
    /// Gradients are added to, not reset: on a graph whose gradients are not
    /// zero the pass accumulates on top of them. Nodes that cannot be reached
    /// from this node keep their gradients.
    pub fn backward<T: Copy, P: Fn(T, T) -> T, S: Fn(T, T) -> T, M: Fn(T, T) -> T>(
        &self,
        graph: &mut Graph<T>,
        plus: P,
        minus: S,
        times: M,
    )
        requires
            old(graph).wf(),
            old(graph).has(*self),
            total2(plus),
            total2(minus),
            total2(times),
        ensures
            final(graph).shape() == old(graph).shape(),
            final(graph).values() == old(graph).values(),
            final(graph).zero() == old(graph).zero(),
            final(graph).one() == old(graph).one(),
            final(graph).gradients().len() == old(graph).gradients().len(),
            final(graph).gradients()[self.0 as int] == old(graph).one(),
            forall|x: Value|
                x.0 < old(graph)@.len() && !reachable(old(graph).shape(), *self, x)
                    ==> (#[trigger] final(graph).gradients()[x.0 as int])
                        == old(graph).gradients()[x.0 as int],
            forall|ar: Arithmetic<T>| #[trigger]
                models(ar, old(graph).one(), plus, minus, times)
                    ==> final(graph).gradients() == run(
                        ar,
                        old(graph).values(),
                        old(graph).gradients(),
                        backward_plan(old(graph).shape(), *self),
                    ),
    {
        let ghost nodes = graph.shape();
        let ghost values = graph.values();
        let ghost before = graph.gradients();
        let ghost one = graph.one();
        let mut visited: Vec<bool> = Vec::new();
        while visited.len() < graph.len()
            invariant
                visited@.len() <= graph@.len(),
                forall|i: int| 0 <= i < visited@.len() ==> !visited@[i],
            decreases graph@.len() - visited@.len(),
        {
            visited.push(false);
        }
        let mut order: Vec<Value> = Vec::new();
        self.build_topo(graph, &mut visited, &mut order);
        let ghost turns = backward_order(nodes, *self);
        proof {
            assert(order@ == post_order(nodes, *self));
            lemma_visit_ordered(nodes, *self, Seq::empty());
            assert(turns.len() == order@.len());
        }
        let ghost seed = seq![Step::Seed(*self)];
        let ghost mut done: Seq<Step> = Seq::empty();
        update(graph, Step::Seed(*self), &plus, &minus, &times);
        let ghost seeded = graph.gradients();
        proof {
            assert forall|x: Value| x.0 < nodes.len() && x != *self
                implies seeded[x.0 as int] == before[x.0 as int] by {
                assert(!Step::Seed(*self).writes(x));
            }
            assert(seed + done =~= seed);
            assert(seed.drop_last() =~= Seq::<Step>::empty());
            assert forall|ar: Arithmetic<T>| #[trigger] models(ar, one, plus, minus, times)
                implies graph.gradients() == run(ar, values, before, seed + done) by {
                assert(run(ar, values, before, seed.drop_last()) == before);
            }
        }
        let mut i: usize = order.len();
        while i > 0
            invariant
                graph.wf(),
                graph.shape() == nodes,
                graph.values() == values,
                graph.zero() == old(graph).zero(),
                graph.one() == one,
                graph.gradients().len() == before.len(),
                before.len() == nodes.len(),
                seeded.len() == nodes.len(),
                seeded[self.0 as int] == one,
                forall|x: Value|
                    x.0 < nodes.len() && x != *self ==> seeded[x.0 as int] == before[x.0 as int],
                total2(plus),
                total2(minus),
                total2(times),
                i <= order@.len(),
                turns.len() == order@.len(),
                turns == order@.reverse(),
                forall|j: int| 0 <= j < order@.len() ==> (#[trigger] order@[j]).0 < nodes.len(),
                done == steps_of(nodes, turns.take(order@.len() - i)),
                forall|x: Value|
                    x.0 < nodes.len() && untouched(done, x)
                        ==> graph.gradients()[x.0 as int] == seeded[x.0 as int],
                forall|ar: Arithmetic<T>| #[trigger]
                    models(ar, one, plus, minus, times)
                        ==> graph.gradients() == run(ar, values, before, seed + done),
            decreases i,
        {
            i -= 1;
            let at = order[i];
            let steps = graph.node(at).propagate(at);
            let ghost start = done;
            proof {
                assert(graph@[at.0 as int].op == nodes[at.0 as int].op);
                assert(graph@[at.0 as int].operands == nodes[at.0 as int].operands);
                assert(steps@ == rule(nodes[at.0 as int], at));
                assert(start + steps@.take(0) =~= start);
            }
            let mut m: usize = 0;
            while m < steps.len()
                invariant
                    graph.wf(),
                    graph.shape() == nodes,
                    graph.values() == values,
                    graph.zero() == old(graph).zero(),
                    graph.one() == one,
                    graph.gradients().len() == before.len(),
                    before.len() == nodes.len(),
                    seeded.len() == nodes.len(),
                    total2(plus),
                    total2(minus),
                    total2(times),
                    at.0 < nodes.len(),
                    steps@ == rule(nodes[at.0 as int], at),
                    m <= steps@.len(),
                    done == start + steps@.take(m as int),
                    forall|x: Value|
                        x.0 < nodes.len() && untouched(done, x)
                            ==> graph.gradients()[x.0 as int] == seeded[x.0 as int],
                    forall|ar: Arithmetic<T>| #[trigger]
                        models(ar, one, plus, minus, times)
                            ==> graph.gradients() == run(ar, values, before, seed + done),
                decreases steps@.len() - m,
            {
                let step = steps[m];
                let ghost earlier = done;
                let ghost gradients = graph.gradients();
                proof {
                    lemma_rule_steps(nodes, at, m as int);
                }
                update(graph, step, &plus, &minus, &times);
                proof {
                    done = earlier.push(step);
                    assert((seed + done).drop_last() =~= seed + earlier);
                    assert((seed + done).last() == step);
                    assert(done =~= start + steps@.take(m + 1));
                    assert forall|x: Value| x.0 < nodes.len() && untouched(done, x)
                        implies graph.gradients()[x.0 as int] == seeded[x.0 as int] by {
                        assert(!done[earlier.len() as int].writes(x));
                        assert(!step.writes(x));
                        assert forall|i: int| 0 <= i < earlier.len()
                            implies !(#[trigger] earlier[i]).writes(x) by {
                            assert(done[i] == earlier[i]);
                        }
                        assert(untouched(earlier, x));
                        assert(gradients[x.0 as int] == seeded[x.0 as int]);
                    }
                }
                m += 1;
            }
            proof {
                let count = order@.len() - i;
                assert(steps@.take(steps@.len() as int) =~= steps@);
                assert(turns.take(count).drop_last() =~= turns.take(count - 1));
                assert(turns.take(count).last() == at);
                assert(done =~= steps_of(nodes, turns.take(count)));
            }
        }
        proof {
            assert(turns.take(order@.len() as int) =~= turns);
            let plan = backward_plan(nodes, *self);
            assert(plan == seed + done);
            assert forall|i: int| 0 <= i < done.len()
                implies !(#[trigger] done[i]).writes(*self) by {
                assert(plan[i + 1] == done[i]);
                law_output_is_only_seeded(nodes, *self, i + 1);
            }
            assert(untouched(done, *self));
            assert forall|x: Value| x.0 < nodes.len() && !reachable(nodes, *self, x)
                implies (#[trigger] graph.gradients()[x.0 as int]) == before[x.0 as int] by {
                assert forall|i: int| 0 <= i < done.len()
                    implies !(#[trigger] done[i]).writes(x) by {
                    assert(plan[i + 1] == done[i]);
                    if done[i].writes(x) {
                        law_plan_writes_only_below_output(nodes, *self, i + 1, x);
                    }
                }
                assert(untouched(done, x));
                assert(x != *self);
            }
        }
    }
}

} // verus!
