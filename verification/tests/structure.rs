use micrograd::rule::{Factor, Step};
use micrograd::value::{Graph, InnerValue, Op, Value};

fn plus(x: i64, y: i64) -> i64 {
    x + y
}

fn times(x: i64, y: i64) -> i64 {
    x * y
}

fn minus(x: i64, y: i64) -> i64 {
    x - y
}

fn diamond() -> (Graph<i64>, [Value; 5]) {
    let mut g = Graph::new(0, 1);
    let a = Value::create(&mut g, -2);
    let b = Value::create(&mut g, 3);
    let d = micrograd::value::mul(&mut g, &a, &b, times);
    let e = micrograd::value::add(&mut g, &a, &b, plus);
    let f = micrograd::value::mul(&mut g, &d, &e, times);
    (g, [a, b, d, e, f])
}

#[test]
fn arity_of_each_operation() {
    assert_eq!(Op::Leaf.arity(), 0);
    assert_eq!(Op::Sum.arity(), 2);
    assert_eq!(Op::Product.arity(), 2);
    assert_eq!(Op::Tanh.arity(), 1);
}

#[test]
fn symbol_of_each_operation() {
    assert_eq!(Op::Leaf.symbol(), "");
    assert_eq!(Op::Sum.symbol(), "+");
    assert_eq!(Op::Product.symbol(), "*");
    assert_eq!(Op::Tanh.symbol(), "tanh");
}

#[test]
fn new_graph_is_empty() {
    let g: Graph<i64> = Graph::new(0, 1);
    assert_eq!(g.len(), 0);
    assert!(!g.contains(Value(0)));
}

#[test]
fn leaf_has_its_value_no_gradient_no_operands() {
    let mut g: Graph<i64> = Graph::new(0, 1);
    let a = Value::create(&mut g, 42);
    assert_eq!(a, Value(0));
    assert_eq!(g.len(), 1);
    assert!(g.contains(a));
    assert!(!g.contains(Value(1)));
    assert_eq!(g.value(a), 42);
    assert_eq!(g.gradient(a), 0);
    let node = g.node(a);
    assert_eq!(node.data(), 42);
    assert_eq!(node.grad(), 0);
    assert_eq!(node.op(), Op::Leaf);
    assert!(node.prev().is_empty());
}

#[test]
fn operators_record_operation_operands_and_value() {
    let mut g: Graph<i64> = Graph::new(0, 1);
    let a = Value::create(&mut g, 6);
    let b = Value::create(&mut g, 7);
    let s = micrograd::value::add(&mut g, &a, &b, plus);
    let p = micrograd::value::mul(&mut g, &a, &b, times);
    let t = p.tanh(&mut g, |x: i64| x - 40);
    assert_eq!((s, p, t), (Value(2), Value(3), Value(4)));
    assert_eq!(g.value(s), 13);
    assert_eq!(g.value(p), 42);
    assert_eq!(g.value(t), 2);
    assert_eq!(g.node(s).op(), Op::Sum);
    assert_eq!(g.node(p).op(), Op::Product);
    assert_eq!(g.node(t).op(), Op::Tanh);
    assert_eq!(g.node(s).prev(), &vec![a, b]);
    assert_eq!(g.node(p).prev(), &vec![a, b]);
    assert_eq!(g.node(t).prev(), &vec![p]);
    assert_eq!(g.gradient(s), 0);
    assert_eq!(g.gradient(p), 0);
    assert_eq!(g.gradient(t), 0);
    assert_eq!(g.value(a), 6);
    assert_eq!(g.value(b), 7);
}

#[test]
fn operands_are_not_consumed() {
    let mut g: Graph<i64> = Graph::new(0, 1);
    let a = Value::create(&mut g, 2);
    let first = micrograd::value::add(&mut g, &a, &a, plus);
    let second = micrograd::value::mul(&mut g, &a, &first, times);
    let third = micrograd::value::mul(&mut g, &second, &a, times);
    assert_eq!(g.value(first), 4);
    assert_eq!(g.value(second), 8);
    assert_eq!(g.value(third), 16);
}

#[test]
fn record_accessors_return_what_was_given() {
    let g: Graph<i64> = Graph::new(0, 1);
    let record = InnerValue::new(&g, 5i64, Op::Sum, vec![Value(1), Value(0)]);
    assert_eq!(record.data(), 5);
    assert_eq!(record.op(), Op::Sum);
    assert_eq!(record.prev(), &vec![Value(1), Value(0)]);
}

#[test]
fn new_record_has_the_zero_of_its_graph_as_gradient() {
    let g: Graph<i64> = Graph::new(0, 1);
    assert_eq!(InnerValue::new(&g, 5i64, Op::Leaf, vec![]).grad(), 0);
    assert_eq!(InnerValue::new(&g, -8i64, Op::Sum, vec![Value(1), Value(0)]).grad(), 0);
    assert_eq!(InnerValue::new(&g, 1i64, Op::Tanh, vec![Value(3)]).grad(), 0);
    let doubles: Graph<f64> = Graph::new(0.0, 1.0);
    let record = InnerValue::new(&doubles, 2.5, Op::Product, vec![Value(0), Value(0)]);
    assert_eq!(record.grad(), 0.0);
    assert_eq!(record.data(), 2.5);
}

#[test]
fn admits_asks_for_arity_and_known_operands() {
    let mut g: Graph<i64> = Graph::new(0, 1);
    let a = Value::create(&mut g, 1);
    let b = Value::create(&mut g, 2);
    assert!(g.admits(&InnerValue::new(&g, 0, Op::Leaf, vec![])));
    assert!(g.admits(&InnerValue::new(&g, 0, Op::Sum, vec![a, b])));
    assert!(g.admits(&InnerValue::new(&g, 0, Op::Product, vec![b, b])));
    assert!(g.admits(&InnerValue::new(&g, 0, Op::Tanh, vec![a])));
    assert!(!g.admits(&InnerValue::new(&g, 0, Op::Leaf, vec![a])));
    assert!(!g.admits(&InnerValue::new(&g, 0, Op::Sum, vec![a])));
    assert!(!g.admits(&InnerValue::new(&g, 0, Op::Product, vec![a, b, a])));
    assert!(!g.admits(&InnerValue::new(&g, 0, Op::Tanh, vec![])));
    assert!(!g.admits(&InnerValue::new(&g, 0, Op::Tanh, vec![Value(2)])));
    assert!(!g.admits(&InnerValue::new(&g, 0, Op::Sum, vec![a, Value(7)])));
    assert!(!g.admits(&InnerValue::new(&g, 0, Op::Sum, vec![Value(2), b])));
}

#[test]
fn new_adds_the_given_record() {
    let mut g: Graph<i64> = Graph::new(0, 1);
    let a = Value::create(&mut g, 4);
    let record = InnerValue::new(&g, 16, Op::Product, vec![a, a]);
    assert!(g.admits(&record));
    let expected = record.clone();
    let p = Value::new(&mut g, record);
    assert_eq!(p, Value(1));
    assert_eq!(g.len(), 2);
    assert!(g.node(p) == &expected);
    assert_eq!(g.value(p), 16);
    assert_eq!(g.gradient(p), 0);
    assert_eq!(g.node(p).op(), Op::Product);
    assert_eq!(g.node(p).prev(), &vec![a, a]);
    assert_eq!(g.value(a), 4);
    assert_eq!(g.gradient(a), 0);
}

#[test]
fn new_starts_the_gradient_at_zero_whatever_the_record_held() {
    let mut g: Graph<i64> = Graph::new(0, 1);
    let a = Value::create(&mut g, 4);
    let p = micrograd::value::mul(&mut g, &a, &a, times);
    p.backward(&mut g, plus, minus, times);
    assert_eq!(g.gradient(p), 1);
    assert_eq!(g.gradient(a), 8);
    let used = g.node(p).clone();
    assert_eq!(used.grad(), 1);
    assert!(g.admits(&used));
    let copy = Value::new(&mut g, used);
    assert_eq!(copy, Value(2));
    assert_eq!(g.gradient(copy), 0);
    assert_eq!(g.value(copy), 16);
    assert_eq!(g.node(copy).prev(), &vec![a, a]);
    assert_eq!(g.gradient(p), 1);
    assert_eq!(g.gradient(a), 8);
}

#[test]
fn rule_of_a_leaf_is_empty() {
    let g: Graph<i64> = Graph::new(0, 1);
    let record = InnerValue::new(&g, 1i64, Op::Leaf, vec![]);
    assert_eq!(record.propagate(Value(0)), vec![]);
}

#[test]
fn rule_of_a_sum_hands_on_unscaled() {
    let g: Graph<i64> = Graph::new(0, 1);
    let record = InnerValue::new(&g, 1i64, Op::Sum, vec![Value(0), Value(1)]);
    assert_eq!(
        record.propagate(Value(2)),
        vec![
            Step::Accumulate { target: Value(0), source: Value(2), factor: Factor::One },
            Step::Accumulate { target: Value(1), source: Value(2), factor: Factor::One },
        ]
    );
}

#[test]
fn rule_of_a_product_scales_by_the_other_operand() {
    let g: Graph<i64> = Graph::new(0, 1);
    let record = InnerValue::new(&g, 1i64, Op::Product, vec![Value(0), Value(1)]);
    assert_eq!(
        record.propagate(Value(2)),
        vec![
            Step::Accumulate {
                target: Value(0),
                source: Value(2),
                factor: Factor::ValueOf(Value(1)),
            },
            Step::Accumulate {
                target: Value(1),
                source: Value(2),
                factor: Factor::ValueOf(Value(0)),
            },
        ]
    );
}

#[test]
fn rule_of_a_self_product_has_one_update_for_each_slot() {
    let g: Graph<i64> = Graph::new(0, 1);
    let record = InnerValue::new(&g, 1i64, Op::Product, vec![Value(3), Value(3)]);
    assert_eq!(
        record.propagate(Value(5)),
        vec![
            Step::Accumulate {
                target: Value(3),
                source: Value(5),
                factor: Factor::ValueOf(Value(3)),
            },
            Step::Accumulate {
                target: Value(3),
                source: Value(5),
                factor: Factor::ValueOf(Value(3)),
            },
        ]
    );
}

#[test]
fn rule_of_a_tanh_scales_by_its_own_slope() {
    let g: Graph<i64> = Graph::new(0, 1);
    let record = InnerValue::new(&g, 1i64, Op::Tanh, vec![Value(4)]);
    assert_eq!(
        record.propagate(Value(6)),
        vec![Step::Accumulate {
            target: Value(4),
            source: Value(6),
            factor: Factor::OneMinusSquare(Value(6)),
        }]
    );
}

#[test]
fn post_order_of_a_diamond() {
    let (g, [a, b, d, e, f]) = diamond();
    let mut visited = vec![false; g.len()];
    let mut order = Vec::new();
    f.build_topo(&g, &mut visited, &mut order);
    assert_eq!(order, vec![a, b, d, e, f]);
    assert_eq!(visited, vec![true; 5]);
}

#[test]
fn post_order_leaves_out_what_is_not_below() {
    let (mut g, [a, b, d, e, _f]) = diamond();
    let lone = Value::create(&mut g, 9);
    let mut visited = vec![false; g.len()];
    let mut order = Vec::new();
    e.build_topo(&g, &mut visited, &mut order);
    assert_eq!(order, vec![a, b, e]);
    assert_eq!(visited, vec![true, true, false, true, false, false]);
    assert!(!order.contains(&d));
    assert!(!order.contains(&lone));
}

#[test]
fn second_visit_adds_only_what_is_new() {
    let (g, [a, b, d, e, f]) = diamond();
    let mut visited = vec![false; g.len()];
    let mut order = Vec::new();
    d.build_topo(&g, &mut visited, &mut order);
    assert_eq!(order, vec![a, b, d]);
    d.build_topo(&g, &mut visited, &mut order);
    assert_eq!(order, vec![a, b, d]);
    f.build_topo(&g, &mut visited, &mut order);
    assert_eq!(order, vec![a, b, d, e, f]);
}

#[test]
fn post_order_follows_the_operand_slots() {
    let mut g: Graph<i64> = Graph::new(0, 1);
    let a = Value::create(&mut g, 1);
    let b = Value::create(&mut g, 2);
    let c = Value::create(&mut g, 3);
    let bc = micrograd::value::mul(&mut g, &c, &b, times);
    let top = micrograd::value::add(&mut g, &bc, &a, plus);
    let mut visited = vec![false; g.len()];
    let mut order = Vec::new();
    top.build_topo(&g, &mut visited, &mut order);
    assert_eq!(order, vec![c, b, bc, a, top]);
}

#[test]
fn diamond_over_integers() {
    let (mut g, [a, b, d, e, f]) = diamond();
    f.backward(&mut g, plus, minus, times);
    assert_eq!(g.gradient(f), 1);
    assert_eq!(g.gradient(d), 1);
    assert_eq!(g.gradient(e), -6);
    assert_eq!(g.gradient(a), -3);
    assert_eq!(g.gradient(b), -8);
    assert_eq!(g.value(f), -6);
}

#[test]
fn cube_over_integers() {
    let mut g: Graph<i64> = Graph::new(0, 1);
    let x = Value::create(&mut g, 5);
    let square = micrograd::value::mul(&mut g, &x, &x, times);
    let cube = micrograd::value::mul(&mut g, &square, &x, times);
    cube.backward(&mut g, plus, minus, times);
    assert_eq!(g.value(cube), 125);
    assert_eq!(g.gradient(cube), 1);
    assert_eq!(g.gradient(square), 5);
    assert_eq!(g.gradient(x), 75);
}

#[test]
fn shared_node_waits_for_all_its_users() {
    let mut g: Graph<i64> = Graph::new(0, 1);
    let x = Value::create(&mut g, 3);
    let y = micrograd::value::mul(&mut g, &x, &x, times);
    let u = micrograd::value::add(&mut g, &y, &x, plus);
    let v = micrograd::value::mul(&mut g, &y, &u, times);
    let w = micrograd::value::add(&mut g, &v, &y, plus);
    w.backward(&mut g, plus, minus, times);
    assert_eq!(g.value(w), 117);
    assert_eq!(g.gradient(w), 1);
    assert_eq!(g.gradient(v), 1);
    assert_eq!(g.gradient(u), 9);
    assert_eq!(g.gradient(y), 22);
    assert_eq!(g.gradient(x), 141);
}

#[test]
fn backward_from_a_leaf_only_seeds_it() {
    let mut g: Graph<i64> = Graph::new(0, 1);
    let a = Value::create(&mut g, 3);
    let b = Value::create(&mut g, 4);
    a.backward(&mut g, plus, minus, times);
    assert_eq!(g.gradient(a), 1);
    assert_eq!(g.gradient(b), 0);
}

#[test]
fn backward_from_an_inner_node_leaves_its_users_alone() {
    let (mut g, [a, b, d, e, f]) = diamond();
    d.backward(&mut g, plus, minus, times);
    assert_eq!(g.gradient(d), 1);
    assert_eq!(g.gradient(a), 3);
    assert_eq!(g.gradient(b), -2);
    assert_eq!(g.gradient(e), 0);
    assert_eq!(g.gradient(f), 0);
}

#[test]
fn seed_overwrites_the_gradient_of_the_output() {
    let mut g: Graph<i64> = Graph::new(0, 1);
    let a = Value::create(&mut g, 3);
    let out = micrograd::value::mul(&mut g, &a, &a, times);
    out.backward(&mut g, plus, minus, times);
    assert_eq!(g.gradient(out), 1);
    assert_eq!(g.gradient(a), 6);
    out.backward(&mut g, plus, minus, times);
    assert_eq!(g.gradient(out), 1);
    assert_eq!(g.gradient(a), 12);
    let above = micrograd::value::add(&mut g, &out, &a, plus);
    above.backward(&mut g, plus, minus, times);
    assert_eq!(g.gradient(above), 1);
    assert_eq!(g.gradient(out), 2);
    out.backward(&mut g, plus, minus, times);
    assert_eq!(g.gradient(out), 1);
}

#[test]
fn backward_keeps_values_and_shape() {
    let (mut g, nodes) = diamond();
    let before: Vec<(i64, Op, Vec<Value>)> =
        nodes.iter().map(|n| (g.value(*n), g.node(*n).op(), g.node(*n).prev().clone())).collect();
    nodes[4].backward(&mut g, plus, minus, times);
    let after: Vec<(i64, Op, Vec<Value>)> =
        nodes.iter().map(|n| (g.value(*n), g.node(*n).op(), g.node(*n).prev().clone())).collect();
    assert_eq!(before, after);
    assert_eq!(g.len(), 5);
}

#[test]
fn long_chain_is_walked_to_its_end() {
    let mut g: Graph<i64> = Graph::new(0, 1);
    let start = Value::create(&mut g, 1);
    let mut last = start;
    for _ in 0..2000 {
        last = micrograd::value::add(&mut g, &last, &start, plus);
    }
    last.backward(&mut g, plus, minus, times);
    assert_eq!(g.value(last), 2001);
    assert_eq!(g.gradient(start), 2001);
    assert_eq!(g.gradient(last), 1);
}

#[test]
fn handles_are_equal_when_they_name_the_same_node() {
    let mut g: Graph<i64> = Graph::new(0, 1);
    let a = Value::create(&mut g, 7);
    let b = Value::create(&mut g, 7);
    let again = a;
    assert_eq!(a, again);
    assert_ne!(a, b);
    let mut seen = std::collections::HashSet::new();
    assert!(seen.insert(a));
    assert!(!seen.insert(again));
    assert!(seen.insert(b));
    assert_eq!(seen.len(), 2);
}

#[test]
fn records_with_equal_fields_are_equal() {
    let mut g: Graph<i64> = Graph::new(0, 1);
    let left = InnerValue::new(&g, 5i64, Op::Sum, vec![Value(0), Value(1)]);
    let same = InnerValue::new(&g, 5i64, Op::Sum, vec![Value(0), Value(1)]);
    assert!(left == same);
    assert!(left == left.clone());
    assert!(left != InnerValue::new(&g, 6i64, Op::Sum, vec![Value(0), Value(1)]));
    assert!(left != InnerValue::new(&g, 5i64, Op::Product, vec![Value(0), Value(1)]));
    assert!(left != InnerValue::new(&g, 5i64, Op::Sum, vec![Value(1), Value(0)]));
    let a = Value::create(&mut g, 5);
    let fresh = InnerValue::new(&g, 5i64, Op::Leaf, vec![]);
    assert!(g.node(a) == &fresh);
    a.backward(&mut g, plus, minus, times);
    assert!(g.node(a) != &fresh);
}

#[test]
fn a_node_shows_value_gradient_operation_and_operands() {
    let mut g: Graph<f64> = Graph::new(0.0, 1.0);
    let a = Value::create(&mut g, 2.5);
    let b = Value::create(&mut g, 4.0);
    let p = micrograd::value::mul(&mut g, &a, &b, |x: f64, y: f64| x * y);
    assert_eq!(
        format!("{:?}", g.node(p)),
        "InnerValue { data: 10.0, grad: 0.0, op: Product, prev: [Value(0), Value(1)] }"
    );
    assert_eq!(
        format!("{:?}", g.node(a)),
        "InnerValue { data: 2.5, grad: 0.0, op: Leaf, prev: [] }"
    );
}
