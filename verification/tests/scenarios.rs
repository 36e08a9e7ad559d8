use micrograd::value::{Graph, Value};

fn graph() -> Graph<f64> {
    Graph::new(0.0, 1.0)
}

fn leaf(graph: &mut Graph<f64>, constant: f64) -> Value {
    Value::create(graph, constant)
}

fn sum(graph: &mut Graph<f64>, a: Value, b: Value) -> Value {
    assert!(graph.contains(a) && graph.contains(b));
    micrograd::value::add(graph, &a, &b, |x: f64, y: f64| x + y)
}

fn product(graph: &mut Graph<f64>, a: Value, b: Value) -> Value {
    assert!(graph.contains(a) && graph.contains(b));
    micrograd::value::mul(graph, &a, &b, |x: f64, y: f64| x * y)
}

fn tanh(graph: &mut Graph<f64>, a: Value) -> Value {
    assert!(graph.contains(a));
    a.tanh(graph, |x: f64| x.tanh())
}

fn backward(graph: &mut Graph<f64>, output: Value) {
    assert!(graph.contains(output));
    output.backward(
        graph,
        |x: f64, y: f64| x + y,
        |x: f64, y: f64| x - y,
        |x: f64, y: f64| x * y,
    );
}

fn close(x: f64, y: f64, tolerance: f64) -> bool {
    (x - y).abs() <= tolerance
}

#[test]
fn sum_hands_its_gradient_to_both_operands() {
    let mut g = graph();
    let a = leaf(&mut g, 4.5);
    let b = leaf(&mut g, -7.25);
    let s = sum(&mut g, a, b);
    backward(&mut g, s);
    assert_eq!(g.value(s), -2.75);
    assert_eq!(g.gradient(s), 1.0);
    assert_eq!(g.gradient(a), 1.0);
    assert_eq!(g.gradient(b), 1.0);
}

#[test]
fn product_hands_each_operand_the_value_of_the_other() {
    let mut g = graph();
    let a = leaf(&mut g, 4.5);
    let b = leaf(&mut g, -7.25);
    let p = product(&mut g, a, b);
    backward(&mut g, p);
    assert_eq!(g.value(p), -32.625);
    assert_eq!(g.gradient(p), 1.0);
    assert_eq!(g.gradient(a), -7.25);
    assert_eq!(g.gradient(b), 4.5);
}

#[test]
fn product_of_a_node_with_itself_doubles_its_value() {
    let mut g = graph();
    let a = leaf(&mut g, 3.0);
    let s = product(&mut g, a, a);
    backward(&mut g, s);
    assert_eq!(g.value(s), 9.0);
    assert_eq!(g.gradient(a), 6.0);
}

#[test]
fn sum_of_a_node_with_itself_counts_it_twice() {
    let mut g = graph();
    let a = leaf(&mut g, 3.0);
    let s = sum(&mut g, a, a);
    backward(&mut g, s);
    assert_eq!(g.value(s), 6.0);
    assert_eq!(g.gradient(a), 2.0);
}

#[test]
fn tanh_scales_by_one_minus_its_square() {
    let mut g = graph();
    let a = leaf(&mut g, 0.5);
    let t = tanh(&mut g, a);
    backward(&mut g, t);
    let expected = 1.0 - g.value(t) * g.value(t);
    assert!(close(g.gradient(a), expected, 1e-9));
    assert!(close(g.value(t), 0.46211715726000974, 1e-12));
    assert!(close(g.gradient(a), 0.7864477329659274, 1e-9));
}

#[test]
fn diamond_accumulates_over_both_paths() {
    let mut g = graph();
    let a = leaf(&mut g, -2.0);
    let b = leaf(&mut g, 3.0);
    let d = product(&mut g, a, b);
    let e = sum(&mut g, a, b);
    let f = product(&mut g, d, e);
    backward(&mut g, f);
    assert_eq!(g.value(d), -6.0);
    assert_eq!(g.value(e), 1.0);
    assert_eq!(g.value(f), -6.0);
    assert_eq!(g.gradient(f), 1.0);
    assert_eq!(g.gradient(d), 1.0);
    assert_eq!(g.gradient(e), -6.0);
    assert_eq!(g.gradient(a), -3.0);
    assert_eq!(g.gradient(b), -8.0);
}

#[test]
fn neuron_gradients() {
    let mut g = graph();
    let x1 = leaf(&mut g, 2.0);
    let x2 = leaf(&mut g, 0.0);
    let w1 = leaf(&mut g, -3.0);
    let w2 = leaf(&mut g, 1.0);
    let b = leaf(&mut g, 6.8813735870195432);
    let x1w1 = product(&mut g, x1, w1);
    let x2w2 = product(&mut g, x2, w2);
    let x1w1x2w2 = sum(&mut g, x1w1, x2w2);
    let n = sum(&mut g, x1w1x2w2, b);
    let o = tanh(&mut g, n);
    backward(&mut g, o);
    assert!(close(g.value(o), 0.7071067811865476, 1e-6));
    assert!(close(g.gradient(x2), 0.5, 1e-6));
    assert!(close(g.gradient(w2), 0.0, 1e-6));
    assert!(close(g.gradient(x1), -1.5, 1e-6));
    assert!(close(g.gradient(w1), 1.0, 1e-6));
    assert_eq!(g.gradient(o), 1.0);
    assert!(close(g.gradient(n), 0.5, 1e-6));
    assert!(close(g.gradient(b), 0.5, 1e-6));
}

#[test]
fn same_expression_twice_gives_equal_values_and_distinct_nodes() {
    let mut g = graph();
    let a1 = leaf(&mut g, 1.5);
    let b1 = leaf(&mut g, -4.0);
    let e1 = product(&mut g, a1, b1);
    let t1 = tanh(&mut g, e1);
    let a2 = leaf(&mut g, 1.5);
    let b2 = leaf(&mut g, -4.0);
    let e2 = product(&mut g, a2, b2);
    let t2 = tanh(&mut g, e2);
    assert_eq!(g.value(e1), g.value(e2));
    assert_eq!(g.value(t1), g.value(t2));
    assert_ne!(a1, a2);
    assert_ne!(b1, b2);
    assert_ne!(e1, e2);
    assert_ne!(t1, t2);
    assert_eq!(g.node(e1).prev(), &vec![a1, b1]);
    assert_eq!(g.node(e2).prev(), &vec![a2, b2]);
}

#[test]
fn untouched_nodes_keep_a_zero_gradient() {
    let mut g = graph();
    let a = leaf(&mut g, 2.0);
    let b = leaf(&mut g, 5.0);
    let c = leaf(&mut g, 7.0);
    let s = sum(&mut g, a, b);
    let other = product(&mut g, s, c);
    assert_eq!(g.gradient(a), 0.0);
    backward(&mut g, s);
    assert_eq!(g.gradient(a), 1.0);
    assert_eq!(g.gradient(b), 1.0);
    assert_eq!(g.gradient(c), 0.0);
    assert_eq!(g.gradient(other), 0.0);
}

#[test]
fn second_pass_without_reset_accumulates_again() {
    let mut g = graph();
    let a = leaf(&mut g, 2.0);
    let b = leaf(&mut g, 5.0);
    let p = product(&mut g, a, b);
    backward(&mut g, p);
    backward(&mut g, p);
    assert_eq!(g.gradient(p), 1.0);
    assert_eq!(g.gradient(a), 10.0);
    assert_eq!(g.gradient(b), 4.0);
}

#[test]
fn operators_leave_their_operands_as_they_were() {
    let mut g = graph();
    let a = leaf(&mut g, 2.0);
    let b = leaf(&mut g, 5.0);
    let before_a = g.node(a).clone();
    let before_b = g.node(b).clone();
    let s = sum(&mut g, a, b);
    let p = product(&mut g, s, a);
    let t = tanh(&mut g, p);
    assert!(g.node(a) == &before_a);
    assert!(g.node(b) == &before_b);
    assert_eq!(g.len(), 5);
    assert_eq!(t, Value(4));
    assert_eq!(g.gradient(s), 0.0);
    assert_eq!(g.gradient(p), 0.0);
    assert_eq!(g.gradient(t), 0.0);
}
