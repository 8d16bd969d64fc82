use std::cell::Cell;

use expression_graph::computational_graph::{
    Application, BinaryOp, Graph, Node, NodeData, SetError, UnaryOp,
};

fn bits(x: f32) -> u32 {
    x.to_bits()
}

fn scalar(b: u32) -> f32 {
    f32::from_bits(b)
}

fn apply(app: Application) -> u32 {
    match app {
        Application::Unary(UnaryOp::Sin, x) => bits(scalar(x).sin()),
        Application::Binary(BinaryOp::Add, a, b) => bits(scalar(a) + scalar(b)),
        Application::Binary(BinaryOp::Mul, a, b) => bits(scalar(a) * scalar(b)),
        Application::Binary(BinaryOp::Pow, a, b) => bits(scalar(a).powf(scalar(b))),
    }
}

fn round(x: f32, precision: u32) -> f32 {
    let m = 10i32.pow(precision) as f32;
    (x * m).round() / m
}

fn data(node: &Node) -> &NodeData {
    match node {
        Node::Input { data, .. } => data,
        Node::Binary { data, .. } => data,
        Node::Unary { data, .. } => data,
    }
}

fn caches<E: Fn(Application) -> u32>(graph: &Graph<E>) -> Vec<Option<u32>> {
    let mut all = Vec::new();
    for i in 0..graph.len() {
        all.push(data(graph.node(i)).cache);
    }
    all
}

/// x1 + x2 * sin(x2 + x3 ^ x4); returns the inputs and the output node.
fn build<E: Fn(Application) -> u32>(
    graph: &mut Graph<E>,
    values: [f32; 4],
) -> ([usize; 4], usize) {
    let x1 = Node::create_input(graph, bits(values[0]));
    let x2 = Node::create_input(graph, bits(values[1]));
    let x3 = Node::create_input(graph, bits(values[2]));
    let x4 = Node::create_input(graph, bits(values[3]));
    let power = Node::create_pow(graph, x3, x4);
    let sum = Node::create_add(graph, x2, power);
    let sine = Node::create_sin(graph, sum);
    let product = Node::create_mul(graph, x2, sine);
    let out = Node::create_add(graph, x1, product);
    ([x1, x2, x3, x4], out)
}

#[test]
fn reference_graph_evaluates_and_reevaluates() {
    let mut graph = Graph::new(apply);
    let (inputs, out) = build(&mut graph, [1.0, 2.0, 3.0, 3.0]);

    let result = scalar(Node::compute(&mut graph, out));
    assert_eq!(round(result, 5), -0.32727);

    Node::set(&mut graph, inputs[0], bits(2.0));
    Node::set(&mut graph, inputs[1], bits(3.0));
    Node::set(&mut graph, inputs[2], bits(4.0));
    Node::set(&mut graph, inputs[3], bits(3.0));
    let result = scalar(Node::compute(&mut graph, out));
    assert_eq!(round(result, 5), -0.56656);
}

#[test]
fn new_graph_is_empty() {
    let graph = Graph::new(apply);
    assert_eq!(graph.len(), 0);
    assert!(!graph.is_input(0));
}

#[test]
fn input_holds_its_scalar() {
    let mut graph = Graph::new(apply);
    let x = Node::create_input(&mut graph, bits(1.5));
    assert_eq!(x, 0);
    assert_eq!(graph.len(), 1);
    assert!(graph.is_input(x));
    match graph.node(x) {
        Node::Input { x, data } => {
            assert_eq!(*x, bits(1.5));
            assert_eq!(data.cache, Some(bits(1.5)));
            assert!(data.dependents.is_empty());
        }
        _ => panic!("not an input"),
    }
    assert_eq!(Node::compute(&mut graph, x), bits(1.5));
}

#[test]
fn construction_wires_dependents() {
    let mut graph = Graph::new(apply);
    let a = Node::create_input(&mut graph, bits(1.0));
    let b = Node::create_input(&mut graph, bits(2.0));
    let sum = Node::create_add(&mut graph, a, b);
    let sine = Node::create_sin(&mut graph, sum);
    let product = Node::create_mul(&mut graph, a, sum);

    assert_eq!((a, b, sum, sine, product), (0, 1, 2, 3, 4));
    assert_eq!(data(graph.node(a)).dependents, vec![sum, product]);
    assert_eq!(data(graph.node(b)).dependents, vec![sum]);
    assert_eq!(data(graph.node(sum)).dependents, vec![sine, product]);
    assert!(data(graph.node(sine)).dependents.is_empty());
    assert!(data(graph.node(product)).dependents.is_empty());

    match graph.node(sum) {
        Node::Binary { op, a: left, b: right, data } => {
            assert_eq!(*op, BinaryOp::Add);
            assert_eq!((*left, *right), (a, b));
            assert_eq!(data.cache, None);
        }
        _ => panic!("not a binary node"),
    }
    match graph.node(sine) {
        Node::Unary { op, x, data } => {
            assert_eq!(*op, UnaryOp::Sin);
            assert_eq!(*x, sum);
            assert_eq!(data.cache, None);
        }
        _ => panic!("not a unary node"),
    }
    assert!(!graph.is_input(sum));
    assert!(!graph.is_input(sine));
}

#[test]
fn node_reading_one_operand_twice_is_listed_twice() {
    let mut graph = Graph::new(apply);
    let x = Node::create_input(&mut graph, bits(3.0));
    let square = Node::create_mul(&mut graph, x, x);
    assert_eq!(data(graph.node(x)).dependents, vec![square, square]);
    assert_eq!(Node::compute(&mut graph, square), bits(9.0));
    Node::set(&mut graph, x, bits(4.0));
    assert_eq!(data(graph.node(square)).cache, None);
    assert_eq!(Node::compute(&mut graph, square), bits(16.0));
}

#[test]
fn general_constructors_agree_with_named_ones() {
    let mut graph = Graph::new(apply);
    let a = Node::create_input(&mut graph, bits(2.0));
    let b = Node::create_input(&mut graph, bits(5.0));
    let sum = Node::create_binary_node(&mut graph, BinaryOp::Add, a, b);
    let product = Node::create_binary_node(&mut graph, BinaryOp::Mul, a, b);
    let power = Node::create_binary_node(&mut graph, BinaryOp::Pow, a, b);
    let sine = Node::create_unary_node(&mut graph, UnaryOp::Sin, a);
    assert_eq!(Node::compute(&mut graph, sum), bits(7.0));
    assert_eq!(Node::compute(&mut graph, product), bits(10.0));
    assert_eq!(Node::compute(&mut graph, power), bits(32.0));
    assert_eq!(Node::compute(&mut graph, sine), bits(2.0f32.sin()));
    assert_eq!(data(graph.node(a)).dependents, vec![sum, product, power, sine]);
    assert_eq!(data(graph.node(b)).dependents, vec![sum, product, power]);
}

#[test]
fn add_is_the_sum() {
    let mut graph = Graph::new(apply);
    let a = Node::create_input(&mut graph, bits(1.5));
    let b = Node::create_input(&mut graph, bits(2.25));
    let sum = Node::create_add(&mut graph, a, b);
    assert_eq!(Node::compute(&mut graph, sum), bits(3.75));
}

#[test]
fn mul_is_the_product() {
    let mut graph = Graph::new(apply);
    let a = Node::create_input(&mut graph, bits(1.5));
    let b = Node::create_input(&mut graph, bits(-4.0));
    let product = Node::create_mul(&mut graph, a, b);
    assert_eq!(Node::compute(&mut graph, product), bits(-6.0));
}

#[test]
fn pow_raises_left_to_right() {
    let mut graph = Graph::new(apply);
    let a = Node::create_input(&mut graph, bits(2.0));
    let b = Node::create_input(&mut graph, bits(10.0));
    let power = Node::create_pow(&mut graph, a, b);
    let reversed = Node::create_pow(&mut graph, b, a);
    assert_eq!(Node::compute(&mut graph, power), bits(1024.0));
    assert_eq!(Node::compute(&mut graph, reversed), bits(100.0));
}

#[test]
fn pow_with_fractional_and_negative_exponents() {
    let mut graph = Graph::new(apply);
    let four = Node::create_input(&mut graph, bits(4.0));
    let half = Node::create_input(&mut graph, bits(0.5));
    let minus_one = Node::create_input(&mut graph, bits(-1.0));
    let root = Node::create_pow(&mut graph, four, half);
    let inverse = Node::create_pow(&mut graph, four, minus_one);
    assert_eq!(Node::compute(&mut graph, root), bits(2.0));
    assert_eq!(Node::compute(&mut graph, inverse), bits(0.25));
}

#[test]
fn pow_outside_its_domain_is_not_a_number() {
    let mut graph = Graph::new(apply);
    let base = Node::create_input(&mut graph, bits(-1.0));
    let exponent = Node::create_input(&mut graph, bits(0.5));
    let power = Node::create_pow(&mut graph, base, exponent);
    let result = Node::compute(&mut graph, power);
    assert!(scalar(result).is_nan());
    assert_eq!(data(graph.node(power)).cache, Some(result));
    assert_eq!(Node::compute(&mut graph, power), result);
}

#[test]
fn sin_is_the_sine_in_radians() {
    let mut graph = Graph::new(apply);
    let zero = Node::create_input(&mut graph, bits(0.0));
    let one = Node::create_input(&mut graph, bits(1.0));
    let sine_of_zero = Node::create_sin(&mut graph, zero);
    let sine_of_one = Node::create_sin(&mut graph, one);
    assert_eq!(Node::compute(&mut graph, sine_of_zero), bits(0.0));
    let result = scalar(Node::compute(&mut graph, sine_of_one));
    assert_eq!(round(result, 5), 0.84147);
}

#[test]
fn evaluation_remembers_what_it_works_out() {
    let mut graph = Graph::new(apply);
    let (_, out) = build(&mut graph, [1.0, 2.0, 3.0, 3.0]);
    assert_eq!(caches(&graph)[4..], [None, None, None, None, None]);

    // evaluating an inner node fills it and what lies below it, nothing above
    let sum = 5;
    assert_eq!(Node::compute(&mut graph, sum), bits(29.0));
    assert_eq!(
        caches(&graph)[4..],
        [Some(bits(27.0)), Some(bits(29.0)), None, None, None]
    );

    let result = Node::compute(&mut graph, out);
    let sine = bits(29.0f32.sin());
    let product = bits(2.0 * 29.0f32.sin());
    assert_eq!(
        caches(&graph)[4..],
        [Some(bits(27.0)), Some(bits(29.0)), Some(sine), Some(product), Some(result)]
    );
    assert_eq!(result, bits(1.0 + 2.0 * 29.0f32.sin()));
}

#[test]
fn repeated_evaluation_is_identical_and_applies_nothing() {
    let applications = Cell::new(0usize);
    let mut graph = Graph::new(|app: Application| {
        applications.set(applications.get() + 1);
        apply(app)
    });
    let (_, out) = build(&mut graph, [1.0, 2.0, 3.0, 3.0]);

    let first = Node::compute(&mut graph, out);
    assert_eq!(applications.get(), 5);
    let state = caches(&graph);

    let second = Node::compute(&mut graph, out);
    assert_eq!(second, first);
    assert_eq!(applications.get(), 5);
    assert_eq!(caches(&graph), state);

    // inner nodes answer from what they remember too
    for node in 0..graph.len() {
        Node::compute(&mut graph, node);
    }
    assert_eq!(applications.get(), 5);
    assert_eq!(caches(&graph), state);
}

#[test]
fn evaluating_an_input_applies_nothing() {
    let applications = Cell::new(0usize);
    let mut graph = Graph::new(|app: Application| {
        applications.set(applications.get() + 1);
        apply(app)
    });
    let x = Node::create_input(&mut graph, bits(7.0));
    let sine = Node::create_sin(&mut graph, x);
    assert_eq!(Node::compute(&mut graph, x), bits(7.0));
    assert_eq!(applications.get(), 0);
    assert_eq!(data(graph.node(sine)).cache, None);
}

#[test]
fn assignment_is_equivalent_to_rebuilding() {
    let mut graph = Graph::new(apply);
    let (inputs, out) = build(&mut graph, [1.0, 2.0, 3.0, 3.0]);
    Node::compute(&mut graph, out);

    let mut values = [1.0f32, 2.0, 3.0, 3.0];
    let changes = [(1usize, 3.0f32), (2, 4.0), (0, 2.0), (3, 2.5), (1, -0.5)];
    for (which, value) in changes {
        values[which] = value;
        Node::set(&mut graph, inputs[which], bits(value));

        let mut fresh = Graph::new(apply);
        build(&mut fresh, values);
        for node in 0..graph.len() {
            let kept = Node::compute(&mut graph, node);
            let rebuilt = Node::compute(&mut fresh, node);
            assert_eq!(kept, rebuilt);
        }
        assert_eq!(caches(&graph), caches(&fresh));
    }
}

#[test]
fn assignment_forgets_exactly_what_depends_on_the_input() {
    let mut graph = Graph::new(apply);
    let (inputs, out) = build(&mut graph, [1.0, 2.0, 3.0, 3.0]);
    let result = Node::compute(&mut graph, out);
    let before = caches(&graph);

    // x1 feeds the output node alone
    Node::set(&mut graph, inputs[0], bits(5.0));
    let after = caches(&graph);
    assert_eq!(after[0], Some(bits(5.0)));
    assert_eq!(after[1..8], before[1..8]);
    assert_eq!(after[8], None);
    assert_ne!(Node::compute(&mut graph, out), result);

    // x3 feeds the power, and through it everything above
    Node::set(&mut graph, inputs[2], bits(2.0));
    let after = caches(&graph);
    assert_eq!(
        after,
        vec![
            Some(bits(5.0)),
            Some(bits(2.0)),
            Some(bits(2.0)),
            Some(bits(3.0)),
            None,
            None,
            None,
            None,
            None
        ]
    );
    assert_eq!(
        Node::compute(&mut graph, out),
        bits(5.0 + 2.0 * 10.0f32.sin())
    );
}

#[test]
fn assigning_twice_is_assigning_once() {
    let mut once = Graph::new(apply);
    let (inputs, out) = build(&mut once, [1.0, 2.0, 3.0, 3.0]);
    Node::compute(&mut once, out);
    Node::set(&mut once, inputs[1], bits(3.0));

    let mut twice = Graph::new(apply);
    let (inputs, out) = build(&mut twice, [1.0, 2.0, 3.0, 3.0]);
    Node::compute(&mut twice, out);
    Node::set(&mut twice, inputs[1], bits(3.0));
    Node::set(&mut twice, inputs[1], bits(3.0));

    assert_eq!(caches(&once), caches(&twice));
    assert_eq!(Node::compute(&mut once, out), Node::compute(&mut twice, out));
    assert_eq!(caches(&once), caches(&twice));
}

#[test]
fn assigning_the_value_held_still_forgets() {
    let mut graph = Graph::new(apply);
    let x = Node::create_input(&mut graph, bits(1.0));
    let sine = Node::create_sin(&mut graph, x);
    let result = Node::compute(&mut graph, sine);
    Node::set(&mut graph, x, bits(1.0));
    assert_eq!(data(graph.node(sine)).cache, None);
    assert_eq!(Node::compute(&mut graph, sine), result);
}

#[test]
fn shared_operand_is_worked_out_once_and_forgotten_with_both_parents() {
    let sines = Cell::new(0usize);
    let others = Cell::new(0usize);
    let mut graph = Graph::new(|app: Application| {
        match app {
            Application::Unary(..) => sines.set(sines.get() + 1),
            Application::Binary(..) => others.set(others.get() + 1),
        }
        apply(app)
    });
    let x = Node::create_input(&mut graph, bits(0.5));
    let y = Node::create_input(&mut graph, bits(2.0));
    let shared = Node::create_sin(&mut graph, x);
    let left = Node::create_add(&mut graph, shared, y);
    let right = Node::create_mul(&mut graph, shared, y);
    let top = Node::create_pow(&mut graph, left, right);

    let result = Node::compute(&mut graph, top);
    assert_eq!(sines.get(), 1);
    assert_eq!(others.get(), 3);
    let s = 0.5f32.sin();
    assert_eq!(result, bits((s + 2.0).powf(s * 2.0)));
    assert!(caches(&graph).iter().all(|c| c.is_some()));

    Node::set(&mut graph, x, bits(0.25));
    assert_eq!(data(graph.node(shared)).cache, None);
    assert_eq!(data(graph.node(left)).cache, None);
    assert_eq!(data(graph.node(right)).cache, None);
    assert_eq!(data(graph.node(top)).cache, None);
    assert_eq!(data(graph.node(y)).cache, Some(bits(2.0)));

    let result = Node::compute(&mut graph, top);
    assert_eq!(sines.get(), 2);
    assert_eq!(others.get(), 6);
    let s = 0.25f32.sin();
    assert_eq!(result, bits((s + 2.0).powf(s * 2.0)));

    // an input that the shared operand does not read leaves it remembered
    Node::set(&mut graph, y, bits(3.0));
    assert_eq!(data(graph.node(shared)).cache, Some(bits(s)));
    assert_eq!(data(graph.node(left)).cache, None);
    assert_eq!(data(graph.node(right)).cache, None);
    assert_eq!(data(graph.node(top)).cache, None);
    Node::compute(&mut graph, top);
    assert_eq!(sines.get(), 2);
    assert_eq!(others.get(), 9);
}

#[test]
fn assigning_to_an_operator_node_is_refused() {
    let mut graph = Graph::new(apply);
    let (_, out) = build(&mut graph, [1.0, 2.0, 3.0, 3.0]);
    let result = Node::compute(&mut graph, out);
    let state = caches(&graph);

    // a binary node and a unary node
    assert!(!graph.is_input(out));
    assert!(!graph.is_input(6));
    assert_eq!(Node::try_set(&mut graph, out, bits(0.0)), Err(SetError::NotAnInput));
    assert_eq!(Node::try_set(&mut graph, 6, bits(0.0)), Err(SetError::NotAnInput));

    assert_eq!(caches(&graph), state);
    assert_eq!(Node::compute(&mut graph, out), result);
}

#[test]
fn assigning_to_a_missing_node_is_refused() {
    let mut graph = Graph::new(apply);
    let x = Node::create_input(&mut graph, bits(1.0));
    assert_eq!(Node::try_set(&mut graph, 1, bits(0.0)), Err(SetError::NoSuchNode));
    assert_eq!(Node::try_set(&mut graph, usize::MAX, bits(0.0)), Err(SetError::NoSuchNode));
    assert_eq!(graph.len(), 1);
    assert_eq!(Node::compute(&mut graph, x), bits(1.0));
}

#[test]
fn checked_assignment_to_an_input_assigns() {
    let mut graph = Graph::new(apply);
    let x = Node::create_input(&mut graph, bits(1.0));
    let y = Node::create_input(&mut graph, bits(2.0));
    let sum = Node::create_add(&mut graph, x, y);
    assert_eq!(Node::compute(&mut graph, sum), bits(3.0));
    assert_eq!(Node::try_set(&mut graph, x, bits(10.0)), Ok(()));
    assert_eq!(data(graph.node(x)).cache, Some(bits(10.0)));
    assert_eq!(data(graph.node(sum)).cache, None);
    assert_eq!(Node::compute(&mut graph, sum), bits(12.0));
}

#[test]
fn evaluator_is_asked_with_operator_and_operand_values() {
    let mut graph = Graph::new(|app: Application| match app {
        Application::Unary(UnaryOp::Sin, x) => x + 1,
        Application::Binary(BinaryOp::Add, a, b) => 1000 + 10 * a + b,
        Application::Binary(BinaryOp::Mul, a, b) => 2000 + 10 * a + b,
        Application::Binary(BinaryOp::Pow, a, b) => 3000 + 10 * a + b,
    });
    let a = Node::create_input(&mut graph, 3);
    let b = Node::create_input(&mut graph, 4);
    let sum = Node::create_add(&mut graph, a, b);
    let product = Node::create_mul(&mut graph, b, a);
    let power = Node::create_pow(&mut graph, a, b);
    let sine = Node::create_sin(&mut graph, b);
    assert_eq!(Node::compute(&mut graph, sum), 1034);
    assert_eq!(Node::compute(&mut graph, product), 2043);
    assert_eq!(Node::compute(&mut graph, power), 3034);
    assert_eq!(Node::compute(&mut graph, sine), 5);
}
