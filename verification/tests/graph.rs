use scalar_graph::{Graph, GraphError, Op, Value};

#[test]
fn new_arena_is_empty() {
    let g = Graph::new();
    assert_eq!(g.len(), 0);
    assert!(!g.has(Value { index: 0 }));
}

#[test]
fn leaf_holds_what_it_was_given() {
    let mut g = Graph::new();
    let x = g.leaf(42, "x");
    assert_eq!(x, Value { index: 0 });
    assert_eq!(g.len(), 1);
    assert!(g.has(x));
    assert!(!g.has(Value { index: 1 }));
    assert_eq!(g.data(x), 42);
    assert_eq!(g.grad(x), 0);
    assert_eq!(g.label(x), "x");
    assert_eq!(g.operation(x), None);
    assert_eq!(g.children(x), Vec::<Value>::new());
}

#[test]
fn binary_operators_match_integer_arithmetic() {
    let mut g = Graph::new();
    let two = g.leaf(2, "");
    let three = g.leaf(3, "");
    let sum = g.add(two, three).unwrap();
    assert_eq!(g.data(sum), 5);
    let difference = g.sub(two, three).unwrap();
    assert_eq!(g.data(difference), -1);
    let product = g.mul(two, three).unwrap();
    assert_eq!(g.data(product), 6);
    let six = g.leaf(6, "");
    let ratio = g.div(six, three).unwrap();
    assert_eq!(g.data(ratio), 2);
}

#[test]
fn division_rounds_toward_zero() {
    let mut g = Graph::new();
    let seven = g.leaf(7, "");
    let minus_seven = g.leaf(-7, "");
    let two = g.leaf(2, "");
    let minus_two = g.leaf(-2, "");
    let a = g.div(seven, two).unwrap();
    let b = g.div(minus_seven, two).unwrap();
    let c = g.div(seven, minus_two).unwrap();
    let d = g.div(minus_seven, minus_two).unwrap();
    assert_eq!(g.data(a), 3);
    assert_eq!(g.data(b), -3);
    assert_eq!(g.data(c), -3);
    assert_eq!(g.data(d), 3);
}

#[test]
fn operators_record_operation_and_operands() {
    let mut g = Graph::new();
    let x = g.leaf(10, "x");
    let y = g.leaf(4, "y");
    let s = g.add(x, y).unwrap();
    let d = g.sub(x, y).unwrap();
    let p = g.mul(x, y).unwrap();
    let q = g.div(x, y).unwrap();
    let t = g.tanh(x);
    assert_eq!(g.operation(s), Some(Op::Add));
    assert_eq!(g.operation(d), Some(Op::Sub));
    assert_eq!(g.operation(p), Some(Op::Mul));
    assert_eq!(g.operation(q), Some(Op::Div));
    assert_eq!(g.operation(t), Some(Op::Tanh));
    assert_eq!(g.children(s), vec![x, y]);
    assert_eq!(g.children(d), vec![x, y]);
    assert_eq!(g.children(p), vec![x, y]);
    assert_eq!(g.children(q), vec![x, y]);
    assert_eq!(g.children(t), vec![x]);
    assert_eq!(g.label(s), "");
    assert_eq!(g.grad(s), 0);
    assert_eq!(g.len(), 7);
}

#[test]
fn subtract_keeps_operand_order() {
    let mut g = Graph::new();
    let x = g.leaf(1, "x");
    let y = g.leaf(2, "y");
    let c = g.sub(y, x).unwrap();
    assert_eq!(g.children(c), vec![y, x]);
    assert_eq!(g.data(c), 1);
}

#[test]
fn operators_leave_operands_alone() {
    let mut g = Graph::new();
    let x = g.leaf(5, "x");
    let y = g.leaf(6, "y");
    let _ = g.mul(x, y).unwrap();
    assert_eq!(g.data(x), 5);
    assert_eq!(g.data(y), 6);
    assert_eq!(g.label(x), "x");
    assert_eq!(g.operation(x), None);
    assert_eq!(g.children(y), Vec::<Value>::new());
}

#[test]
fn division_by_zero_is_refused() {
    let mut g = Graph::new();
    let one = g.leaf(1, "");
    let zero = g.leaf(0, "");
    assert_eq!(g.div(one, zero), Err(GraphError::DivisionByZero));
    assert_eq!(g.len(), 2);
    assert_eq!(g.div(zero, zero), Err(GraphError::DivisionByZero));
    let ok = g.div(zero, one).unwrap();
    assert_eq!(g.data(ok), 0);
}

#[test]
fn overflow_is_refused() {
    let mut g = Graph::new();
    let max = g.leaf(i64::MAX, "");
    let min = g.leaf(i64::MIN, "");
    let one = g.leaf(1, "");
    let two = g.leaf(2, "");
    let minus_one = g.leaf(-1, "");
    assert_eq!(g.add(max, one), Err(GraphError::Overflow));
    assert_eq!(g.sub(min, one), Err(GraphError::Overflow));
    assert_eq!(g.mul(max, two), Err(GraphError::Overflow));
    assert_eq!(g.div(min, minus_one), Err(GraphError::Overflow));
    assert_eq!(g.len(), 5);
    let edge = g.add(max, minus_one).unwrap();
    assert_eq!(g.data(edge), i64::MAX - 1);
}

#[test]
fn tanh_rounds_to_the_sign() {
    let mut g = Graph::new();
    let neg = g.leaf(-5, "");
    let zero = g.leaf(0, "");
    let pos = g.leaf(9, "");
    let a = g.tanh(neg);
    let b = g.tanh(zero);
    let c = g.tanh(pos);
    assert_eq!(g.data(a), -1);
    assert_eq!(g.data(b), 0);
    assert_eq!(g.data(c), 1);
}

#[test]
fn set_label_is_seen_through_every_handle() {
    let mut g = Graph::new();
    let x = g.leaf(1, "x");
    let y = g.leaf(2, "y");
    let alias = x;
    g.set_label(alias, "renamed");
    assert_eq!(g.label(x), "renamed");
    assert_eq!(g.label(y), "y");
    assert_eq!(g.data(x), 1);
}

#[test]
fn add_grad_accumulates() {
    let mut g = Graph::new();
    let x = g.leaf(1, "x");
    let y = g.leaf(2, "y");
    assert_eq!(g.add_grad(x, 3), Ok(()));
    assert_eq!(g.add_grad(x, -5), Ok(()));
    assert_eq!(g.grad(x), -2);
    assert_eq!(g.grad(y), 0);
    assert_eq!(g.data(x), 1);
}

#[test]
fn add_grad_refuses_overflow() {
    let mut g = Graph::new();
    let x = g.leaf(1, "x");
    assert_eq!(g.add_grad(x, i64::MAX), Ok(()));
    assert_eq!(g.add_grad(x, 1), Err(GraphError::Overflow));
    assert_eq!(g.grad(x), i64::MAX);
}

#[test]
fn op_symbols() {
    assert_eq!(Op::Add.symbol(), "+");
    assert_eq!(Op::Sub.symbol(), "-");
    assert_eq!(Op::Mul.symbol(), "*");
    assert_eq!(Op::Div.symbol(), "/");
    assert_eq!(Op::Tanh.symbol(), "tanh");
}

#[test]
fn operators_hand_out_the_next_position() {
    let mut g = Graph::new();
    let a = g.leaf(8, "a");
    let b = g.leaf(2, "b");
    assert_eq!(g.add(a, b), Ok(Value { index: 2 }));
    assert_eq!(g.sub(a, b), Ok(Value { index: 3 }));
    assert_eq!(g.mul(a, b), Ok(Value { index: 4 }));
    assert_eq!(g.div(a, b), Ok(Value { index: 5 }));
    assert_eq!(g.tanh(a), Value { index: 6 });
    assert_eq!(g.len(), 7);
}
