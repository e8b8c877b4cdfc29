use scalar_graph::{is_rankdir, statements, to_dot, trace, write_document, Graph, Op, Statement};

#[test]
fn leaf_document() {
    let mut g = Graph::new();
    let v = g.leaf(-12, "x1");
    let expected = "digraph G {\n  rankdir=LR;\n  node [shape=record];\n  \"0\" [label=\"{ x1 | data: -12 | grad: 0 }\"];\n}\n";
    assert_eq!(to_dot(&g, v, "LR"), expected);
}

#[test]
fn top_to_bottom_document() {
    let mut g = Graph::new();
    let v = g.leaf(0, "");
    let expected = "digraph G {\n  rankdir=TB;\n  node [shape=record];\n  \"0\" [label=\"{  | data: 0 | grad: 0 }\"];\n}\n";
    assert_eq!(to_dot(&g, v, "TB"), expected);
}

#[test]
fn subtraction_document_keeps_operand_order() {
    let mut g = Graph::new();
    let a = g.leaf(2, "a");
    let b = g.leaf(3, "b");
    let c = g.sub(a, b).unwrap();
    g.set_label(c, "c");
    g.add_grad(a, 4).unwrap();
    let text = to_dot(&g, c, "LR");
    let expected = [
        "digraph G {\n",
        "  rankdir=LR;\n",
        "  node [shape=record];\n",
        "  \"2\" [label=\"{ c | data: -1 | grad: 0 }\"];\n",
        "  \"2-\" [label=\"-\"];\n",
        "  \"2-\" -> \"2\";\n",
        "  \"0\" [label=\"{ a | data: 2 | grad: 4 }\"];\n",
        "  \"1\" [label=\"{ b | data: 3 | grad: 0 }\"];\n",
        "  \"0\" -> \"2-\";\n",
        "  \"1\" -> \"2-\";\n",
        "}\n",
    ]
    .concat();
    assert_eq!(text, expected);
    let first = text.find("\"0\" -> \"2-\"").unwrap();
    let second = text.find("\"1\" -> \"2-\"").unwrap();
    assert!(first < second);
}

#[test]
fn shared_operand_is_one_box_with_two_edges() {
    let mut g = Graph::new();
    let a = g.leaf(1, "a");
    let b = g.add(a, a).unwrap();
    let text = to_dot(&g, b, "LR");
    assert_eq!(text.matches("[label=\"{").count(), 2);
    assert_eq!(text.matches("  \"0\" -> \"1+\";\n").count(), 2);
}

#[test]
fn box_counts_follow_the_walk() {
    let mut g = Graph::new();
    let x1 = g.leaf(2, "x1");
    let x2 = g.leaf(0, "x2");
    let w1 = g.leaf(-3, "w1");
    let w2 = g.leaf(1, "w2");
    let b = g.leaf(7, "b");
    let x1w1 = g.mul(x1, w1).unwrap();
    g.set_label(x1w1, "x1w1");
    let x2w2 = g.mul(x2, w2).unwrap();
    g.set_label(x2w2, "x2w2");
    let partial = g.add(x1w1, x2w2).unwrap();
    let sum = g.add(partial, b).unwrap();
    g.set_label(sum, "sum");
    let activated = g.tanh(sum);
    g.set_label(activated, "activated");

    let (nodes, edges) = trace(&g, activated);
    let with_operation = nodes.iter().filter(|n| g.operation(**n).is_some()).count();
    let stmts = statements(&g, &nodes, &edges);
    let value_boxes = stmts
        .iter()
        .filter(|s| matches!(s, Statement::ValueBox { .. }))
        .count();
    let op_boxes = stmts
        .iter()
        .filter(|s| matches!(s, Statement::OpBox { .. }))
        .count();
    assert_eq!(nodes.len(), 10);
    assert_eq!(with_operation, 5);
    assert_eq!(value_boxes, nodes.len());
    assert_eq!(op_boxes, with_operation);

    let text = to_dot(&g, activated, "LR");
    assert_eq!(text.matches("[label=\"{").count(), nodes.len());
    assert_eq!(text.matches("\" [label=\"").count() - nodes.len(), with_operation);
    assert_eq!(text, write_document(&g, &stmts, "LR"));
    assert!(text.starts_with("digraph G {\n  rankdir=LR;\n  node [shape=record];\n"));
    assert!(text.ends_with("}\n"));
    assert!(text.contains("  \"9\" [label=\"{ activated | data: 1 | grad: 0 }\"];\n"));
    assert!(text.contains("  \"9tanh\" [label=\"tanh\"];\n"));
    assert!(text.contains("  \"9tanh\" -> \"9\";\n"));
    assert!(text.contains("  \"8\" -> \"9tanh\";\n"));
    assert!(text.contains("  \"5\" [label=\"{ x1w1 | data: -6 | grad: 0 }\"];\n"));
}

#[test]
fn statements_of_a_product() {
    let mut g = Graph::new();
    let a = g.leaf(2, "a");
    let b = g.leaf(3, "b");
    let p = g.mul(a, b).unwrap();
    let (nodes, edges) = trace(&g, p);
    assert_eq!(
        statements(&g, &nodes, &edges),
        vec![
            Statement::ValueBox { node: p },
            Statement::OpBox { node: p, op: Op::Mul },
            Statement::OpLink { node: p, op: Op::Mul },
            Statement::ValueBox { node: a },
            Statement::ValueBox { node: b },
            Statement::Operand { child: a, parent: p, op: Op::Mul },
            Statement::Operand { child: b, parent: p, op: Op::Mul },
        ]
    );
}

#[test]
fn numbers_are_written_in_decimal() {
    let mut g = Graph::new();
    let mut last = g.leaf(i64::MIN, "low");
    g.add_grad(last, i64::MAX).unwrap();
    let text = to_dot(&g, last, "LR");
    assert!(text.contains(
        "  \"0\" [label=\"{ low | data: -9223372036854775808 | grad: 9223372036854775807 }\"];\n"
    ));
    for _ in 0..120 {
        last = g.leaf(1005, "n");
    }
    let text = to_dot(&g, last, "TB");
    assert!(text.contains("  \"120\" [label=\"{ n | data: 1005 | grad: 0 }\"];\n"));
}

#[test]
fn refused_division_leaves_the_rest_drawable() {
    let mut g = Graph::new();
    let one = g.leaf(1, "one");
    let zero = g.leaf(0, "zero");
    assert!(g.div(one, zero).is_err());
    let sum = g.add(one, zero).unwrap();
    let expected = [
        "digraph G {\n",
        "  rankdir=LR;\n",
        "  node [shape=record];\n",
        "  \"2\" [label=\"{  | data: 1 | grad: 0 }\"];\n",
        "  \"2+\" [label=\"+\"];\n",
        "  \"2+\" -> \"2\";\n",
        "  \"0\" [label=\"{ one | data: 1 | grad: 0 }\"];\n",
        "  \"1\" [label=\"{ zero | data: 0 | grad: 0 }\"];\n",
        "  \"0\" -> \"2+\";\n",
        "  \"1\" -> \"2+\";\n",
        "}\n",
    ]
    .concat();
    assert_eq!(to_dot(&g, sum, "LR"), expected);
}

#[test]
fn only_two_layout_directions_are_valid() {
    assert!(is_rankdir("LR"));
    assert!(is_rankdir("TB"));
    assert!(!is_rankdir("BT"));
    assert!(!is_rankdir("RL"));
    assert!(!is_rankdir("lr"));
    assert!(!is_rankdir(""));
    assert!(!is_rankdir("LR "));
}

#[test]
fn every_node_gets_a_box_name_of_its_own() {
    let mut g = Graph::new();
    let mut root = g.leaf(1, "first");
    for _ in 0..25 {
        let next = g.leaf(1, "next");
        root = g.add(root, next).unwrap();
    }
    let (nodes, edges) = trace(&g, root);
    assert_eq!(nodes.len(), 51);
    assert_eq!(edges.len(), 50);
    let text = to_dot(&g, root, "TB");
    let mut names: Vec<&str> = text
        .lines()
        .filter(|line| line.contains("[label=\"{"))
        .map(|line| line.split('"').nth(1).unwrap())
        .collect();
    assert_eq!(names.len(), 51);
    names.sort();
    names.dedup();
    assert_eq!(names.len(), 51);
    assert!(names.contains(&"0"));
    assert!(names.contains(&"50"));
    assert!(!names.contains(&"51"));
}

#[test]
fn unary_operation_is_drawn_with_its_name() {
    let mut g = Graph::new();
    let x = g.leaf(-4, "x");
    let t = g.tanh(x);
    let expected = [
        "digraph G {\n",
        "  rankdir=LR;\n",
        "  node [shape=record];\n",
        "  \"1\" [label=\"{  | data: -1 | grad: 0 }\"];\n",
        "  \"1tanh\" [label=\"tanh\"];\n",
        "  \"1tanh\" -> \"1\";\n",
        "  \"0\" [label=\"{ x | data: -4 | grad: 0 }\"];\n",
        "  \"0\" -> \"1tanh\";\n",
        "}\n",
    ]
    .concat();
    assert_eq!(to_dot(&g, t, "LR"), expected);
}

#[test]
fn quote_in_a_label_is_escaped() {
    let mut g = Graph::new();
    let v = g.leaf(1, "say \"hi\"");
    let expected = [
        "digraph G {\n",
        "  rankdir=LR;\n",
        "  node [shape=record];\n",
        "  \"0\" [label=\"{ say \\\"hi\\\" | data: 1 | grad: 0 }\"];\n",
        "}\n",
    ]
    .concat();
    assert_eq!(to_dot(&g, v, "LR"), expected);
}

#[test]
fn record_structure_in_a_label_is_escaped() {
    let mut g = Graph::new();
    let v = g.leaf(5, "{a|b} <p> c\\d");
    let text = to_dot(&g, v, "TB");
    assert!(text.contains(
        "  \"0\" [label=\"{ \\{a\\|b\\} \\<p\\> c\\\\d | data: 5 | grad: 0 }\"];\n"
    ));
    assert_eq!(text.lines().count(), 5);
}

#[test]
fn plain_and_non_ascii_labels_are_written_as_they_are() {
    let mut g = Graph::new();
    let v = g.leaf(0, "w\u{e9}ight_1 (\u{3b1}), 50%");
    let text = to_dot(&g, v, "LR");
    assert!(text.contains(
        "  \"0\" [label=\"{ w\u{e9}ight_1 (\u{3b1}), 50% | data: 0 | grad: 0 }\"];\n"
    ));
}

#[test]
fn escaped_label_of_an_inner_node() {
    let mut g = Graph::new();
    let a = g.leaf(2, "a|b");
    let b = g.leaf(3, "");
    let c = g.mul(a, b).unwrap();
    g.set_label(c, "\"");
    let expected = [
        "digraph G {\n",
        "  rankdir=LR;\n",
        "  node [shape=record];\n",
        "  \"2\" [label=\"{ \\\" | data: 6 | grad: 0 }\"];\n",
        "  \"2*\" [label=\"*\"];\n",
        "  \"2*\" -> \"2\";\n",
        "  \"0\" [label=\"{ a\\|b | data: 2 | grad: 0 }\"];\n",
        "  \"1\" [label=\"{  | data: 3 | grad: 0 }\"];\n",
        "  \"0\" -> \"2*\";\n",
        "  \"1\" -> \"2*\";\n",
        "}\n",
    ]
    .concat();
    assert_eq!(to_dot(&g, c, "LR"), expected);
    assert_eq!(g.label(c), "\"");
}
