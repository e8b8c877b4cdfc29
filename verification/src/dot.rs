//! Drawing a graph: the statements of a diagram and their text.
use vstd::prelude::*;
use vstd::string::{StrSliceExecFns, StringExecFns};
use crate::graph::{graph_wf, has_node, Graph, NodeModel, Op, Value};
use crate::trace::{lemma_walk_keeps_operand_order, operands_drawn, trace, walk};

verus! {

/// One statement of a diagram.
#[derive(Clone, Copy, PartialEq, Eq, Structural, Debug)]
pub enum Statement {
    /// The record box of a node, showing its label, scalar and accumulator.
    ValueBox { node: Value },
    /// The small box that shows the operation of a node.
    OpBox { node: Value, op: Op },
    /// The edge from a node's operation box to its record box.
    OpLink { node: Value, op: Op },
    /// The edge from an operand's record box to its consumer's operation box.
    Operand { child: Value, parent: Value, op: Op },
}

/// The character of a decimal digit.
pub open spec fn digit_char(d: int) -> char {
    if d == 0 {
        '0'
    } else if d == 1 {
        '1'
    } else if d == 2 {
        '2'
    } else if d == 3 {
        '3'
    } else if d == 4 {
        '4'
    } else if d == 5 {
        '5'
    } else if d == 6 {
        '6'
    } else if d == 7 {
        '7'
    } else if d == 8 {
        '8'
    } else {
        '9'
    }
}

/// The decimal digits of a natural number, without leading zeros.
pub open spec fn digits(n: nat) -> Seq<char>
    decreases n,
{
    if n < 10 {
        seq![digit_char(n as int)]
    } else {
        digits(n / 10).push(digit_char((n % 10) as int))
    }
}

/// An integer in decimal, with a minus sign where it is negative.
pub open spec fn decimal(x: int) -> Seq<char> {
    if x < 0 {
        seq!['-'] + digits((-x) as nat)
    } else {
        digits(x as nat)
    }
}

/// The name of a node's record box: its position in the arena, in decimal.
/// Handles to one node share the name, and two nodes never do.
pub open spec fn key(v: Value) -> Seq<char> {
    decimal(v.index as int)
}

/// The name of a node's operation box: the node's name, then the operation's
/// symbol.
pub open spec fn op_key(v: Value, op: Op) -> Seq<char> {
    key(v) + op.symbol_text()
}

/// Whether `c` has a meaning of its own inside the quoted label of a record
/// box: the quote that would end the label, the backslash, and the braces,
/// bar and angle brackets that lay a record out.
pub open spec fn needs_escape(c: char) -> bool {
    c == '"' || c == '\\' || c == '{' || c == '}' || c == '|' || c == '<' || c == '>'
}

/// One character of a label as it is written into a record box: behind a
/// backslash where it would otherwise be read as structure.
pub open spec fn escaped_char(c: char) -> Seq<char> {
    if needs_escape(c) {
        seq!['\\', c]
    } else {
        seq![c]
    }
}

/// A label as it is written into a record box: each of its characters in
/// order, escaped where it needs to be.
pub open spec fn escaped(label: Seq<char>) -> Seq<char>
    decreases label.len(),
{
    if label.len() == 0 {
        Seq::empty()
    } else {
        escaped(label.drop_last()) + escaped_char(label.last())
    }
}

/// The statement's line of text.
pub open spec fn statement_text(g: Seq<NodeModel>, s: Statement) -> Seq<char> {
    match s {
        Statement::ValueBox { node } => {
            let n = g[node.index as int];
            "  \""@ + key(node) + "\" [label=\"{ "@ + escaped(n.label) + " | data: "@ + decimal(n.data)
                + " | grad: "@ + decimal(n.grad) + " }\"];\n"@
        },
        Statement::OpBox { node, op } => "  \""@ + op_key(node, op) + "\" [label=\""@
            + op.symbol_text() + "\"];\n"@,
        Statement::OpLink { node, op } => "  \""@ + op_key(node, op) + "\" -> \""@ + key(node)
            + "\";\n"@,
        Statement::Operand { child, parent, op } => "  \""@ + key(child) + "\" -> \""@ + op_key(
            parent,
            op,
        ) + "\";\n"@,
    }
}

/// The statements that draw one node: its record box and, where it has an
/// operation, the operation box and the edge between the two.
pub open spec fn node_block(g: Seq<NodeModel>, v: Value) -> Seq<Statement> {
    match g[v.index as int].operation {
        None => seq![Statement::ValueBox { node: v }],
        Some(op) => seq![
            Statement::ValueBox { node: v },
            Statement::OpBox { node: v, op },
            Statement::OpLink { node: v, op },
        ],
    }
}

/// The statements that draw one operand edge: it ends at the consumer's
/// operation box; a consumer without an operation gets no edge.
pub open spec fn edge_block(g: Seq<NodeModel>, e: (Value, Value)) -> Seq<Statement> {
    match g[e.1.index as int].operation {
        None => Seq::empty(),
        Some(op) => seq![Statement::Operand { child: e.0, parent: e.1, op }],
    }
}

/// The blocks of `nodes`, in order.
pub open spec fn node_statements(g: Seq<NodeModel>, nodes: Seq<Value>) -> Seq<Statement>
    decreases nodes.len(),
{
    if nodes.len() == 0 {
        Seq::empty()
    } else {
        node_statements(g, nodes.drop_last()) + node_block(g, nodes.last())
    }
}

/// The blocks of `edges`, in order.
pub open spec fn edge_statements(g: Seq<NodeModel>, edges: Seq<(Value, Value)>) -> Seq<Statement>
    decreases edges.len(),
{
    if edges.len() == 0 {
        Seq::empty()
    } else {
        edge_statements(g, edges.drop_last()) + edge_block(g, edges.last())
    }
}

/// The body of the diagram for a walk's output: all node blocks, then all
/// edge blocks.
pub open spec fn diagram(g: Seq<NodeModel>, nodes: Seq<Value>, edges: Seq<(Value, Value)>) -> Seq<
    Statement,
> {
    node_statements(g, nodes) + edge_statements(g, edges)
}

/// The lines of `stmts`, one after the other.
pub open spec fn render(g: Seq<NodeModel>, stmts: Seq<Statement>) -> Seq<char>
    decreases stmts.len(),
{
    if stmts.len() == 0 {
        Seq::empty()
    } else {
        render(g, stmts.drop_last()) + statement_text(g, stmts.last())
    }
}

/// The two layout directions a diagram can have.
pub open spec fn valid_rankdir(rankdir: Seq<char>) -> bool {
    rankdir == "LR"@ || rankdir == "TB"@
}

/// The opening lines of a document.
pub open spec fn header(rankdir: Seq<char>) -> Seq<char> {
    "digraph G {\n"@ + "  rankdir="@ + rankdir + ";\n"@ + "  node [shape=record];\n"@
}

/// The complete document that draws everything `root` depends on.
pub open spec fn document(g: Seq<NodeModel>, root: Value, rankdir: Seq<char>) -> Seq<char> {
    header(rankdir) + render(g, diagram(g, walk(g, root).nodes, walk(g, root).edges)) + "}\n"@
}

/// Every handle in the statement names a node of `g`.
pub open spec fn statement_within(g: Seq<NodeModel>, s: Statement) -> bool {
    match s {
        Statement::ValueBox { node } => has_node(g, node),
        Statement::OpBox { node, op } => has_node(g, node),
        Statement::OpLink { node, op } => has_node(g, node),
        Statement::Operand { child, parent, op } => has_node(g, child) && has_node(g, parent),
    }
}

fn digit_str(d: u64) -> (s: &'static str)
    requires
        d < 10,
    ensures
        s@ == seq![digit_char(d as int)],
{
    proof {
        reveal_strlit("0");
        reveal_strlit("1");
        reveal_strlit("2");
        reveal_strlit("3");
        reveal_strlit("4");
        reveal_strlit("5");
        reveal_strlit("6");
        reveal_strlit("7");
        reveal_strlit("8");
        reveal_strlit("9");
    }
    let s = if d == 0 {
        "0"
    } else if d == 1 {
        "1"
    } else if d == 2 {
        "2"
    } else if d == 3 {
        "3"
    } else if d == 4 {
        "4"
    } else if d == 5 {
        "5"
    } else if d == 6 {
        "6"
    } else if d == 7 {
        "7"
    } else if d == 8 {
        "8"
    } else {
        "9"
    };
    assert(s@ =~= seq![digit_char(d as int)]);
    s
}

fn push_digits(out: &mut String, n: u64)
    ensures
        final(out)@ == old(out)@ + digits(n as nat),
    decreases n,
{
    let ghost before = out@;
    if n >= 10 {
        push_digits(out, n / 10);
    }
    out.append(digit_str(n % 10));
    assert(out@ =~= before + digits(n as nat));
}

fn push_decimal(out: &mut String, x: i64)
    ensures
        final(out)@ == old(out)@ + decimal(x as int),
{
    let ghost before = out@;
    if x < 0 {
        proof {
            reveal_strlit("-");
        }
        out.append("-");
        let magnitude: u64 = (-(x + 1)) as u64 + 1;
        push_digits(out, magnitude);
        assert("-"@ =~= seq!['-']);
        assert(out@ =~= before + decimal(x as int));
    } else {
        push_digits(out, x as u64);
    }
}

fn push_key(out: &mut String, v: Value)
    ensures
        final(out)@ == old(out)@ + key(v),
{
    push_digits(out, v.index as u64);
}

fn push_escaped(out: &mut String, label: &str)
    ensures
        final(out)@ == old(out)@ + escaped(label@),
{
    let ghost before = out@;
    let n = label.unicode_len();
    let mut i: usize = 0;
    assert(label@.take(0) =~= Seq::<char>::empty());
    while i < n
        invariant
            n == label@.len(),
            i <= n,
            out@ =~= before + escaped(label@.take(i as int)),
        decreases n - i,
    {
        let c = label.get_char(i);
        proof {
            reveal_strlit("\\");
            assert(label@.take(i + 1).drop_last() =~= label@.take(i as int));
            assert(label@.take(i + 1).last() == c);
            assert(label@.subrange(i as int, i + 1) =~= seq![c]);
            assert("\\"@ + seq![c] =~= seq!['\\', c]);
        }
        if c == '"' || c == '\\' || c == '{' || c == '}' || c == '|' || c == '<' || c == '>' {
            out.append("\\");
        }
        out.append(label.substring_char(i, i + 1));
        i += 1;
    }
    assert(label@.take(n as int) =~= label@);
}

fn push_statement(g: &Graph, out: &mut String, s: Statement)
    requires
        statement_within(g@, s),
    ensures
        final(out)@ == old(out)@ + statement_text(g@, s),
{
    let ghost before = out@;
    out.append("  \"");
    match s {
        Statement::ValueBox { node } => {
            push_key(out, node);
            out.append("\" [label=\"{ ");
            push_escaped(out, g.label(node));
            out.append(" | data: ");
            push_decimal(out, g.data(node));
            out.append(" | grad: ");
            push_decimal(out, g.grad(node));
            out.append(" }\"];\n");
        },
        Statement::OpBox { node, op } => {
            push_key(out, node);
            out.append(op.symbol());
            out.append("\" [label=\"");
            out.append(op.symbol());
            out.append("\"];\n");
        },
        Statement::OpLink { node, op } => {
            push_key(out, node);
            out.append(op.symbol());
            out.append("\" -> \"");
            push_key(out, node);
            out.append("\";\n");
        },
        Statement::Operand { child, parent, op } => {
            push_key(out, child);
            out.append("\" -> \"");
            push_key(out, parent);
            out.append(op.symbol());
            out.append("\";\n");
        },
    }
    assert(out@ =~= before + statement_text(g@, s));
}

/// The statements that draw the listed nodes and edges: for each node its
/// block, in list order, then for each edge its block, in list order.
pub fn statements(g: &Graph, nodes: &Vec<Value>, edges: &Vec<(Value, Value)>) -> (out: Vec<
    Statement,
>)
    requires
        forall|k: int| 0 <= k < nodes@.len() ==> g.contains(#[trigger] nodes@[k]),
        forall|k: int|
            0 <= k < edges@.len() ==> g.contains((#[trigger] edges@[k]).0) && g.contains(
                edges@[k].1,
            ),
    ensures
        out@ == diagram(g@, nodes@, edges@),
        forall|k: int| 0 <= k < out@.len() ==> statement_within(g@, #[trigger] out@[k]),
{
    let mut out: Vec<Statement> = Vec::new();
    let mut i: usize = 0;
    assert(nodes@.take(0) =~= Seq::<Value>::empty());
    while i < nodes.len()
        invariant
            i <= nodes@.len(),
            forall|k: int| 0 <= k < nodes@.len() ==> g.contains(#[trigger] nodes@[k]),
            out@ =~= node_statements(g@, nodes@.take(i as int)),
            forall|k: int| 0 <= k < out@.len() ==> statement_within(g@, #[trigger] out@[k]),
        decreases nodes@.len() - i,
    {
        let v = nodes[i];
        proof {
            assert(nodes@.take(i + 1).drop_last() =~= nodes@.take(i as int));
            assert(nodes@.take(i + 1).last() == v);
        }
        out.push(Statement::ValueBox { node: v });
        match g.operation(v) {
            Some(op) => {
                out.push(Statement::OpBox { node: v, op });
                out.push(Statement::OpLink { node: v, op });
            },
            None => {},
        }
        i += 1;
    }
    assert(nodes@.take(nodes@.len() as int) =~= nodes@);
    let ghost boxes = out@;
    let mut j: usize = 0;
    assert(edges@.take(0) =~= Seq::<(Value, Value)>::empty());
    while j < edges.len()
        invariant
            j <= edges@.len(),
            forall|k: int|
                0 <= k < edges@.len() ==> g.contains((#[trigger] edges@[k]).0) && g.contains(
                    edges@[k].1,
                ),
            out@ =~= boxes + edge_statements(g@, edges@.take(j as int)),
            forall|k: int| 0 <= k < out@.len() ==> statement_within(g@, #[trigger] out@[k]),
        decreases edges@.len() - j,
    {
        let e = edges[j];
        proof {
            assert(edges@.take(j + 1).drop_last() =~= edges@.take(j as int));
            assert(edges@.take(j + 1).last() == e);
        }
        match g.operation(e.1) {
            Some(op) => {
                out.push(Statement::Operand { child: e.0, parent: e.1, op });
            },
            None => {},
        }
        j += 1;
    }
    assert(edges@.take(edges@.len() as int) =~= edges@);
    out
}

/// Whether `rankdir` is one of the two layout directions.
pub fn is_rankdir(rankdir: &str) -> (b: bool)
    ensures
        b == valid_rankdir(rankdir@),
{
    let given = rankdir.to_owned();
    given == "LR".to_owned() || given == "TB".to_owned()
}

/// Writes a complete document: the opening lines with the layout direction,
/// one line per statement, and the closing brace.
pub fn write_document(g: &Graph, stmts: &Vec<Statement>, rankdir: &str) -> (s: String)
    requires
        valid_rankdir(rankdir@),
        forall|k: int| 0 <= k < stmts@.len() ==> statement_within(g@, #[trigger] stmts@[k]),
    ensures
        s@ == header(rankdir@) + render(g@, stmts@) + "}\n"@,
{
    let mut s = String::new();
    s.append("digraph G {\n");
    s.append("  rankdir=");
    s.append(rankdir);
    s.append(";\n");
    s.append("  node [shape=record];\n");
    assert(s@ =~= header(rankdir@));
    let mut i: usize = 0;
    assert(stmts@.take(0) =~= Seq::<Statement>::empty());
    while i < stmts.len()
        invariant
            i <= stmts@.len(),
            forall|k: int| 0 <= k < stmts@.len() ==> statement_within(g@, #[trigger] stmts@[k]),
            s@ =~= header(rankdir@) + render(g@, stmts@.take(i as int)),
        decreases stmts@.len() - i,
    {
        proof {
            assert(stmts@.take(i + 1).drop_last() =~= stmts@.take(i as int));
            assert(stmts@.take(i + 1).last() == stmts@[i as int]);
        }
        push_statement(g, &mut s, stmts[i]);
        i += 1;
    }
    assert(stmts@.take(stmts@.len() as int) =~= stmts@);
    s.append("}\n");
    s
}

/// Draws everything `root` depends on as a directed-graph document laid out
/// in direction `rankdir`, which is `"LR"` or `"TB"`.
///
/// A label may hold any text: a character that the document format would
/// read as structure is written behind a backslash, so the box shows the
/// label as it is.
pub fn to_dot(g: &Graph, root: Value, rankdir: &str) -> (s: String)
    requires
        g.wf(),
        g.contains(root),
        valid_rankdir(rankdir@),
    ensures
        s@ == document(g@, root, rankdir@),
{
    let (nodes, edges) = trace(g, root);
    let stmts = statements(g, &nodes, &edges);
    write_document(g, &stmts, rankdir)
}

/// How many record boxes `stmts` declares.
pub open spec fn value_boxes(stmts: Seq<Statement>) -> nat
    decreases stmts.len(),
{
    if stmts.len() == 0 {
        0
    } else if stmts.last() is ValueBox {
        value_boxes(stmts.drop_last()) + 1
    } else {
        value_boxes(stmts.drop_last())
    }
}

/// How many operation boxes `stmts` declares.
pub open spec fn op_boxes(stmts: Seq<Statement>) -> nat
    decreases stmts.len(),
{
    if stmts.len() == 0 {
        0
    } else if stmts.last() is OpBox {
        op_boxes(stmts.drop_last()) + 1
    } else {
        op_boxes(stmts.drop_last())
    }
}

/// How many of `nodes` carry an operation.
pub open spec fn operations(g: Seq<NodeModel>, nodes: Seq<Value>) -> nat
    decreases nodes.len(),
{
    if nodes.len() == 0 {
        0
    } else if g[nodes.last().index as int].operation is Some {
        operations(g, nodes.drop_last()) + 1
    } else {
        operations(g, nodes.drop_last())
    }
}

proof fn lemma_boxes_push(stmts: Seq<Statement>, s: Statement)
    ensures
        value_boxes(stmts.push(s)) == value_boxes(stmts) + if s is ValueBox {
            1nat
        } else {
            0nat
        },
        op_boxes(stmts.push(s)) == op_boxes(stmts) + if s is OpBox {
            1nat
        } else {
            0nat
        },
{
    assert(stmts.push(s).drop_last() =~= stmts);
}

proof fn lemma_boxes_concat(a: Seq<Statement>, b: Seq<Statement>)
    ensures
        value_boxes(a + b) == value_boxes(a) + value_boxes(b),
        op_boxes(a + b) == op_boxes(a) + op_boxes(b),
    decreases b.len(),
{
    if b.len() == 0 {
        assert(a + b =~= a);
    } else {
        lemma_boxes_concat(a, b.drop_last());
        assert((a + b).drop_last() =~= a + b.drop_last());
        assert((a + b).last() == b.last());
    }
}

proof fn lemma_node_block_boxes(g: Seq<NodeModel>, v: Value)
    ensures
        value_boxes(node_block(g, v)) == 1,
        op_boxes(node_block(g, v)) == if g[v.index as int].operation is Some {
            1nat
        } else {
            0nat
        },
{
    let none = Seq::<Statement>::empty();
    let one = none.push(Statement::ValueBox { node: v });
    lemma_boxes_push(none, Statement::ValueBox { node: v });
    match g[v.index as int].operation {
        None => {
            assert(node_block(g, v) =~= one);
        },
        Some(op) => {
            let two = one.push(Statement::OpBox { node: v, op });
            let three = two.push(Statement::OpLink { node: v, op });
            lemma_boxes_push(one, Statement::OpBox { node: v, op });
            lemma_boxes_push(two, Statement::OpLink { node: v, op });
            assert(node_block(g, v) =~= three);
        },
    }
}

proof fn lemma_node_statement_boxes(g: Seq<NodeModel>, nodes: Seq<Value>)
    ensures
        value_boxes(node_statements(g, nodes)) == nodes.len(),
        op_boxes(node_statements(g, nodes)) == operations(g, nodes),
    decreases nodes.len(),
{
    if nodes.len() > 0 {
        lemma_node_statement_boxes(g, nodes.drop_last());
        lemma_node_block_boxes(g, nodes.last());
        lemma_boxes_concat(node_statements(g, nodes.drop_last()), node_block(g, nodes.last()));
    }
}

proof fn lemma_edge_statement_boxes(g: Seq<NodeModel>, edges: Seq<(Value, Value)>)
    ensures
        value_boxes(edge_statements(g, edges)) == 0,
        op_boxes(edge_statements(g, edges)) == 0,
    decreases edges.len(),
{
    if edges.len() > 0 {
        lemma_edge_statement_boxes(g, edges.drop_last());
        let e = edges.last();
        let block = edge_block(g, e);
        match g[e.1.index as int].operation {
            None => {},
            Some(op) => {
                let s = Statement::Operand { child: e.0, parent: e.1, op };
                lemma_boxes_push(Seq::empty(), s);
                assert(block =~= Seq::<Statement>::empty().push(s));
            },
        }
        lemma_boxes_concat(edge_statements(g, edges.drop_last()), block);
    }
}

/// A diagram declares one record box for each listed node and one operation
/// box for each listed node that carries an operation.
pub proof fn lemma_box_counts(g: Seq<NodeModel>, nodes: Seq<Value>, edges: Seq<(Value, Value)>)
    ensures
        value_boxes(diagram(g, nodes, edges)) == nodes.len(),
        op_boxes(diagram(g, nodes, edges)) == operations(g, nodes),
{
    lemma_node_statement_boxes(g, nodes);
    lemma_edge_statement_boxes(g, edges);
    lemma_boxes_concat(node_statements(g, nodes), edge_statements(g, edges));
}

proof fn lemma_digits_nonempty(n: nat)
    ensures
        digits(n).len() >= 1,
    decreases n,
{
    if n >= 10 {
        lemma_digits_nonempty(n / 10);
    }
}

proof fn lemma_digits_injective(m: nat, n: nat)
    requires
        digits(m) == digits(n),
    ensures
        m == n,
    decreases m,
{
    lemma_digits_nonempty(m / 10);
    lemma_digits_nonempty(n / 10);
    if m < 10 {
        assert(digits(m).len() == 1);
        if n >= 10 {
            assert(digits(n).len() == digits(n / 10).len() + 1);
        }
        assert(digits(m)[0] == digit_char(m as int));
        assert(digits(n)[0] == digit_char(n as int));
    } else {
        assert(digits(m).len() == digits(m / 10).len() + 1);
        if n < 10 {
            assert(digits(n).len() == 1);
        }
        let a = digits(m / 10);
        let b = digits(n / 10);
        let dm = digit_char((m % 10) as int);
        let dn = digit_char((n % 10) as int);
        assert(a.push(dm).drop_last() =~= a);
        assert(b.push(dn).drop_last() =~= b);
        assert(a.push(dm).last() == dm);
        assert(b.push(dn).last() == dn);
        lemma_digits_injective(m / 10, n / 10);
    }
}

/// Two handles have the same box name only if they name the same node.
pub proof fn lemma_key_identifies_node(a: Value, b: Value)
    requires
        key(a) == key(b),
    ensures
        a == b,
{
    lemma_digits_injective(a.index as nat, b.index as nat);
}

/// The operands whose edges `stmts` leads into the operation box of `x`, in
/// statement order.
pub open spec fn operands_linked(stmts: Seq<Statement>, x: Value) -> Seq<Value>
    decreases stmts.len(),
{
    if stmts.len() == 0 {
        Seq::empty()
    } else {
        let rest = operands_linked(stmts.drop_last(), x);
        match stmts.last() {
            Statement::Operand { child, parent, op } => if parent == x {
                rest.push(child)
            } else {
                rest
            },
            _ => rest,
        }
    }
}

proof fn lemma_linked_push(stmts: Seq<Statement>, s: Statement, x: Value)
    ensures
        operands_linked(stmts.push(s), x) == match s {
            Statement::Operand { child, parent, op } => if parent == x {
                operands_linked(stmts, x).push(child)
            } else {
                operands_linked(stmts, x)
            },
            _ => operands_linked(stmts, x),
        },
{
    assert(stmts.push(s).drop_last() =~= stmts);
}

proof fn lemma_linked_concat(a: Seq<Statement>, b: Seq<Statement>, x: Value)
    ensures
        operands_linked(a + b, x) == operands_linked(a, x) + operands_linked(b, x),
    decreases b.len(),
{
    if b.len() == 0 {
        assert(a + b =~= a);
        assert(operands_linked(a, x) + Seq::<Value>::empty() =~= operands_linked(a, x));
    } else {
        lemma_linked_concat(a, b.drop_last(), x);
        assert((a + b).drop_last() =~= a + b.drop_last());
        assert((a + b).last() == b.last());
        let left = operands_linked(a, x);
        let right = operands_linked(b.drop_last(), x);
        match b.last() {
            Statement::Operand { child, parent, op } => {
                assert((left + right).push(child) =~= left + right.push(child));
            },
            _ => {},
        }
    }
}

proof fn lemma_node_statements_link_nothing(g: Seq<NodeModel>, nodes: Seq<Value>, x: Value)
    ensures
        operands_linked(node_statements(g, nodes), x) == Seq::<Value>::empty(),
    decreases nodes.len(),
{
    if nodes.len() > 0 {
        let v = nodes.last();
        lemma_node_statements_link_nothing(g, nodes.drop_last(), x);
        let none = Seq::<Statement>::empty();
        let one = none.push(Statement::ValueBox { node: v });
        lemma_linked_push(none, Statement::ValueBox { node: v }, x);
        match g[v.index as int].operation {
            None => {
                assert(node_block(g, v) =~= one);
            },
            Some(op) => {
                let two = one.push(Statement::OpBox { node: v, op });
                let three = two.push(Statement::OpLink { node: v, op });
                lemma_linked_push(one, Statement::OpBox { node: v, op }, x);
                lemma_linked_push(two, Statement::OpLink { node: v, op }, x);
                assert(node_block(g, v) =~= three);
            },
        }
        lemma_linked_concat(node_statements(g, nodes.drop_last()), node_block(g, v), x);
        assert(Seq::<Value>::empty() + Seq::<Value>::empty() =~= Seq::<Value>::empty());
    }
}

proof fn lemma_edge_statements_link(g: Seq<NodeModel>, edges: Seq<(Value, Value)>, x: Value)
    ensures
        operands_linked(edge_statements(g, edges), x) == if g[x.index as int].operation is Some {
            operands_drawn(edges, x)
        } else {
            Seq::empty()
        },
    decreases edges.len(),
{
    if edges.len() > 0 {
        let e = edges.last();
        let rest = edge_statements(g, edges.drop_last());
        lemma_edge_statements_link(g, edges.drop_last(), x);
        lemma_linked_concat(rest, edge_block(g, e), x);
        let before = operands_linked(rest, x);
        match g[e.1.index as int].operation {
            None => {
                assert(before + Seq::<Value>::empty() =~= before);
            },
            Some(op) => {
                let s = Statement::Operand { child: e.0, parent: e.1, op };
                lemma_linked_push(Seq::empty(), s, x);
                assert(edge_block(g, e) =~= Seq::<Statement>::empty().push(s));
                if e.1 == x {
                    assert(before + Seq::<Value>::empty().push(e.0) =~= before.push(e.0));
                } else {
                    assert(before + Seq::<Value>::empty() =~= before);
                }
            },
        }
    }
}

/// In the diagram of a walk, the edges into the operation box of a listed
/// node come from its operands, one per operand slot, in operand order.
pub proof fn lemma_diagram_keeps_operand_order(g: Seq<NodeModel>, root: Value, x: Value)
    requires
        graph_wf(g),
        has_node(g, root),
        walk(g, root).nodes.contains(x),
        g[x.index as int].operation is Some,
    ensures
        operands_linked(diagram(g, walk(g, root).nodes, walk(g, root).edges), x)
            == g[x.index as int].children,
{
    let w = walk(g, root);
    lemma_walk_keeps_operand_order(g, root, x);
    lemma_node_statements_link_nothing(g, w.nodes, x);
    lemma_edge_statements_link(g, w.edges, x);
    lemma_linked_concat(node_statements(g, w.nodes), edge_statements(g, w.edges), x);
    assert(Seq::<Value>::empty() + g[x.index as int].children =~= g[x.index as int].children);
}

/// Whether `c` is a decimal digit.
pub open spec fn is_digit(c: char) -> bool {
    c == '0' || c == '1' || c == '2' || c == '3' || c == '4' || c == '5' || c == '6' || c == '7'
        || c == '8' || c == '9'
}

proof fn lemma_digits_are_digits(n: nat)
    ensures
        forall|i: int| 0 <= i < digits(n).len() ==> is_digit(#[trigger] digits(n)[i]),
    decreases n,
{
    if n >= 10 {
        lemma_digits_are_digits(n / 10);
        let front = digits(n / 10);
        assert forall|i: int| 0 <= i < digits(n).len() implies is_digit(
            #[trigger] digits(n)[i],
        ) by {
            if i < front.len() {
                assert(digits(n)[i] == front[i]);
            } else {
                assert(digits(n)[i] == digit_char((n % 10) as int));
            }
        }
    } else {
        assert(digits(n)[0] == digit_char(n as int));
    }
}

proof fn lemma_symbol_starts_without_digit(op: Op)
    ensures
        op.symbol_text().len() >= 1,
        !is_digit(op.symbol_text()[0]),
        op.symbol_text()[0] == match op {
            Op::Add => '+',
            Op::Sub => '-',
            Op::Mul => '*',
            Op::Div => '/',
            Op::Tanh => 't',
        },
{
    reveal_strlit("+");
    reveal_strlit("-");
    reveal_strlit("*");
    reveal_strlit("/");
    reveal_strlit("tanh");
}

/// Two operation boxes have the same name only if they belong to the same
/// node and show the same operation.
pub proof fn lemma_op_key_identifies_node(a: Value, p: Op, b: Value, q: Op)
    requires
        op_key(a, p) == op_key(b, q),
    ensures
        a == b,
        p == q,
{
    let ka = key(a);
    let kb = key(b);
    let sa = p.symbol_text();
    let sb = q.symbol_text();
    lemma_digits_are_digits(a.index as nat);
    lemma_digits_are_digits(b.index as nat);
    lemma_symbol_starts_without_digit(p);
    lemma_symbol_starts_without_digit(q);
    let left = ka + sa;
    let right = kb + sb;
    if ka.len() < kb.len() {
        assert(left[ka.len() as int] == sa[0]);
        assert(right[ka.len() as int] == kb[ka.len() as int]);
    } else if kb.len() < ka.len() {
        assert(right[kb.len() as int] == sb[0]);
        assert(left[kb.len() as int] == ka[kb.len() as int]);
    } else {
        assert forall|i: int| 0 <= i < ka.len() implies ka[i] == kb[i] by {
            assert(left[i] == ka[i]);
            assert(right[i] == kb[i]);
        }
        assert(ka =~= kb);
        lemma_key_identifies_node(a, b);
        assert(left[ka.len() as int] == sa[0]);
        assert(right[ka.len() as int] == sb[0]);
    }
}

/// No operation box shares its name with a record box.
pub proof fn lemma_op_key_is_no_node_key(a: Value, p: Op, b: Value)
    ensures
        op_key(a, p) != key(b),
{
    let ka = key(a);
    let kb = key(b);
    let sa = p.symbol_text();
    lemma_digits_are_digits(b.index as nat);
    lemma_symbol_starts_without_digit(p);
    if ka + sa == kb {
        assert((ka + sa)[ka.len() as int] == sa[0]);
    }
}

/// Read from the left, `s` is made of plain characters and of pairs of a
/// backslash and a character that needs one: no quote, brace, bar or angle
/// bracket stands unescaped, and no backslash is left over.
pub open spec fn well_escaped(s: Seq<char>) -> bool
    decreases s.len(),
{
    if s.len() == 0 {
        true
    } else if s[0] == '\\' {
        s.len() >= 2 && needs_escape(s[1]) && well_escaped(s.skip(2))
    } else {
        !needs_escape(s[0]) && well_escaped(s.skip(1))
    }
}

proof fn lemma_well_escaped_concat(a: Seq<char>, b: Seq<char>)
    requires
        well_escaped(a),
        well_escaped(b),
    ensures
        well_escaped(a + b),
    decreases a.len(),
{
    if a.len() == 0 {
        assert(a + b =~= b);
    } else if a[0] == '\\' {
        lemma_well_escaped_concat(a.skip(2), b);
        assert((a + b)[0] == a[0]);
        assert((a + b)[1] == a[1]);
        assert((a + b).skip(2) =~= a.skip(2) + b);
    } else {
        lemma_well_escaped_concat(a.skip(1), b);
        assert((a + b)[0] == a[0]);
        assert((a + b).skip(1) =~= a.skip(1) + b);
    }
}

/// Whatever a label holds, what is written into its box is well escaped.
pub proof fn lemma_escaped_is_well_escaped(label: Seq<char>)
    ensures
        well_escaped(escaped(label)),
    decreases label.len(),
{
    if label.len() > 0 {
        lemma_escaped_is_well_escaped(label.drop_last());
        let c = label.last();
        let piece = escaped_char(c);
        if needs_escape(c) {
            assert(piece.skip(2) =~= Seq::<char>::empty());
            assert(well_escaped(piece.skip(2)));
        } else {
            assert(piece.skip(1) =~= Seq::<char>::empty());
            assert(well_escaped(piece.skip(1)));
        }
        assert(well_escaped(piece));
        lemma_well_escaped_concat(escaped(label.drop_last()), piece);
    }
}

/// A label without a character that needs escaping is written as it is.
pub proof fn lemma_plain_label_unchanged(label: Seq<char>)
    requires
        forall|i: int| 0 <= i < label.len() ==> !needs_escape(#[trigger] label[i]),
    ensures
        escaped(label) == label,
    decreases label.len(),
{
    if label.len() > 0 {
        let front = label.drop_last();
        assert forall|i: int| 0 <= i < front.len() implies !needs_escape(#[trigger] front[i]) by {
            assert(front[i] == label[i]);
        }
        lemma_plain_label_unchanged(front);
        assert(front + seq![label.last()] =~= label);
    } else {
        assert(label =~= Seq::<char>::empty());
    }
}

} // verus!
