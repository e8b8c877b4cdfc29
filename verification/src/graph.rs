//! The node arena, its handles and the operators that grow it.
use vstd::prelude::*;

verus! {

/// The operation that produced a node from its operands.
#[derive(Clone, Copy, PartialEq, Eq, Structural, Debug)]
pub enum Op {
    Add,
    Sub,
    Mul,
    Div,
    Tanh,
}

/// Truncating division of mathematical integers (the quotient rounds toward zero).
pub open spec fn quotient(x: int, y: int) -> int
    recommends
        y != 0,
{
    if x >= 0 && y > 0 {
        x / y
    } else if x < 0 && y < 0 {
        (-x) / (-y)
    } else if x < 0 {
        -((-x) / y)
    } else {
        -(x / (-y))
    }
}

/// The hyperbolic tangent of an integer, rounded to the nearest integer.
///
/// `tanh 0 = 0`, and for `|x| >= 1` the tangent lies strictly between one half
/// and one in magnitude, so the nearest integer is the sign of `x`.
pub open spec fn rounded_tanh(x: int) -> int {
    if x > 0 {
        1
    } else if x < 0 {
        -1
    } else {
        0
    }
}

/// Whether a mathematical integer is representable as a node's scalar.
pub open spec fn fits(x: int) -> bool {
    i64::MIN <= x <= i64::MAX
}

impl Op {
    /// How many operands a node with this operation has.
    pub open spec fn arity(self) -> nat {
        match self {
            Op::Tanh => 1,
            _ => 2,
        }
    }

    /// The text that stands for this operation in a diagram.
    pub open spec fn symbol_text(self) -> Seq<char> {
        match self {
            Op::Add => "+"@,
            Op::Sub => "-"@,
            Op::Mul => "*"@,
            Op::Div => "/"@,
            Op::Tanh => "tanh"@,
        }
    }

    /// The scalar that this operation computes from its operands' scalars
    /// (`y` is ignored by a unary operation).
    pub open spec fn apply(self, x: int, y: int) -> int {
        match self {
            Op::Add => x + y,
            Op::Sub => x - y,
            Op::Mul => x * y,
            Op::Div => quotient(x, y),
            Op::Tanh => rounded_tanh(x),
        }
    }

    /// The text that stands for this operation in a diagram.
    pub fn symbol(self) -> (s: &'static str)
        ensures
            s@ == self.symbol_text(),
    {
        match self {
            Op::Add => "+",
            Op::Sub => "-",
            Op::Mul => "*",
            Op::Div => "/",
            Op::Tanh => "tanh",
        }
    }
}

/// A handle to one node of a [`Graph`]. Copies of a handle name the same node.
#[derive(Clone, Copy, PartialEq, Eq, Structural, Debug)]
pub struct Value {
    pub index: usize,
}

/// Why an operator refused to create a node.
#[derive(Clone, Copy, PartialEq, Eq, Structural, Debug)]
pub enum GraphError {
    /// The divisor's scalar is zero.
    DivisionByZero,
    /// The result is not representable as a scalar.
    Overflow,
}

/// What a node is, as mathematics sees it.
pub struct NodeModel {
    pub data: int,
    pub grad: int,
    pub label: Seq<char>,
    pub operation: Option<Op>,
    pub children: Seq<Value>,
}

/// A leaf: no operation, no operands, a zero accumulator.
pub open spec fn leaf_model(data: int, label: Seq<char>) -> NodeModel {
    NodeModel { data, grad: 0, label, operation: None, children: Seq::empty() }
}

/// The node an operator creates: unlabelled, zero accumulator, operands in call order.
pub open spec fn derived_model(op: Op, data: int, operands: Seq<Value>) -> NodeModel {
    NodeModel { data, grad: 0, label: Seq::empty(), operation: Some(op), children: operands }
}

/// Node `i` is a leaf without operands or carries as many operands as its
/// operation takes, and every operand was created before it.
pub open spec fn node_wf(g: Seq<NodeModel>, i: int) -> bool {
    let n = g[i];
    &&& fits(n.data)
    &&& fits(n.grad)
    &&& match n.operation {
        None => n.children.len() == 0,
        Some(op) => n.children.len() == op.arity(),
    }
    &&& forall|k: int| 0 <= k < n.children.len() ==> (#[trigger] n.children[k]).index < i
}

/// Every node of the arena is well formed; in particular the graph is acyclic.
pub open spec fn graph_wf(g: Seq<NodeModel>) -> bool {
    forall|i: int| 0 <= i < g.len() ==> #[trigger] node_wf(g, i)
}

/// Whether handle `v` names a node of `g`.
pub open spec fn has_node(g: Seq<NodeModel>, v: Value) -> bool {
    v.index < g.len()
}

/// In a well-formed arena a node is a leaf exactly when it has no operands,
/// and every operand of a node is an older node of the arena: no chain of
/// operands ever leads back to where it started.
pub proof fn lemma_operands_are_older(g: Seq<NodeModel>, v: Value)
    requires
        graph_wf(g),
        has_node(g, v),
    ensures
        g[v.index as int].operation is None <==> g[v.index as int].children.len() == 0,
        forall|k: int|
            0 <= k < g[v.index as int].children.len() ==> has_node(
                g,
                #[trigger] g[v.index as int].children[k],
            ) && g[v.index as int].children[k].index < v.index,
{
    assert(node_wf(g, v.index as int));
}

/// The scalar an operator computes from the scalars of its operands, as they
/// stand in `g` when the operator runs.
pub open spec fn operator_value(g: Seq<NodeModel>, op: Op, operands: Seq<Value>) -> int {
    op.apply(
        g[operands[0].index as int].data,
        if operands.len() > 1 {
            g[operands[1].index as int].data
        } else {
            0
        },
    )
}

/// Why an operator fails on these operands, if it does: a zero divisor, or a
/// result that no scalar can hold.
pub open spec fn operator_error(g: Seq<NodeModel>, op: Op, operands: Seq<Value>) -> Option<
    GraphError,
> {
    if op == Op::Div && g[operands[1].index as int].data == 0 {
        Some(GraphError::DivisionByZero)
    } else if !fits(operator_value(g, op, operands)) {
        Some(GraphError::Overflow)
    } else {
        None
    }
}

/// What an operator does to the arena `before`: on failure it reports the
/// error and changes nothing; otherwise it appends one node that holds the
/// computed scalar and the operands in call order, and returns its handle.
pub open spec fn operator_post(
    before: Seq<NodeModel>,
    op: Op,
    operands: Seq<Value>,
    r: Result<Value, GraphError>,
    after: Seq<NodeModel>,
) -> bool {
    match operator_error(before, op, operands) {
        Some(e) => r == Err::<Value, GraphError>(e) && after == before,
        None => r == Ok::<Value, GraphError>(Value { index: before.len() as usize }) && after
            == before.push(derived_model(op, operator_value(before, op, operands), operands)),
    }
}

struct Node {
    data: i64,
    grad: i64,
    label: String,
    operation: Option<Op>,
    children: Vec<Value>,
}

impl View for Node {
    type V = NodeModel;

    closed spec fn view(&self) -> NodeModel {
        NodeModel {
            data: self.data as int,
            grad: self.grad as int,
            label: self.label@,
            operation: self.operation,
            children: self.children@,
        }
    }
}

/// The arena that owns every node. A node's position never changes and no
/// node is ever removed, so a handle stays good for the arena's lifetime.
pub struct Graph {
    nodes: Vec<Node>,
}

impl View for Graph {
    type V = Seq<NodeModel>;

    closed spec fn view(&self) -> Seq<NodeModel> {
        self.nodes@.map_values(|n: Node| n@)
    }
}

impl Graph {
    /// The arena's invariant: see [`graph_wf`]. Every function that builds or
    /// changes an arena keeps it.
    pub open spec fn wf(&self) -> bool {
        graph_wf(self@)
    }

    /// Whether `v` names a node of this arena.
    pub open spec fn contains(&self, v: Value) -> bool {
        has_node(self@, v)
    }

    /// An arena without nodes.
    pub fn new() -> (g: Graph)
        ensures
            g@ == Seq::<NodeModel>::empty(),
            g.wf(),
    {
        let g = Graph { nodes: Vec::new() };
        assert(g@ =~= Seq::<NodeModel>::empty());
        g
    }

    /// The number of nodes created so far.
    pub fn len(&self) -> (n: usize)
        ensures
            n == self@.len(),
    {
        self.nodes.len()
    }

    /// Whether `v` names a node of this arena.
    pub fn has(&self, v: Value) -> (b: bool)
        ensures
            b == self.contains(v),
    {
        v.index < self.nodes.len()
    }

    fn attach(&mut self, node: Node) -> (v: Value)
        requires
            old(self).wf(),
            node_wf(old(self)@.push(node@), old(self)@.len() as int),
        ensures
            final(self).wf(),
            v.index == old(self)@.len(),
            final(self)@ == old(self)@.push(node@),
    {
        let index = self.nodes.len();
        let ghost before = self@;
        let ghost model = node@;
        self.nodes.push(node);
        proof {
            assert(self@ =~= before.push(model));
            assert forall|i: int| 0 <= i < self@.len() implies #[trigger] node_wf(self@, i) by {
                if i < before.len() {
                    assert(node_wf(before, i));
                    assert(self@[i] == before[i]);
                }
            }
        }
        Value { index }
    }

    /// Creates a leaf holding `data`, named `label`.
    pub fn leaf(&mut self, data: i64, label: &str) -> (v: Value)
        requires
            old(self).wf(),
        ensures
            final(self).wf(),
            v.index == old(self)@.len(),
            final(self)@ == old(self)@.push(leaf_model(data as int, label@)),
    {
        let node = Node {
            data,
            grad: 0,
            label: label.to_owned(),
            operation: None,
            children: Vec::new(),
        };
        self.attach(node)
    }

    /// The scalar held by node `v`.
    pub fn data(&self, v: Value) -> (x: i64)
        requires
            self.contains(v),
        ensures
            x == self@[v.index as int].data,
    {
        self.nodes[v.index].data
    }

    /// The accumulator of node `v`.
    pub fn grad(&self, v: Value) -> (x: i64)
        requires
            self.contains(v),
        ensures
            x == self@[v.index as int].grad,
    {
        self.nodes[v.index].grad
    }

    /// The display name of node `v`.
    pub fn label(&self, v: Value) -> (s: &str)
        requires
            self.contains(v),
        ensures
            s@ == self@[v.index as int].label,
    {
        self.nodes[v.index].label.as_str()
    }

    /// The operands of node `v`, in operand order.
    pub fn children(&self, v: Value) -> (c: Vec<Value>)
        requires
            self.contains(v),
        ensures
            c@ == self@[v.index as int].children,
    {
        self.nodes[v.index].children.clone()
    }

    /// The operation that produced node `v`, or `None` for a leaf.
    pub fn operation(&self, v: Value) -> (op: Option<Op>)
        requires
            self.contains(v),
        ensures
            op == self@[v.index as int].operation,
    {
        self.nodes[v.index].operation
    }

    /// Renames node `v`. Every handle to the node sees the new name; nothing
    /// else changes.
    pub fn set_label(&mut self, v: Value, label: &str)
        requires
            old(self).wf(),
            old(self).contains(v),
        ensures
            final(self).wf(),
            final(self)@ == old(self)@.update(
                v.index as int,
                (NodeModel { label: label@, ..old(self)@[v.index as int] }),
            ),
    {
        let ghost before = self@;
        self.nodes[v.index].label = label.to_owned();
        proof {
            let after = before.update(
                v.index as int,
                NodeModel { label: label@, ..before[v.index as int] },
            );
            assert(self@ =~= after);
            assert forall|i: int| 0 <= i < after.len() implies #[trigger] node_wf(after, i) by {
                assert(node_wf(before, i));
            }
        }
    }

    /// Adds `delta` to the accumulator of node `v`, unless the sum is not
    /// representable: then nothing changes and `Overflow` is returned.
    pub fn add_grad(&mut self, v: Value, delta: i64) -> (r: Result<(), GraphError>)
        requires
            old(self).wf(),
            old(self).contains(v),
        ensures
            final(self).wf(),
            fits(old(self)@[v.index as int].grad + delta) ==> r == Ok::<(), GraphError>(())
                && final(self)@ == old(self)@.update(
                v.index as int,
                (NodeModel {
                    grad: old(self)@[v.index as int].grad + delta,
                    ..old(self)@[v.index as int]
                }),
            ),
            !fits(old(self)@[v.index as int].grad + delta) ==> r == Err::<(), GraphError>(
                GraphError::Overflow,
            ) && final(self)@ == old(self)@,
    {
        let ghost before = self@;
        match self.nodes[v.index].grad.checked_add(delta) {
            Some(sum) => {
                self.nodes[v.index].grad = sum;
                proof {
                    let after = before.update(
                        v.index as int,
                        NodeModel { grad: sum as int, ..before[v.index as int] },
                    );
                    assert(self@ =~= after);
                    assert forall|i: int| 0 <= i < after.len() implies #[trigger] node_wf(
                        after,
                        i,
                    ) by {
                        assert(node_wf(before, i));
                    }
                }
                Ok(())
            },
            None => Err(GraphError::Overflow),
        }
    }

    fn record(&mut self, op: Op, data: i64, children: Vec<Value>) -> (v: Value)
        requires
            old(self).wf(),
            children@.len() == op.arity(),
            forall|k: int| 0 <= k < children@.len() ==> old(self).contains(#[trigger] children@[k]),
        ensures
            final(self).wf(),
            v.index == old(self)@.len(),
            final(self)@ == old(self)@.push(derived_model(op, data as int, children@)),
    {
        let node = Node { data, grad: 0, label: String::new(), operation: Some(op), children };
        self.attach(node)
    }

    fn binary(&mut self, op: Op, data: i64, a: Value, b: Value) -> (v: Value)
        requires
            old(self).wf(),
            old(self).contains(a),
            old(self).contains(b),
            op.arity() == 2,
        ensures
            final(self).wf(),
            v.index == old(self)@.len(),
            final(self)@ == old(self)@.push(derived_model(op, data as int, seq![a, b])),
    {
        let mut children: Vec<Value> = Vec::new();
        children.push(a);
        children.push(b);
        assert(children@ =~= seq![a, b]);
        self.record(op, data, children)
    }

    /// Creates the node `a + b`.
    pub fn add(&mut self, a: Value, b: Value) -> (r: Result<Value, GraphError>)
        requires
            old(self).wf(),
            old(self).contains(a),
            old(self).contains(b),
        ensures
            final(self).wf(),
            operator_post(old(self)@, Op::Add, seq![a, b], r, final(self)@),
            r matches Ok(v) ==> v.index == old(self)@.len(),
            r matches Ok(v) ==> final(self)@[v.index as int].children == seq![a, b]
                && final(self)@[v.index as int].data == old(self)@[a.index as int].data + old(self)@[b.index as int].data,
    {
        match self.data(a).checked_add(self.data(b)) {
            Some(x) => Ok(self.binary(Op::Add, x, a, b)),
            None => Err(GraphError::Overflow),
        }
    }

    /// Creates the node `a - b`.
    pub fn sub(&mut self, a: Value, b: Value) -> (r: Result<Value, GraphError>)
        requires
            old(self).wf(),
            old(self).contains(a),
            old(self).contains(b),
        ensures
            final(self).wf(),
            operator_post(old(self)@, Op::Sub, seq![a, b], r, final(self)@),
            r matches Ok(v) ==> v.index == old(self)@.len(),
            r matches Ok(v) ==> final(self)@[v.index as int].children == seq![a, b]
                && final(self)@[v.index as int].data == old(self)@[a.index as int].data - old(self)@[b.index as int].data,
    {
        match self.data(a).checked_sub(self.data(b)) {
            Some(x) => Ok(self.binary(Op::Sub, x, a, b)),
            None => Err(GraphError::Overflow),
        }
    }

    /// Creates the node `a * b`.
    pub fn mul(&mut self, a: Value, b: Value) -> (r: Result<Value, GraphError>)
        requires
            old(self).wf(),
            old(self).contains(a),
            old(self).contains(b),
        ensures
            final(self).wf(),
            operator_post(old(self)@, Op::Mul, seq![a, b], r, final(self)@),
            r matches Ok(v) ==> v.index == old(self)@.len(),
            r matches Ok(v) ==> final(self)@[v.index as int].children == seq![a, b]
                && final(self)@[v.index as int].data == old(self)@[a.index as int].data * old(self)@[b.index as int].data,
    {
        match self.data(a).checked_mul(self.data(b)) {
            Some(x) => Ok(self.binary(Op::Mul, x, a, b)),
            None => Err(GraphError::Overflow),
        }
    }

    /// Creates the node `a / b`, the quotient rounded toward zero. A zero
    /// divisor is refused with `DivisionByZero` and leaves the arena as it was.
    pub fn div(&mut self, a: Value, b: Value) -> (r: Result<Value, GraphError>)
        requires
            old(self).wf(),
            old(self).contains(a),
            old(self).contains(b),
        ensures
            final(self).wf(),
            operator_post(old(self)@, Op::Div, seq![a, b], r, final(self)@),
            r matches Ok(v) ==> v.index == old(self)@.len(),
            r matches Ok(v) ==> final(self)@[v.index as int].children == seq![a, b]
                && final(self)@[v.index as int].data == quotient(
                    old(self)@[a.index as int].data,
                    old(self)@[b.index as int].data,
                ),
    {
        let y = self.data(b);
        if y == 0 {
            return Err(GraphError::DivisionByZero);
        }
        match self.data(a).checked_div(y) {
            Some(x) => Ok(self.binary(Op::Div, x, a, b)),
            None => Err(GraphError::Overflow),
        }
    }

    /// Creates the node `tanh x`, rounded to the nearest integer. This never
    /// fails: the result is -1, 0 or 1.
    pub fn tanh(&mut self, x: Value) -> (v: Value)
        requires
            old(self).wf(),
            old(self).contains(x),
        ensures
            final(self).wf(),
            operator_post(old(self)@, Op::Tanh, seq![x], Ok(v), final(self)@),
            v.index == old(self)@.len(),
            final(self)@[v.index as int].children == seq![x],
            final(self)@[v.index as int].data == rounded_tanh(old(self)@[x.index as int].data),
    {
        let d = self.data(x);
        let t: i64 = if d > 0 {
            1
        } else if d < 0 {
            -1
        } else {
            0
        };
        let mut children: Vec<Value> = Vec::new();
        children.push(x);
        assert(children@ =~= seq![x]);
        self.record(Op::Tanh, t, children)
    }
}

} // verus!
