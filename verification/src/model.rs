//! The mathematical model of a graph: what each node is, what it currently
//! remembers, who reads it, and the value it denotes.

use vstd::prelude::*;
use crate::computational_graph::{Application, BinaryOp, UnaryOp};

verus! {

/// What a node is: an input holding a scalar, or an operator applied to
/// earlier nodes.
pub enum Shape {
    Input(u32),
    Unary(UnaryOp, usize),
    Binary(BinaryOp, usize, usize),
}

/// The abstract state of one node.
pub struct NodeView {
    pub shape: Shape,
    pub cache: Option<u32>,
    pub dependents: Seq<usize>,
}

/// A relation between applications and results: which scalars an
/// evaluator may return for which application.
pub type Results = spec_fn(Application, u32) -> bool;

/// The evaluator accepts every application.
pub open spec fn total<E: Fn(Application) -> u32>(e: E) -> bool {
    forall|app: Application| #[trigger] e.requires((app,))
}

/// What the evaluator may return: `results(e)(app, r)` says that `r` is a
/// result of `e` on `app`.
pub open spec fn results<E: Fn(Application) -> u32>(e: E) -> Results {
    |app: Application, r: u32| e.ensures((app,), r)
}

/// The evaluator is a function: one application has at most one result.
pub open spec fn deterministic(e: Results) -> bool {
    forall|app: Application, r1: u32, r2: u32|
        #[trigger] e(app, r1) && #[trigger] e(app, r2) ==> r1 == r2
}

/// The result the evaluator gives for `app`.
pub open spec fn outcome(e: Results, app: Application) -> u32 {
    choose|r: u32| #[trigger] e(app, r)
}

/// Node `j` has node `i` as a direct operand.
pub open spec fn reads(s: Seq<NodeView>, j: int, i: int) -> bool {
    0 <= j < s.len() && match s[j].shape {
        Shape::Input(_) => false,
        Shape::Unary(_, x) => x == i,
        Shape::Binary(_, a, b) => a == i || b == i,
    }
}

/// Every operand of a node precedes it, so no node reaches itself.
pub open spec fn acyclic(s: Seq<NodeView>) -> bool {
    forall|i: int, j: int| #[trigger] reads(s, j, i) ==> 0 <= i < j
}

/// Node `j` stands in the dependents of node `i`.
pub open spec fn lists(s: Seq<NodeView>, i: int, j: int) -> bool {
    0 <= i < s.len() && exists|k: int|
        0 <= k < s[i].dependents.len() && #[trigger] s[i].dependents[k] == j
}

/// The dependents of a node are exactly the nodes that read it.
pub open spec fn dependents_exact(s: Seq<NodeView>) -> bool {
    &&& forall|i: int, k: int|
        0 <= i < s.len() && 0 <= k < s[i].dependents.len() ==> reads(
            s,
            #[trigger] s[i].dependents[k] as int,
            i,
        )
    &&& forall|i: int, j: int| #[trigger] reads(s, j, i) && 0 <= i < s.len() ==> lists(s, i, j)
}

/// The value that node `i` denotes: an input's scalar, or the evaluator's
/// result on the values of the operands.
pub open spec fn value(e: Results, s: Seq<NodeView>, i: int) -> u32
    decreases i,
{
    if 0 <= i < s.len() {
        match s[i].shape {
            Shape::Input(x) => x,
            Shape::Unary(op, x) => if x < i {
                outcome(e, Application::Unary(op, value(e, s, x as int)))
            } else {
                0
            },
            Shape::Binary(op, a, b) => if a < i && b < i {
                outcome(e, Application::Binary(op, value(e, s, a as int), value(e, s, b as int)))
            } else {
                0
            },
        }
    } else {
        0
    }
}

/// The value of node `i` has been attained: for every operator node that
/// `i` depends on, `i` included, the evaluator has the node's value as its
/// result on the values of the node's operands.
pub open spec fn attained(e: Results, s: Seq<NodeView>, i: int) -> bool
    decreases i,
{
    0 <= i < s.len() && match s[i].shape {
        Shape::Input(_) => true,
        Shape::Unary(op, x) => x < i && attained(e, s, x as int) && e(
            Application::Unary(op, value(e, s, x as int)),
            value(e, s, i),
        ),
        Shape::Binary(op, a, b) => a < i && b < i && attained(e, s, a as int) && attained(
            e,
            s,
            b as int,
        ) && e(
            Application::Binary(op, value(e, s, a as int), value(e, s, b as int)),
            value(e, s, i),
        ),
    }
}

/// Whatever a node remembers has been attained.
pub open spec fn caches_attained(e: Results, s: Seq<NodeView>) -> bool {
    forall|i: int| 0 <= i < s.len() && (#[trigger] s[i]).cache is Some ==> attained(e, s, i)
}

/// An input remembers its own scalar; an operator node remembers nothing,
/// or the value it denotes.
pub open spec fn caches_sound(e: Results, s: Seq<NodeView>) -> bool {
    forall|i: int|
        0 <= i < s.len() ==> match (#[trigger] s[i]).shape {
            Shape::Input(x) => s[i].cache == Some(x),
            _ => s[i].cache is Some ==> s[i].cache == Some(value(e, s, i)),
        }
}

/// Node `j` is node `i`, or reads it through any number of operand edges.
pub open spec fn depends_on(s: Seq<NodeView>, j: int, i: int) -> bool
    decreases j,
{
    j == i || (0 <= j < s.len() && match s[j].shape {
        Shape::Input(_) => false,
        Shape::Unary(_, x) => x < j && depends_on(s, x as int, i),
        Shape::Binary(_, a, b) => (a < j && depends_on(s, a as int, i)) || (b < j && depends_on(
            s,
            b as int,
            i,
        )),
    })
}

/// Two shapes with the same operator and operands; two inputs are alike
/// whatever they hold.
pub open spec fn alike(a: Shape, b: Shape) -> bool {
    match a {
        Shape::Input(_) => b is Input,
        _ => a == b,
    }
}

/// Two states with the same edges: node for node the shapes are alike and
/// the dependents are the same.
pub open spec fn same_edges(s: Seq<NodeView>, t: Seq<NodeView>) -> bool {
    &&& s.len() == t.len()
    &&& forall|k: int|
        0 <= k < s.len() ==> alike((#[trigger] s[k]).shape, t[k].shape) && s[k].dependents
            == t[k].dependents
}

/// Two states of one graph: the same shapes and the same dependents; only
/// what the nodes remember may differ.
pub open spec fn same_wiring(s: Seq<NodeView>, t: Seq<NodeView>) -> bool {
    &&& s.len() == t.len()
    &&& forall|k: int|
        0 <= k < s.len() ==> (#[trigger] s[k]).shape == t[k].shape && s[k].dependents
            == t[k].dependents
}

/// Evaluating node `n` gets as far as node `j`: a chain of operand edges
/// leads from `n` to `j`, and no node on it, `j` included, remembers a value.
pub open spec fn pulls(s: Seq<NodeView>, n: int, j: int) -> bool
    decreases n,
{
    0 <= n < s.len() && s[n].cache is None && match s[n].shape {
        Shape::Input(_) => false,
        Shape::Unary(_, x) => j == n || (x < n && pulls(s, x as int, j)),
        Shape::Binary(_, a, b) => j == n || (a < n && pulls(s, a as int, j)) || (b < n && pulls(
            s,
            b as int,
            j,
        )),
    }
}

/// The node with `v` remembered.
pub open spec fn remembering(n: NodeView, v: u32) -> NodeView {
    NodeView { shape: n.shape, cache: Some(v), dependents: n.dependents }
}

/// The node with nothing remembered.
pub open spec fn forgetting(n: NodeView) -> NodeView {
    NodeView { shape: n.shape, cache: None, dependents: n.dependents }
}

/// The state after evaluating node `n`: every node the evaluation gets to
/// now remembers its value, and nothing else has changed.
pub open spec fn evaluated(e: Results, s: Seq<NodeView>, n: int) -> Seq<NodeView> {
    Seq::new(
        s.len(),
        |j: int|
            if pulls(s, n, j) {
                remembering(s[j], value(e, s, j))
            } else {
                s[j]
            },
    )
}

/// The state in which node `d` has been appended to the dependents of
/// node `i`.
pub open spec fn attached(s: Seq<NodeView>, i: int, d: usize) -> Seq<NodeView> {
    s.update(
        i,
        NodeView { shape: s[i].shape, cache: s[i].cache, dependents: s[i].dependents.push(d) },
    )
}

/// The state after adding a node of the given shape at the end. An input
/// starts out remembering its scalar, an operator node remembering nothing;
/// the new node has no dependents, and is appended to the dependents of
/// each of its operands, once for each place in which it reads them.
pub open spec fn grown(s: Seq<NodeView>, shape: Shape) -> Seq<NodeView> {
    let d = s.len() as usize;
    match shape {
        Shape::Input(x) => s.push(NodeView { shape, cache: Some(x), dependents: Seq::empty() }),
        Shape::Unary(_, x) => attached(s, x as int, d).push(
            NodeView { shape, cache: None, dependents: Seq::empty() },
        ),
        Shape::Binary(_, a, b) => attached(attached(s, a as int, d), b as int, d).push(
            NodeView { shape, cache: None, dependents: Seq::empty() },
        ),
    }
}

/// The operands of the shape are among the first `n` nodes.
pub open spec fn operands_below(shape: Shape, n: int) -> bool {
    match shape {
        Shape::Input(_) => true,
        Shape::Unary(_, x) => x < n,
        Shape::Binary(_, a, b) => a < n && b < n,
    }
}

/// The state in which no operator node that depends on node `i` remembers
/// anything, and nothing else has changed.
pub open spec fn invalidated(s: Seq<NodeView>, i: int) -> Seq<NodeView> {
    Seq::new(
        s.len(),
        |j: int|
            if depends_on(s, j, i) && !(s[j].shape is Input) {
                forgetting(s[j])
            } else {
                s[j]
            },
    )
}

/// The state in which node `i` is an input holding `v`.
pub open spec fn with_input(s: Seq<NodeView>, i: int, v: u32) -> Seq<NodeView> {
    s.update(i, NodeView { shape: Shape::Input(v), cache: Some(v), dependents: s[i].dependents })
}

/// The state after assigning `v` to input `i`: the input holds `v`, and
/// whatever depends on it is forgotten.
pub open spec fn assigned(s: Seq<NodeView>, i: int, v: u32) -> Seq<NodeView> {
    invalidated(with_input(s, i, v), i)
}

} // verus!
