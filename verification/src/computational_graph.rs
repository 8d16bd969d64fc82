//! The graph itself: node construction, evaluation and assignment.

use vstd::prelude::*;
use vstd::pervasive::unreached;
use crate::lemmas::{
    lemma_assigned, lemma_depends_on_bound, lemma_depends_on_reader, lemma_depends_on_through,
    lemma_grown, lemma_outcome, lemma_pulls_remainder, lemma_pulls_shrinks, lemma_pulls_target,
    lemma_same_edges, lemma_same_wiring,
};
use crate::model::{
    NodeView, Results, Shape, acyclic, assigned, attained, caches_attained, caches_sound,
    dependents_exact, depends_on, deterministic, evaluated, forgetting, grown, invalidated, lists,
    pulls, reads, remembering, results, same_wiring, total, value, with_input,
};

verus! {

/// Operators of two operands.
#[derive(Debug, Clone, Copy, PartialEq, Eq, Structural)]
pub enum BinaryOp {
    Add,
    Mul,
    Pow,
}

/// Operators of one operand.
#[derive(Debug, Clone, Copy, PartialEq, Eq, Structural)]
pub enum UnaryOp {
    Sin,
}

/// An operator together with the values of its operands: what the
/// evaluator is asked to work out.
#[derive(Debug, Clone, Copy, PartialEq, Eq, Structural)]
pub enum Application {
    Unary(UnaryOp, u32),
    Binary(BinaryOp, u32, u32),
}

/// Why an assignment was refused.
#[derive(Debug, Clone, Copy, PartialEq, Eq, Structural)]
pub enum SetError {
    /// The graph has no node of that index.
    NoSuchNode,
    /// The node is an operator node; only inputs can be assigned to.
    NotAnInput,
}

/// What every node carries besides its shape.
#[derive(Debug, Clone)]
pub struct NodeData {
    pub cache: Option<u32>,
    pub dependents: Vec<usize>,
}

/// A node of the graph. Operands and dependents are indices into the graph
/// that holds the node.
#[allow(inconsistent_fields)]
#[derive(Debug, Clone)]
pub enum Node {
    Input { x: u32, data: NodeData },
    Binary { op: BinaryOp, a: usize, b: usize, data: NodeData },
    Unary { op: UnaryOp, x: usize, data: NodeData },
}

impl View for Node {
    type V = NodeView;

    open spec fn view(&self) -> NodeView {
        match *self {
            Node::Input { x, data } => NodeView {
                shape: Shape::Input(x),
                cache: data.cache,
                dependents: data.dependents@,
            },
            Node::Binary { op, a, b, data } => NodeView {
                shape: Shape::Binary(op, a, b),
                cache: data.cache,
                dependents: data.dependents@,
            },
            Node::Unary { op, x, data } => NodeView {
                shape: Shape::Unary(op, x),
                cache: data.cache,
                dependents: data.dependents@,
            },
        }
    }
}

/// An arena of nodes together with the evaluator that gives operators their
/// meaning.
///
/// A node is named by its index. Its edges are fixed when it is created and
/// lead to nodes that were there before it, so the graph cannot hold a
/// cycle; nodes are never removed.
pub struct Graph<E> {
    nodes: Vec<Node>,
    apply: E,
}

impl<E: Fn(Application) -> u32> Graph<E> {
    /// The state of the graph: its nodes, in the order of their indices.
    pub closed spec fn view(&self) -> Seq<NodeView> {
        self.nodes@.map_values(|n: Node| n@)
    }

    /// The evaluator this graph was made with.
    pub closed spec fn evaluator(&self) -> E {
        self.apply
    }

    /// What the evaluator may return, as a relation between applications and
    /// results.
    pub open spec fn results(&self) -> Results {
        results(self.evaluator())
    }

    /// The graph is well formed.
    pub open spec fn wf(&self) -> bool {
        &&& total(self.evaluator())
        &&& deterministic(self.results())
        &&& acyclic(self@)
        &&& dependents_exact(self@)
        &&& caches_sound(self.results(), self@)
        &&& caches_attained(self.results(), self@)
    }

    /// The value that `node` denotes.
    pub open spec fn value(&self, node: int) -> u32 {
        value(self.results(), self@, node)
    }

    /// An empty graph whose operators mean what `apply` computes. The
    /// evaluator has to accept every application and to be a function of it:
    /// what a node remembers stands for what the evaluator would return.
    pub fn new(apply: E) -> (graph: Self)
        requires
            total(apply),
            deterministic(results(apply)),
        ensures
            graph.wf(),
            graph@ == Seq::<NodeView>::empty(),
            graph.evaluator() == apply,
    {
        let graph = Graph { nodes: Vec::new(), apply };
        assert(graph@ =~= Seq::<NodeView>::empty());
        graph
    }

    /// The number of nodes.
    pub fn len(&self) -> (n: usize)
        ensures
            n == self@.len(),
    {
        self.nodes.len()
    }

    /// The node of index `node`.
    pub fn node(&self, node: usize) -> (found: &Node)
        requires
            node < self@.len(),
        ensures
            found@ == self@[node as int],
    {
        &self.nodes[node]
    }

    /// Whether `node` is a node of this graph and an input.
    pub fn is_input(&self, node: usize) -> (yes: bool)
        ensures
            yes == (node < self@.len() && self@[node as int].shape is Input),
    {
        if node < self.nodes.len() {
            match &self.nodes[node] {
                Node::Input { .. } => true,
                _ => false,
            }
        } else {
            false
        }
    }

    /// Forgets what `node` and every node that depends on it remember.
    fn clear_cache(&mut self, node: usize)
        requires
            acyclic(old(self)@),
            dependents_exact(old(self)@),
            node < old(self)@.len(),
        ensures
            final(self)@ == invalidated(old(self)@, node as int),
            final(self).evaluator() == old(self).evaluator(),
        decreases old(self)@.len() - node,
    {
        let ghost s0 = self@;
        let count = self.nodes[node].data().dependents.len();
        let mut k: usize = 0;
        while k < count
            invariant
                k <= count,
                s0 == old(self)@,
                count == s0[node as int].dependents.len(),
                node < s0.len(),
                acyclic(s0),
                dependents_exact(s0),
                same_wiring(s0, self@),
                self.evaluator() == old(self).evaluator(),
                forall|j: int|
                    0 <= j < s0.len() ==> #[trigger] self@[j] == if swept(
                        s0,
                        node as int,
                        k as int,
                        j,
                    ) && !(s0[j].shape is Input) {
                        forgetting(s0[j])
                    } else {
                        s0[j]
                    },
            decreases count - k,
        {
            let ghost s1 = self@;
            let dependent = self.nodes[node].data().dependents[k];
            proof {
                assert(dependent == s0[node as int].dependents[k as int]);
                assert(reads(s0, dependent as int, node as int));
                lemma_same_edges(s0, s1);
            }
            self.clear_cache(dependent);
            proof {
                let s2 = self@;
                assert forall|j: int| 0 <= j < s0.len() implies #[trigger] s2[j] == if swept(
                    s0,
                    node as int,
                    k + 1,
                    j,
                ) && !(s0[j].shape is Input) {
                    forgetting(s0[j])
                } else {
                    s0[j]
                } by {
                    if swept(s0, node as int, k + 1, j) {
                        let m = choose|m: int|
                            0 <= m < k + 1 && depends_on(
                                s0,
                                j,
                                #[trigger] s0[node as int].dependents[m] as int,
                            );
                        if m < k {
                            assert(swept(s0, node as int, k as int, j));
                        }
                    }
                    if depends_on(s0, j, dependent as int) {
                        assert(swept(s0, node as int, k + 1, j));
                    }
                    if swept(s0, node as int, k as int, j) {
                        let m = choose|m: int|
                            0 <= m < k && depends_on(
                                s0,
                                j,
                                #[trigger] s0[node as int].dependents[m] as int,
                            );
                        assert(swept(s0, node as int, k + 1, j));
                    }
                }
            }
            k += 1;
        }
        let ghost s1 = self@;
        match &mut self.nodes[node] {
            Node::Input { .. } => {},
            Node::Binary { data, .. } => {
                data.cache = None;
            },
            Node::Unary { data, .. } => {
                data.cache = None;
            },
        }
        proof {
            let s2 = self@;
            assert(s2 =~= if s0[node as int].shape is Input {
                s1
            } else {
                s1.update(node as int, forgetting(s1[node as int]))
            });
            assert(depends_on(s0, node as int, node as int));
            assert forall|j: int| 0 <= j < s0.len() implies s2[j] == invalidated(
                s0,
                node as int,
            )[j] by {
                if swept(s0, node as int, count as int, j) {
                    let m = choose|m: int|
                        0 <= m < count && depends_on(
                            s0,
                            j,
                            #[trigger] s0[node as int].dependents[m] as int,
                        );
                    let d = s0[node as int].dependents[m] as int;
                    assert(reads(s0, d, node as int));
                    lemma_depends_on_through(s0, j, d, node as int);
                    lemma_depends_on_bound(s0, j, d);
                }
                if depends_on(s0, j, node as int) && j != node {
                    let c = lemma_depends_on_reader(s0, j, node as int);
                    assert(lists(s0, node as int, c));
                    assert(swept(s0, node as int, count as int, j));
                }
            }
            assert(s2 =~= invalidated(s0, node as int));
        }
    }
}

/// Node `j` depends on one of the first `k` dependents of node `n`.
spec fn swept(s: Seq<NodeView>, n: int, k: int, j: int) -> bool {
    exists|m: int| 0 <= m < k && depends_on(s, j, #[trigger] s[n].dependents[m] as int)
}

impl Node {
    /// Adds an input node holding `x` and returns its index.
    pub fn create_input<E: Fn(Application) -> u32>(graph: &mut Graph<E>, x: u32) -> (node: usize)
        requires
            old(graph).wf(),
        ensures
            final(graph).wf(),
            final(graph).evaluator() == old(graph).evaluator(),
            node == old(graph)@.len(),
            final(graph)@ == grown(old(graph)@, Shape::Input(x)),
    {
        let node = graph.nodes.len();
        graph.nodes.push(
            Node::Input { x, data: NodeData { cache: Some(x), dependents: Vec::new() } },
        );
        proof {
            assert(graph@ =~= grown(old(graph)@, Shape::Input(x)));
            lemma_grown(graph.results(), old(graph)@, Shape::Input(x));
        }
        node
    }

    /// Adds a node for the sum of `a` and `b`.
    pub fn create_add<E: Fn(Application) -> u32>(
        graph: &mut Graph<E>,
        a: usize,
        b: usize,
    ) -> (node: usize)
        requires
            old(graph).wf(),
            a < old(graph)@.len(),
            b < old(graph)@.len(),
        ensures
            final(graph).wf(),
            final(graph).evaluator() == old(graph).evaluator(),
            node == old(graph)@.len(),
            final(graph)@ == grown(old(graph)@, Shape::Binary(BinaryOp::Add, a, b)),
    {
        Node::create_binary_node(graph, BinaryOp::Add, a, b)
    }

    /// Adds a node for the product of `a` and `b`.
    pub fn create_mul<E: Fn(Application) -> u32>(
        graph: &mut Graph<E>,
        a: usize,
        b: usize,
    ) -> (node: usize)
        requires
            old(graph).wf(),
            a < old(graph)@.len(),
            b < old(graph)@.len(),
        ensures
            final(graph).wf(),
            final(graph).evaluator() == old(graph).evaluator(),
            node == old(graph)@.len(),
            final(graph)@ == grown(old(graph)@, Shape::Binary(BinaryOp::Mul, a, b)),
    {
        Node::create_binary_node(graph, BinaryOp::Mul, a, b)
    }

    /// Adds a node for the sine of `x`.
    pub fn create_sin<E: Fn(Application) -> u32>(graph: &mut Graph<E>, x: usize) -> (node: usize)
        requires
            old(graph).wf(),
            x < old(graph)@.len(),
        ensures
            final(graph).wf(),
            final(graph).evaluator() == old(graph).evaluator(),
            node == old(graph)@.len(),
            final(graph)@ == grown(old(graph)@, Shape::Unary(UnaryOp::Sin, x)),
    {
        Node::create_unary_node(graph, UnaryOp::Sin, x)
    }

    /// Adds a node for `a` raised to the power `b`.
    pub fn create_pow<E: Fn(Application) -> u32>(
        graph: &mut Graph<E>,
        a: usize,
        b: usize,
    ) -> (node: usize)
        requires
            old(graph).wf(),
            a < old(graph)@.len(),
            b < old(graph)@.len(),
        ensures
            final(graph).wf(),
            final(graph).evaluator() == old(graph).evaluator(),
            node == old(graph)@.len(),
            final(graph)@ == grown(old(graph)@, Shape::Binary(BinaryOp::Pow, a, b)),
    {
        Node::create_binary_node(graph, BinaryOp::Pow, a, b)
    }

    /// Adds a node that applies `op` to the values of `a` and `b`, enters it
    /// among the dependents of both, and returns its index.
    pub fn create_binary_node<E: Fn(Application) -> u32>(
        graph: &mut Graph<E>,
        op: BinaryOp,
        a: usize,
        b: usize,
    ) -> (node: usize)
        requires
            old(graph).wf(),
            a < old(graph)@.len(),
            b < old(graph)@.len(),
        ensures
            final(graph).wf(),
            final(graph).evaluator() == old(graph).evaluator(),
            node == old(graph)@.len(),
            final(graph)@ == grown(old(graph)@, Shape::Binary(op, a, b)),
    {
        let node = graph.nodes.len();
        graph.nodes.push(
            Node::Binary { op, a, b, data: NodeData { cache: None, dependents: Vec::new() } },
        );
        graph.nodes[a].add_dependent(node);
        graph.nodes[b].add_dependent(node);
        proof {
            assert(graph@ =~= grown(old(graph)@, Shape::Binary(op, a, b)));
            lemma_grown(graph.results(), old(graph)@, Shape::Binary(op, a, b));
        }
        node
    }

    /// Adds a node that applies `op` to the value of `x`, enters it among the
    /// dependents of `x`, and returns its index.
    pub fn create_unary_node<E: Fn(Application) -> u32>(
        graph: &mut Graph<E>,
        op: UnaryOp,
        x: usize,
    ) -> (node: usize)
        requires
            old(graph).wf(),
            x < old(graph)@.len(),
        ensures
            final(graph).wf(),
            final(graph).evaluator() == old(graph).evaluator(),
            node == old(graph)@.len(),
            final(graph)@ == grown(old(graph)@, Shape::Unary(op, x)),
    {
        let node = graph.nodes.len();
        graph.nodes.push(
            Node::Unary { op, x, data: NodeData { cache: None, dependents: Vec::new() } },
        );
        graph.nodes[x].add_dependent(node);
        proof {
            assert(graph@ =~= grown(old(graph)@, Shape::Unary(op, x)));
            lemma_grown(graph.results(), old(graph)@, Shape::Unary(op, x));
        }
        node
    }

    /// Returns the value of `node`, working out only what is not remembered,
    /// and remembers what it works out.
    pub fn compute<E: Fn(Application) -> u32>(graph: &mut Graph<E>, node: usize) -> (r: u32)
        requires
            old(graph).wf(),
            node < old(graph)@.len(),
        ensures
            final(graph).wf(),
            final(graph).evaluator() == old(graph).evaluator(),
            r == old(graph).value(node as int),
            attained(old(graph).results(), old(graph)@, node as int),
            final(graph)@ == evaluated(old(graph).results(), old(graph)@, node as int),
        decreases node,
    {
        let ghost e = graph.results();
        let ghost s0 = graph@;
        match &graph.nodes[node] {
            Node::Input { x, .. } => {
                assert(graph@ =~= evaluated(e, s0, node as int));
                *x
            },
            Node::Binary { op, a, b, data } => {
                if let Some(cached) = data.cache {
                    assert(graph@ =~= evaluated(e, s0, node as int));
                    cached
                } else {
                    let op = *op;
                    let a = *a;
                    let b = *b;
                    assert(reads(s0, node as int, a as int));
                    assert(reads(s0, node as int, b as int));
                    let left = Node::compute(graph, a);
                    let ghost s1 = graph@;
                    let right = Node::compute(graph, b);
                    let ghost s2 = graph@;
                    let computed = (graph.apply)(Application::Binary(op, left, right));
                    assert(graph.nodes@.len() == s2.len());
                    graph.nodes[node].data_mut().cache = Some(computed);
                    proof {
                        let s3 = graph@;
                        lemma_same_wiring(e, s0, s1);
                        lemma_same_wiring(e, s1, s2);
                        lemma_outcome(e, Application::Binary(op, left, right), computed);
                        assert(s3 =~= s2.update(
                            node as int,
                            remembering(s2[node as int], computed),
                        ));
                        assert forall|j: int| 0 <= j < s0.len() implies s3[j] == evaluated(
                            e,
                            s0,
                            node as int,
                        )[j] by {
                            if pulls(s0, a as int, j) {
                                lemma_pulls_target(s0, a as int, j);
                            }
                            if pulls(s0, b as int, j) {
                                lemma_pulls_target(s0, b as int, j);
                                if !pulls(s0, a as int, j) {
                                    lemma_pulls_remainder(s0, s1, a as int, b as int, j);
                                }
                            }
                            if pulls(s1, b as int, j) {
                                lemma_pulls_target(s1, b as int, j);
                                lemma_pulls_shrinks(s0, s1, b as int, j);
                            }
                        }
                        assert(s3 =~= evaluated(e, s0, node as int));
                        lemma_same_wiring(e, s0, s3);
                    }
                    computed
                }
            },
            Node::Unary { op, x, data } => {
                if let Some(cached) = data.cache {
                    assert(graph@ =~= evaluated(e, s0, node as int));
                    cached
                } else {
                    let op = *op;
                    let x = *x;
                    assert(reads(s0, node as int, x as int));
                    let operand = Node::compute(graph, x);
                    let ghost s1 = graph@;
                    let computed = (graph.apply)(Application::Unary(op, operand));
                    assert(graph.nodes@.len() == s1.len());
                    graph.nodes[node].data_mut().cache = Some(computed);
                    proof {
                        let s2 = graph@;
                        lemma_same_wiring(e, s0, s1);
                        lemma_outcome(e, Application::Unary(op, operand), computed);
                        assert(s2 =~= s1.update(
                            node as int,
                            remembering(s1[node as int], computed),
                        ));
                        assert forall|j: int| 0 <= j < s0.len() implies s2[j] == evaluated(
                            e,
                            s0,
                            node as int,
                        )[j] by {
                            if pulls(s0, x as int, j) {
                                lemma_pulls_target(s0, x as int, j);
                            }
                        }
                        assert(s2 =~= evaluated(e, s0, node as int));
                        lemma_same_wiring(e, s0, s2);
                    }
                    computed
                }
            },
        }
    }

    /// Assigns `new_value` to the input `node` and forgets every remembered
    /// value that was derived from it. Only an input can be assigned to;
    /// `try_set` is there for a node of which that is not known.
    pub fn set<E: Fn(Application) -> u32>(graph: &mut Graph<E>, node: usize, new_value: u32)
        requires
            old(graph).wf(),
            node < old(graph)@.len(),
            old(graph)@[node as int].shape is Input,
        ensures
            final(graph).wf(),
            final(graph).evaluator() == old(graph).evaluator(),
            final(graph)@ == assigned(old(graph)@, node as int, new_value),
    {
        let ghost e = graph.results();
        let ghost s0 = graph@;
        match &mut graph.nodes[node] {
            Node::Input { x, data } => {
                *x = new_value;
                data.cache = Some(new_value);
            },
            _ => unreached(),
        }
        let ghost s1 = graph@;
        proof {
            assert(s1 =~= with_input(s0, node as int, new_value));
            lemma_same_edges(s0, s1);
        }
        graph.clear_cache(node);
        proof {
            lemma_assigned(e, s0, node as int, new_value);
            lemma_same_edges(s0, graph@);
        }
    }

    /// Assigns `new_value` to `node` if it is an input of the graph, as `set`
    /// does; otherwise says why not and leaves the graph as it is.
    pub fn try_set<E: Fn(Application) -> u32>(
        graph: &mut Graph<E>,
        node: usize,
        new_value: u32,
    ) -> (done: Result<(), SetError>)
        requires
            old(graph).wf(),
        ensures
            final(graph).wf(),
            final(graph).evaluator() == old(graph).evaluator(),
            done is Ok <==> node < old(graph)@.len() && old(graph)@[node as int].shape is Input,
            done == Err::<(), SetError>(SetError::NoSuchNode) <==> node >= old(graph)@.len(),
            done == Err::<(), SetError>(SetError::NotAnInput) <==> node < old(graph)@.len() && !(old(
                graph,
            )@[node as int].shape is Input),
            done is Ok ==> final(graph)@ == assigned(old(graph)@, node as int, new_value),
            done is Err ==> final(graph)@ == old(graph)@,
    {
        if node >= graph.len() {
            Err(SetError::NoSuchNode)
        } else if graph.is_input(node) {
            Node::set(graph, node, new_value);
            Ok(())
        } else {
            Err(SetError::NotAnInput)
        }
    }

    /// Appends `node` to the dependents.
    fn add_dependent(&mut self, node: usize)
        ensures
            final(self)@ == (NodeView {
                shape: old(self)@.shape,
                cache: old(self)@.cache,
                dependents: old(self)@.dependents.push(node),
            }),
    {
        self.data_mut().dependents.push(node);
    }

    /// What the node carries besides its shape.
    fn data(&self) -> (data: &NodeData)
        ensures
            data.cache == self@.cache,
            data.dependents@ == self@.dependents,
    {
        match self {
            Node::Input { data, .. } => data,
            Node::Binary { data, .. } => data,
            Node::Unary { data, .. } => data,
        }
    }

    /// What the node carries besides its shape, to be changed in place.
    fn data_mut(&mut self) -> (data: &mut NodeData)
        ensures
            data.cache == old(self)@.cache,
            data.dependents@ == old(self)@.dependents,
            final(self)@ == (NodeView {
                shape: old(self)@.shape,
                cache: final(data).cache,
                dependents: final(data).dependents@,
            }),
    {
        match self {
            Node::Input { data, .. } => data,
            Node::Binary { data, .. } => data,
            Node::Unary { data, .. } => data,
        }
    }
}

} // verus!
