//! Facts about the model that the graph operations and the laws rest on.

use vstd::prelude::*;
use crate::computational_graph::Application;
use crate::model::{
    NodeView, Results, Shape, acyclic, assigned, attained, caches_attained, caches_sound,
    dependents_exact, depends_on, deterministic, grown, lists, operands_below, outcome,
    pulls, reads, same_edges, same_wiring, value, with_input,
};

verus! {

/// The value of a node is settled by the shapes of the nodes it depends on.
pub proof fn lemma_value_agrees(
    e: Results,
    s: Seq<NodeView>,
    t: Seq<NodeView>,
    j: int,
)
    requires
        0 <= j < s.len(),
        j < t.len(),
        forall|k: int| 0 <= k <= j && depends_on(s, j, k) ==> (#[trigger] s[k]).shape == t[k].shape,
    ensures
        value(e, s, j) == value(e, t, j),
    decreases j,
{
    assert(depends_on(s, j, j));
    match s[j].shape {
        Shape::Input(_) => {},
        Shape::Unary(_, x) => {
            if x < j {
                assert forall|k: int| 0 <= k <= x && depends_on(s, x as int, k) implies (
                #[trigger] s[k]).shape == t[k].shape by {
                    assert(depends_on(s, j, k));
                }
                lemma_value_agrees(e, s, t, x as int);
            }
        },
        Shape::Binary(_, a, b) => {
            if a < j && b < j {
                assert forall|k: int| 0 <= k <= a && depends_on(s, a as int, k) implies (
                #[trigger] s[k]).shape == t[k].shape by {
                    assert(depends_on(s, j, k));
                }
                assert forall|k: int| 0 <= k <= b && depends_on(s, b as int, k) implies (
                #[trigger] s[k]).shape == t[k].shape by {
                    assert(depends_on(s, j, k));
                }
                lemma_value_agrees(e, s, t, a as int);
                lemma_value_agrees(e, s, t, b as int);
            }
        },
    }
}

/// Whether the value of a node has been attained is settled by the shapes
/// of the nodes it depends on.
pub proof fn lemma_attained_agrees(
    e: Results,
    s: Seq<NodeView>,
    t: Seq<NodeView>,
    j: int,
)
    requires
        0 <= j < s.len(),
        j < t.len(),
        forall|k: int| 0 <= k <= j && depends_on(s, j, k) ==> (#[trigger] s[k]).shape == t[k].shape,
        attained(e, s, j),
    ensures
        attained(e, t, j),
    decreases j,
{
    assert(depends_on(s, j, j));
    lemma_value_agrees(e, s, t, j);
    match s[j].shape {
        Shape::Input(_) => {},
        Shape::Unary(_, x) => {
            assert forall|k: int| 0 <= k <= x && depends_on(s, x as int, k) implies (
            #[trigger] s[k]).shape == t[k].shape by {
                assert(depends_on(s, j, k));
            }
            lemma_value_agrees(e, s, t, x as int);
            lemma_attained_agrees(e, s, t, x as int);
        },
        Shape::Binary(_, a, b) => {
            assert forall|k: int| 0 <= k <= a && depends_on(s, a as int, k) implies (
            #[trigger] s[k]).shape == t[k].shape by {
                assert(depends_on(s, j, k));
            }
            assert forall|k: int| 0 <= k <= b && depends_on(s, b as int, k) implies (
            #[trigger] s[k]).shape == t[k].shape by {
                assert(depends_on(s, j, k));
            }
            lemma_value_agrees(e, s, t, a as int);
            lemma_value_agrees(e, s, t, b as int);
            lemma_attained_agrees(e, s, t, a as int);
            lemma_attained_agrees(e, s, t, b as int);
        },
    }
}

/// What a deterministic evaluator returns is its outcome.
pub proof fn lemma_outcome(e: Results, app: Application, r: u32)
    requires
        deterministic(e),
        e(app, r),
    ensures
        r == outcome(e, app),
{
}

/// Which node depends on which is settled by the edges.
pub proof fn lemma_depends_on_edges(s: Seq<NodeView>, t: Seq<NodeView>, j: int, i: int)
    requires
        same_edges(s, t),
    ensures
        depends_on(s, j, i) == depends_on(t, j, i),
    decreases j,
{
    if j != i && 0 <= j < s.len() {
        match s[j].shape {
            Shape::Input(_) => {},
            Shape::Unary(_, x) => {
                if x < j {
                    lemma_depends_on_edges(s, t, x as int, i);
                }
            },
            Shape::Binary(_, a, b) => {
                if a < j {
                    lemma_depends_on_edges(s, t, a as int, i);
                }
                if b < j {
                    lemma_depends_on_edges(s, t, b as int, i);
                }
            },
        }
    }
}

/// States with the same edges have the same structure.
pub proof fn lemma_same_edges(s: Seq<NodeView>, t: Seq<NodeView>)
    requires
        same_edges(s, t),
    ensures
        forall|i: int, j: int| reads(s, j, i) == #[trigger] reads(t, j, i),
        forall|i: int, j: int| depends_on(s, j, i) == #[trigger] depends_on(t, j, i),
        acyclic(s) ==> acyclic(t),
        dependents_exact(s) ==> dependents_exact(t),
{
    assert forall|i: int, j: int| reads(s, j, i) == #[trigger] reads(t, j, i) by {}
    assert forall|i: int, j: int| depends_on(s, j, i) == #[trigger] depends_on(t, j, i) by {
        lemma_depends_on_edges(s, t, j, i);
    }
    if acyclic(s) {
        assert forall|i: int, j: int| #[trigger] reads(t, j, i) implies 0 <= i < j by {
            assert(reads(s, j, i));
        }
    }
    if dependents_exact(s) {
        assert forall|i: int, j: int| #[trigger] reads(t, j, i) && 0 <= i < t.len() implies lists(
            t,
            i,
            j,
        ) by {
            assert(lists(s, i, j));
        }
        assert forall|i: int, k: int|
            0 <= i < t.len() && 0 <= k < t[i].dependents.len() implies reads(
            t,
            #[trigger] t[i].dependents[k] as int,
            i,
        ) by {
            assert(reads(s, s[i].dependents[k] as int, i));
        }
    }
}

/// States with the same wiring have the same structure and denote the same
/// values.
pub proof fn lemma_same_wiring(e: Results, s: Seq<NodeView>, t: Seq<NodeView>)
    requires
        same_wiring(s, t),
    ensures
        same_edges(s, t),
        acyclic(s) ==> acyclic(t),
        dependents_exact(s) ==> dependents_exact(t),
        forall|i: int| value(e, s, i) == #[trigger] value(e, t, i),
        forall|i: int| attained(e, s, i) == #[trigger] attained(e, t, i),
{
    lemma_same_edges(s, t);
    assert forall|i: int| value(e, s, i) == #[trigger] value(e, t, i) by {
        if 0 <= i < s.len() {
            lemma_value_agrees(e, s, t, i);
        }
    }
    assert forall|i: int| attained(e, s, i) == #[trigger] attained(e, t, i) by {
        if 0 <= i < s.len() {
            if attained(e, s, i) {
                lemma_attained_agrees(e, s, t, i);
            }
            if attained(e, t, i) {
                lemma_attained_agrees(e, t, s, i);
            }
        }
    }
}

/// Adding a node keeps the graph well formed and the values of the nodes
/// that were there.
pub proof fn lemma_grown(e: Results, s: Seq<NodeView>, shape: Shape)
    requires
        acyclic(s),
        dependents_exact(s),
        caches_sound(e, s),
        caches_attained(e, s),
        operands_below(shape, s.len() as int),
        s.len() <= usize::MAX,
    ensures
        acyclic(grown(s, shape)),
        dependents_exact(grown(s, shape)),
        caches_sound(e, grown(s, shape)),
        caches_attained(e, grown(s, shape)),
        grown(s, shape).len() == s.len() + 1,
        forall|i: int|
            0 <= i < s.len() ==> value(e, s, i) == #[trigger] value(e, grown(s, shape), i),
{
    let t = grown(s, shape);
    let n = s.len() as int;
    assert forall|k: int| 0 <= k < n implies (#[trigger] t[k]).shape == s[k].shape && t[k].cache
        == s[k].cache by {}
    assert forall|i: int, j: int| j != n implies reads(s, j, i) == #[trigger] reads(t, j, i) by {}
    assert forall|i: int, j: int| #[trigger] reads(t, j, i) implies 0 <= i < j by {
        if j != n {
            assert(reads(s, j, i));
        }
    }
    assert forall|i: int, k: int| 0 <= i < t.len() && 0 <= k < t[i].dependents.len() implies reads(
        t,
        #[trigger] t[i].dependents[k] as int,
        i,
    ) by {
        if k < s[i].dependents.len() {
            assert(t[i].dependents[k] == s[i].dependents[k]);
            assert(reads(s, s[i].dependents[k] as int, i));
        }
    }
    assert forall|i: int, j: int| #[trigger] reads(t, j, i) && 0 <= i < t.len() implies lists(
        t,
        i,
        j,
    ) by {
        if j != n {
            assert(reads(s, j, i));
            assert(lists(s, i, j));
            let k = choose|k: int|
                0 <= k < s[i].dependents.len() && #[trigger] s[i].dependents[k] == j;
            assert(t[i].dependents[k] == j);
        } else {
            let k = t[i].dependents.len() - 1;
            assert(t[i].dependents[k] == j);
        }
    }
    assert forall|i: int| 0 <= i < n implies value(e, s, i) == #[trigger] value(e, t, i) by {
        lemma_value_agrees(e, s, t, i);
    }
    assert forall|i: int| 0 <= i < t.len() && (#[trigger] t[i]).cache is Some implies attained(
        e,
        t,
        i,
    ) by {
        if i < n {
            assert(s[i].cache is Some);
            lemma_attained_agrees(e, s, t, i);
        }
    }
}

/// A node depends only on itself and on earlier nodes.
pub proof fn lemma_depends_on_bound(s: Seq<NodeView>, j: int, i: int)
    requires
        depends_on(s, j, i),
    ensures
        i <= j,
    decreases j,
{
    if j != i {
        match s[j].shape {
            Shape::Input(_) => {},
            Shape::Unary(_, x) => {
                lemma_depends_on_bound(s, x as int, i);
            },
            Shape::Binary(_, a, b) => {
                if a < j && depends_on(s, a as int, i) {
                    lemma_depends_on_bound(s, a as int, i);
                } else {
                    lemma_depends_on_bound(s, b as int, i);
                }
            },
        }
    }
}

/// Dependence is transitive.
pub proof fn lemma_depends_on_transitive(s: Seq<NodeView>, j: int, m: int, i: int)
    requires
        depends_on(s, j, m),
        depends_on(s, m, i),
    ensures
        depends_on(s, j, i),
    decreases j,
{
    if j != m {
        match s[j].shape {
            Shape::Input(_) => {},
            Shape::Unary(_, x) => {
                lemma_depends_on_transitive(s, x as int, m, i);
            },
            Shape::Binary(_, a, b) => {
                if a < j && depends_on(s, a as int, m) {
                    lemma_depends_on_transitive(s, a as int, m, i);
                } else {
                    lemma_depends_on_transitive(s, b as int, m, i);
                }
            },
        }
    }
}

/// What depends on a reader of a node depends on that node.
pub proof fn lemma_depends_on_through(s: Seq<NodeView>, j: int, c: int, i: int)
    requires
        acyclic(s),
        depends_on(s, j, c),
        reads(s, c, i),
    ensures
        depends_on(s, j, i),
    decreases j,
{
    if j == c {
        assert(depends_on(s, i, i));
    } else {
        match s[j].shape {
            Shape::Input(_) => {},
            Shape::Unary(_, x) => {
                lemma_depends_on_through(s, x as int, c, i);
            },
            Shape::Binary(_, a, b) => {
                if a < j && depends_on(s, a as int, c) {
                    lemma_depends_on_through(s, a as int, c, i);
                } else {
                    lemma_depends_on_through(s, b as int, c, i);
                }
            },
        }
    }
}

/// What depends on another node depends on one of that node's readers.
pub proof fn lemma_depends_on_reader(s: Seq<NodeView>, j: int, i: int) -> (c: int)
    requires
        depends_on(s, j, i),
        j != i,
    ensures
        reads(s, c, i),
        depends_on(s, j, c),
    decreases j,
{
    match s[j].shape {
        Shape::Input(_) => j,
        Shape::Unary(_, x) => {
            if x == i {
                j
            } else {
                lemma_depends_on_reader(s, x as int, i)
            }
        },
        Shape::Binary(_, a, b) => {
            if a == i || b == i {
                j
            } else if a < j && depends_on(s, a as int, i) {
                lemma_depends_on_reader(s, a as int, i)
            } else {
                lemma_depends_on_reader(s, b as int, i)
            }
        },
    }
}

/// An evaluation only gets to operator nodes at or before its start that
/// remember nothing.
pub proof fn lemma_pulls_target(s: Seq<NodeView>, n: int, j: int)
    requires
        pulls(s, n, j),
    ensures
        0 <= j <= n < s.len(),
        s[j].cache is None,
        !(s[j].shape is Input),
        pulls(s, j, j),
    decreases n,
{
    if j != n {
        match s[n].shape {
            Shape::Input(_) => {},
            Shape::Unary(_, x) => {
                lemma_pulls_target(s, x as int, j);
            },
            Shape::Binary(_, a, b) => {
                if a < n && pulls(s, a as int, j) {
                    lemma_pulls_target(s, a as int, j);
                } else {
                    lemma_pulls_target(s, b as int, j);
                }
            },
        }
    }
}

/// What an evaluation gets to from a node it gets to, it gets to.
pub proof fn lemma_pulls_transitive(s: Seq<NodeView>, n: int, m: int, j: int)
    requires
        pulls(s, n, m),
        pulls(s, m, j),
    ensures
        pulls(s, n, j),
    decreases n,
{
    if m != n {
        match s[n].shape {
            Shape::Input(_) => {},
            Shape::Unary(_, x) => {
                lemma_pulls_transitive(s, x as int, m, j);
            },
            Shape::Binary(_, a, b) => {
                if a < n && pulls(s, a as int, m) {
                    lemma_pulls_transitive(s, a as int, m, j);
                } else {
                    lemma_pulls_transitive(s, b as int, m, j);
                }
            },
        }
    }
}

/// Remembering more can only shorten an evaluation.
pub proof fn lemma_pulls_shrinks(s: Seq<NodeView>, t: Seq<NodeView>, n: int, j: int)
    requires
        same_wiring(s, t),
        forall|k: int| 0 <= k < s.len() && (#[trigger] t[k]).cache is None ==> s[k].cache is None,
        pulls(t, n, j),
    ensures
        pulls(s, n, j),
    decreases n,
{
    if j != n {
        match t[n].shape {
            Shape::Input(_) => {},
            Shape::Unary(_, x) => {
                lemma_pulls_shrinks(s, t, x as int, j);
            },
            Shape::Binary(_, a, b) => {
                if a < n && pulls(t, a as int, j) {
                    lemma_pulls_shrinks(s, t, a as int, j);
                } else {
                    lemma_pulls_shrinks(s, t, b as int, j);
                }
            },
        }
    }
}

/// After an evaluation from `m`, an evaluation from `n` still gets to every
/// node it would have got to that the first did not.
pub proof fn lemma_pulls_remainder(s: Seq<NodeView>, t: Seq<NodeView>, m: int, n: int, j: int)
    requires
        same_wiring(s, t),
        forall|k: int|
            0 <= k < s.len() && (#[trigger] s[k]).cache is None && !pulls(s, m, k)
                ==> t[k].cache is None,
        pulls(s, n, j),
        !pulls(s, m, j),
    ensures
        pulls(t, n, j),
    decreases n,
{
    if pulls(s, m, n) {
        lemma_pulls_transitive(s, m, n, j);
    }
    if j != n {
        match s[n].shape {
            Shape::Input(_) => {},
            Shape::Unary(_, x) => {
                lemma_pulls_remainder(s, t, m, x as int, j);
            },
            Shape::Binary(_, a, b) => {
                if a < n && pulls(s, a as int, j) {
                    lemma_pulls_remainder(s, t, m, a as int, j);
                } else {
                    lemma_pulls_remainder(s, t, m, b as int, j);
                }
            },
        }
    }
}

/// Assigning to an input keeps the edges, and leaves every remembered value
/// equal to the value its node now denotes.
pub proof fn lemma_assigned(e: Results, s: Seq<NodeView>, i: int, v: u32)
    requires
        caches_sound(e, s),
        0 <= i < s.len(),
        s[i].shape is Input,
    ensures
        same_edges(s, assigned(s, i, v)),
        same_wiring(with_input(s, i, v), assigned(s, i, v)),
        caches_sound(e, assigned(s, i, v)),
        caches_attained(e, s) ==> caches_attained(e, assigned(s, i, v)),
{
    let s1 = with_input(s, i, v);
    let t = assigned(s, i, v);
    assert(same_edges(s, s1));
    assert(same_wiring(s1, t));
    lemma_same_edges(s, s1);
    assert forall|j: int| 0 <= j < t.len() implies match (#[trigger] t[j]).shape {
        Shape::Input(x) => t[j].cache == Some(x),
        _ => t[j].cache is Some ==> t[j].cache == Some(value(e, t, j)),
    } by {
        assert(s[j].shape is Input ==> s[j].cache is Some);
        if !(t[j].shape is Input) && t[j].cache is Some {
            assert(!depends_on(s, j, i));
            assert forall|k: int| 0 <= k <= j && depends_on(s, j, k) implies (#[trigger] s[k]).shape
                == t[k].shape by {}
            lemma_value_agrees(e, s, t, j);
        }
    }
    if caches_attained(e, s) {
        assert forall|j: int| 0 <= j < t.len() && (#[trigger] t[j]).cache is Some implies attained(
            e,
            t,
            j,
        ) by {
            if !(t[j].shape is Input) {
                assert(!depends_on(s, j, i));
                assert(s[j].cache is Some);
                assert forall|k: int| 0 <= k <= j && depends_on(s, j, k) implies (
                #[trigger] s[k]).shape == t[k].shape by {}
                lemma_attained_agrees(e, s, t, j);
            }
        }
    }
}

} // verus!
