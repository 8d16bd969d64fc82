//! What holds of evaluation and assignment taken together.

use vstd::prelude::*;
use crate::lemmas::{
    lemma_assigned, lemma_depends_on_through, lemma_depends_on_transitive, lemma_pulls_shrinks,
    lemma_pulls_target, lemma_same_edges, lemma_same_wiring, lemma_value_agrees,
};
use crate::model::{
    NodeView, Results, acyclic, assigned, caches_sound, depends_on, evaluated, pulls, reads,
    same_wiring, value, with_input,
};

verus! {

/// Evaluating a node a second time, with no assignment in between, gives
/// the same value, gets to no node at all, and leaves the state as it is.
pub proof fn lemma_evaluation_is_memoized(e: Results, s: Seq<NodeView>, n: int)
    requires
        0 <= n < s.len(),
    ensures
        value(e, evaluated(e, s, n), n) == value(e, s, n),
        forall|j: int| !pulls(evaluated(e, s, n), n, j),
        evaluated(e, evaluated(e, s, n), n) == evaluated(e, s, n),
{
    let t = evaluated(e, s, n);
    assert(same_wiring(s, t));
    lemma_same_wiring(e, s, t);
    assert forall|j: int| !pulls(t, n, j) by {
        if pulls(t, n, j) {
            lemma_pulls_target(t, n, j);
            lemma_pulls_shrinks(s, t, n, j);
            lemma_pulls_target(s, n, j);
            assert(pulls(s, n, n));
        }
    }
    assert(evaluated(e, t, n) =~= t);
}

/// After an assignment every node denotes the value it would denote in any
/// graph of the same shapes, whatever that graph remembers, and every value
/// still remembered is the value its node denotes. So evaluating after an
/// assignment gives what a graph built anew around the new scalar gives.
pub proof fn lemma_assignment_invalidates_completely(
    e: Results,
    s: Seq<NodeView>,
    i: int,
    v: u32,
    fresh: Seq<NodeView>,
    n: int,
)
    requires
        caches_sound(e, s),
        0 <= i < s.len(),
        s[i].shape is Input,
        fresh.len() == s.len(),
        forall|k: int|
            0 <= k < s.len() ==> (#[trigger] fresh[k]).shape == with_input(s, i, v)[k].shape,
        0 <= n < s.len(),
    ensures
        caches_sound(e, assigned(s, i, v)),
        value(e, assigned(s, i, v), n) == value(e, fresh, n),
        value(e, evaluated(e, assigned(s, i, v), n), n) == value(e, fresh, n),
{
    let t = assigned(s, i, v);
    lemma_assigned(e, s, i, v);
    lemma_value_agrees(e, t, fresh, n);
    assert(same_wiring(t, evaluated(e, t, n)));
    lemma_same_wiring(e, t, evaluated(e, t, n));
}

/// Assigning the same scalar to an input a second time changes nothing.
pub proof fn lemma_assignment_is_idempotent(s: Seq<NodeView>, i: int, v: u32)
    requires
        0 <= i < s.len(),
        s[i].shape is Input,
    ensures
        assigned(assigned(s, i, v), i, v) == assigned(s, i, v),
{
    let s1 = with_input(s, i, v);
    let t = assigned(s, i, v);
    assert(with_input(t, i, v) =~= t);
    lemma_same_edges(s1, t);
    assert(assigned(t, i, v) =~= t);
}

/// After an assignment to an input, no node that reads a node depending on
/// that input remembers anything: where two nodes share an operand, both
/// are invalidated with it.
pub proof fn lemma_assignment_invalidates_every_reader(
    s: Seq<NodeView>,
    i: int,
    v: u32,
    operand: int,
    reader: int,
)
    requires
        acyclic(s),
        0 <= i < s.len(),
        s[i].shape is Input,
        depends_on(s, operand, i),
        reads(s, reader, operand),
    ensures
        assigned(s, i, v)[reader].cache is None,
{
    let s1 = with_input(s, i, v);
    lemma_same_edges(s, s1);
    assert(depends_on(s, reader, reader));
    lemma_depends_on_through(s, reader, reader, operand);
    lemma_depends_on_transitive(s, reader, operand, i);
}

/// What one evaluation has worked out, no later evaluation works out again:
/// a node that the evaluation of `m` got to is not got to by an evaluation
/// of any node `n` in the state that the first one left. A shared operand
/// is therefore worked out once, however many paths lead to it.
pub proof fn lemma_shared_operand_is_evaluated_once(
    e: Results,
    s: Seq<NodeView>,
    m: int,
    n: int,
    operand: int,
)
    requires
        pulls(s, m, operand),
    ensures
        !pulls(evaluated(e, s, m), n, operand),
{
    let t = evaluated(e, s, m);
    lemma_pulls_target(s, m, operand);
    if pulls(t, n, operand) {
        lemma_pulls_target(t, n, operand);
    }
}

} // verus!
