//! The observable laws of dispatching, stated over the mathematical model
//! of the state tree and proved once and for all. The general
//! first-match-wins law lives beside the traversal in [`crate::engine`]
//! (`lemma_first_match_wins`, `lemma_step_no_change`); this module derives
//! the laws that speak of particular tree shapes or of repeated dispatches.

use vstd::prelude::*;

use crate::engine::{
    any_changes,
    changes,
    lemma_step_no_change,
    step,
    step_regions,
    StateModel,
    States,
};

verus! {

/// The tree after `times` dispatches of the same event.
pub open spec fn step_many<St: States>(
    m: StateModel<St>,
    ev: St::Events,
    ex: St::Extended,
    times: nat,
) -> StateModel<St>
    decreases times,
{
    if times == 0 {
        m
    } else {
        step_many(step(m, ev, ex), ev, ex, (times - 1) as nat)
    }
}

/// Deterministic single-region transition: a composite leaf in state `a`
/// whose transition function maps `(a, ev)` to `b` steps to exactly the
/// leaf `b` and reports a change. The result depends only on the current
/// leaf, the event and the context, so it is the same no matter how many
/// transitions the machine has made before.
pub proof fn lemma_composite_transition<St: States>(a: St, b: St, ev: St::Events, ex: St::Extended)
    requires
        a.next_spec(ev, ex) == Some(b),
    ensures
        changes(StateModel::Leaf(a), ev, ex),
        step(StateModel::Leaf(a), ev, ex) == StateModel::Leaf(b),
{
}

/// Orthogonal short-circuit: when both regions of a two-region parallel
/// node would transition on the event, only the first one does; the second
/// stays in its prior state.
pub proof fn lemma_orthogonal_short_circuit<St: States>(
    r0: StateModel<St>,
    r1: StateModel<St>,
    ev: St::Events,
    ex: St::Extended,
)
    requires
        changes(r0, ev, ex),
        changes(r1, ev, ex),
    ensures
        changes(StateModel::Par(seq![r0, r1]), ev, ex),
        step(StateModel::Par(seq![r0, r1]), ev, ex) == StateModel::Par(
            seq![step(r0, ev, ex), r1],
        ),
{
    let rs = seq![r0, r1];
    assert(rs[0] == r0 && rs[1] == r1);
    assert(step_regions(rs, ev, ex) =~= seq![step(r0, ev, ex), r1]);
}

/// Orthogonal pass-through: when only the second of two regions has a
/// matching transition, the first region absorbs the event unchanged, the
/// second transitions, and the dispatch reports a change.
pub proof fn lemma_orthogonal_pass_through<St: States>(
    r0: StateModel<St>,
    r1: StateModel<St>,
    ev: St::Events,
    ex: St::Extended,
)
    requires
        !changes(r0, ev, ex),
        changes(r1, ev, ex),
    ensures
        changes(StateModel::Par(seq![r0, r1]), ev, ex),
        step(StateModel::Par(seq![r0, r1]), ev, ex) == StateModel::Par(
            seq![r0, step(r1, ev, ex)],
        ),
{
    let rs = seq![r0, r1];
    let tail = rs.subrange(1, 2);
    assert(tail =~= seq![r1]);
    assert(any_changes(tail, ev, ex));
    assert(step_regions(tail, ev, ex) =~= seq![step(r1, ev, ex)]);
    assert(step_regions(rs, ev, ex) =~= seq![r0, step(r1, ev, ex)]);
}

/// No-op on an exhausted path: once the tree has no matching transition for
/// an event, dispatching that event any number of times leaves the tree
/// identical.
pub proof fn lemma_exhausted_path_is_stable<St: States>(
    m: StateModel<St>,
    ev: St::Events,
    ex: St::Extended,
    times: nat,
)
    requires
        !changes(m, ev, ex),
    ensures
        step_many(m, ev, ex, times) == m,
    decreases times,
{
    if times > 0 {
        lemma_step_no_change(m, ev, ex);
        lemma_exhausted_path_is_stable(m, ev, ex, (times - 1) as nat);
    }
}

/// Whether two trees have exactly the same topology: the same variant at
/// every position, with parallel nodes of the same width.
pub open spec fn same_shape<St: States>(a: StateModel<St>, b: StateModel<St>) -> bool
    decreases a,
{
    match a {
        StateModel::Leaf(_) => b is Leaf,
        StateModel::Par(rs) => b matches StateModel::Par(bs) && same_shape_regions(rs, bs),
    }
}

/// Whether two region sequences pair up into same-shaped trees.
pub open spec fn same_shape_regions<St: States>(
    a: Seq<StateModel<St>>,
    b: Seq<StateModel<St>>,
) -> bool
    decreases a,
{
    &&& a.len() == b.len()
    &&& a.len() > 0 ==> same_shape(a[0], b[0]) && same_shape_regions(
        a.subrange(1, a.len() as int),
        b.subrange(1, b.len() as int),
    )
}

/// Every tree has its own shape.
pub proof fn lemma_same_shape_refl<St: States>(m: StateModel<St>)
    ensures
        same_shape(m, m),
    decreases m,
{
    match m {
        StateModel::Leaf(_) => {},
        StateModel::Par(rs) => {
            lemma_same_shape_regions_refl(rs);
        },
    }
}

proof fn lemma_same_shape_regions_refl<St: States>(rs: Seq<StateModel<St>>)
    ensures
        same_shape_regions(rs, rs),
    decreases rs,
{
    if rs.len() > 0 {
        lemma_same_shape_refl(rs[0]);
        lemma_same_shape_regions_refl(rs.subrange(1, rs.len() as int));
    }
}

/// The tree's topology is fixed at construction time: a dispatch only ever
/// replaces the domain values held by composite leaves, never which variant
/// appears where or how many regions a parallel node has.
pub proof fn lemma_topology_is_fixed<St: States>(
    m: StateModel<St>,
    ev: St::Events,
    ex: St::Extended,
)
    ensures
        same_shape(m, step(m, ev, ex)),
    decreases m,
{
    match m {
        StateModel::Leaf(_) => {},
        StateModel::Par(rs) => {
            lemma_topology_regions(rs, ev, ex);
        },
    }
}

proof fn lemma_topology_regions<St: States>(
    rs: Seq<StateModel<St>>,
    ev: St::Events,
    ex: St::Extended,
)
    ensures
        same_shape_regions(rs, step_regions(rs, ev, ex)),
    decreases rs,
{
    if rs.len() > 0 {
        let tail = rs.subrange(1, rs.len() as int);
        if changes(rs[0], ev, ex) {
            lemma_topology_is_fixed(rs[0], ev, ex);
            lemma_same_shape_regions_refl(tail);
            let sr = rs.update(0, step(rs[0], ev, ex));
            assert(sr.subrange(1, sr.len() as int) =~= tail);
        } else {
            lemma_same_shape_refl(rs[0]);
            lemma_topology_regions(tail, ev, ex);
            let sr = seq![rs[0]] + step_regions(tail, ev, ex);
            assert(sr.subrange(1, sr.len() as int) =~= step_regions(tail, ev, ex));
            assert(sr[0] == rs[0]);
        }
    }
}

} // verus!
