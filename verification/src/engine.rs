//! The state-transition engine: the polymorphic state abstraction, the
//! recursive traversal that dispatches an event through a possibly nested or
//! parallel state tree, and the machine container that owns the active tree
//! together with the shared extended context.

use vstd::prelude::*;

verus! {

/// The capability a domain state type must offer: given the current state,
/// an incoming event and read-only access to the shared extended context,
/// compute either "no change" (`None`) or the state that replaces the
/// current leaf (`Some`).
///
/// The transition function is pure: `next_spec` is its mathematical
/// description, and every implementation proves that the executable `next`
/// returns exactly `next_spec`.
pub trait States: Sized {
    type Events;

    type Extended;

    /// The mathematical transition function of the domain.
    spec fn next_spec(self, ev: Self::Events, ex: Self::Extended) -> Option<Self>;

    /// The executable transition function; it must agree with `next_spec`
    /// on every `(state, event, context)` triple.
    fn next(&self, ev: &Self::Events, ex: &Self::Extended) -> (r: Option<Self>)
        ensures
            r == self.next_spec(*ev, *ex),
    ;
}

/// A node of the active state tree.
///
/// The tree's shape is fixed at construction time: dispatching events only
/// ever replaces the domain value held by a `Composite` leaf, never the
/// topology.
pub enum State<St> {
    /// A single active leaf: the held domain value knows how to compute its
    /// own successor.
    Composite(St),
    /// A fixed set of sibling subtrees that are all simultaneously active,
    /// visited in declaration order.
    Orthogonal(Vec<State<St>>),
}

/// The mathematical shape of a state tree: the same structure as [`State`],
/// with the regions of a parallel node held as a `Seq`. Contracts and laws
/// are stated over this model.
#[verifier::ext_equal]
pub enum StateModel<St> {
    Leaf(St),
    Par(Seq<StateModel<St>>),
}

/// The model of a state tree.
pub open spec fn model<St: States>(node: State<St>) -> StateModel<St>
    decreases node,
{
    match node {
        State::Composite(st) => StateModel::Leaf(st),
        State::Orthogonal(rs) => StateModel::Par(models(rs@)),
    }
}

/// The models of a sequence of sibling subtrees, in order.
pub open spec fn models<St: States>(rs: Seq<State<St>>) -> Seq<StateModel<St>>
    decreases rs,
{
    if rs.len() == 0 {
        Seq::empty()
    } else {
        seq![model(rs[0])] + models(rs.subrange(1, rs.len() as int))
    }
}

/// Whether dispatching `ev` under context `ex` changes the tree `m`: a leaf
/// changes exactly when its transition function matches, a parallel node
/// exactly when some region changes.
pub open spec fn changes<St: States>(m: StateModel<St>, ev: St::Events, ex: St::Extended) -> bool
    decreases m,
{
    match m {
        StateModel::Leaf(st) => st.next_spec(ev, ex) is Some,
        StateModel::Par(rs) => any_changes(rs, ev, ex),
    }
}

/// Whether some region of `rs` changes on `ev`.
pub open spec fn any_changes<St: States>(
    rs: Seq<StateModel<St>>,
    ev: St::Events,
    ex: St::Extended,
) -> bool
    decreases rs,
{
    rs.len() > 0 && (changes(rs[0], ev, ex) || any_changes(rs.subrange(1, rs.len() as int), ev, ex))
}

/// The index of the first region of `rs` that changes on `ev`, or `rs.len()`
/// if none does.
pub open spec fn first_changed<St: States>(
    rs: Seq<StateModel<St>>,
    ev: St::Events,
    ex: St::Extended,
) -> int
    decreases rs.len(),
{
    if rs.len() == 0 {
        0
    } else if changes(rs[0], ev, ex) {
        0
    } else {
        1 + first_changed(rs.subrange(1, rs.len() as int), ev, ex)
    }
}

/// The tree after dispatching `ev` under context `ex` to `m`.
///
/// A leaf whose transition function matches is replaced by the returned
/// state; one with no matching transition silently absorbs the event. In a
/// parallel node the regions are visited in order and only the first region
/// that changes receives the event: the regions before it absorb the event,
/// the regions after it are not visited at all.
pub open spec fn step<St: States>(
    m: StateModel<St>,
    ev: St::Events,
    ex: St::Extended,
) -> StateModel<St>
    decreases m,
{
    match m {
        StateModel::Leaf(st) => match st.next_spec(ev, ex) {
            Some(n) => StateModel::Leaf(n),
            None => m,
        },
        StateModel::Par(rs) => StateModel::Par(step_regions(rs, ev, ex)),
    }
}

/// The regions of a parallel node after dispatching `ev`: the first region
/// that changes is stepped, every other region is left as it is.
pub open spec fn step_regions<St: States>(
    rs: Seq<StateModel<St>>,
    ev: St::Events,
    ex: St::Extended,
) -> Seq<StateModel<St>>
    decreases rs,
{
    if rs.len() == 0 {
        rs
    } else if changes(rs[0], ev, ex) {
        rs.update(0, step(rs[0], ev, ex))
    } else {
        seq![rs[0]] + step_regions(rs.subrange(1, rs.len() as int), ev, ex)
    }
}

/// `models` maps a sequence of subtrees to their models element by element.
pub proof fn lemma_models_index<St: States>(rs: Seq<State<St>>)
    ensures
        models(rs).len() == rs.len(),
        forall|i: int| 0 <= i < rs.len() ==> models(rs)[i] == model(rs[i]),
    decreases rs.len(),
{
    if rs.len() > 0 {
        let tail = rs.subrange(1, rs.len() as int);
        lemma_models_index(tail);
        assert forall|i: int| 0 <= i < rs.len() implies models(rs)[i] == model(rs[i]) by {
            if i > 0 {
                assert(models(rs)[i] == models(tail)[i - 1]);
                assert(tail[i - 1] == rs[i]);
            }
        }
    }
}

/// A region sequence in which no region changes is left untouched.
pub proof fn lemma_step_regions_no_change<St: States>(
    rs: Seq<StateModel<St>>,
    ev: St::Events,
    ex: St::Extended,
)
    requires
        !any_changes(rs, ev, ex),
    ensures
        step_regions(rs, ev, ex) == rs,
    decreases rs.len(),
{
    if rs.len() > 0 {
        let tail = rs.subrange(1, rs.len() as int);
        lemma_step_regions_no_change(tail, ev, ex);
        assert(step_regions(rs, ev, ex) =~= rs);
    }
}

/// Idempotent absorption: an event for which no reachable leaf has a
/// matching transition leaves the whole tree identical.
pub proof fn lemma_step_no_change<St: States>(m: StateModel<St>, ev: St::Events, ex: St::Extended)
    requires
        !changes(m, ev, ex),
    ensures
        step(m, ev, ex) == m,
{
    match m {
        StateModel::Leaf(st) => {},
        StateModel::Par(rs) => {
            lemma_step_regions_no_change(rs, ev, ex);
        },
    }
}

/// A region sequence changes exactly when one of its regions does.
pub proof fn lemma_any_changes_iff_exists<St: States>(
    rs: Seq<StateModel<St>>,
    ev: St::Events,
    ex: St::Extended,
)
    ensures
        any_changes(rs, ev, ex) <==> exists|i: int|
            0 <= i < rs.len() && changes(#[trigger] rs[i], ev, ex),
    decreases rs.len(),
{
    if rs.len() > 0 {
        let tail = rs.subrange(1, rs.len() as int);
        lemma_any_changes_iff_exists(tail, ev, ex);
        if changes(rs[0], ev, ex) {
            assert(0 <= 0 < rs.len() && changes(rs[0], ev, ex));
        } else if any_changes(tail, ev, ex) {
            let i = choose|i: int| 0 <= i < tail.len() && changes(#[trigger] tail[i], ev, ex);
            assert(rs[i + 1] == tail[i]);
            assert(0 <= i + 1 < rs.len() && changes(rs[i + 1], ev, ex));
        } else {
            assert forall|i: int| 0 <= i < rs.len() implies !changes(#[trigger] rs[i], ev, ex) by {
                if i > 0 {
                    assert(rs[i] == tail[i - 1]);
                }
            }
        }
    }
}

/// First-match-wins: among the regions of a parallel node, the first region
/// that changes consumes the event, the regions before it absorb it
/// unchanged, and the regions after it are not visited at all.
pub proof fn lemma_first_match_wins<St: States>(
    rs: Seq<StateModel<St>>,
    ev: St::Events,
    ex: St::Extended,
)
    requires
        any_changes(rs, ev, ex),
    ensures
        ({
            let k = first_changed(rs, ev, ex);
            &&& 0 <= k < rs.len()
            &&& changes(rs[k], ev, ex)
            &&& forall|j: int| 0 <= j < k ==> !changes(#[trigger] rs[j], ev, ex)
            &&& step_regions(rs, ev, ex) == rs.update(k, step(rs[k], ev, ex))
        }),
    decreases rs.len(),
{
    let k = first_changed(rs, ev, ex);
    if changes(rs[0], ev, ex) {
        assert(step_regions(rs, ev, ex) == rs.update(0, step(rs[0], ev, ex)));
    } else {
        let tail = rs.subrange(1, rs.len() as int);
        lemma_first_match_wins(tail, ev, ex);
        let kt = first_changed(tail, ev, ex);
        assert(k == 1 + kt);
        assert(tail[kt] == rs[k]);
        assert forall|j: int| 0 <= j < k implies !changes(#[trigger] rs[j], ev, ex) by {
            if j > 0 {
                assert(rs[j] == tail[j - 1]);
            }
        }
        assert(step_regions(rs, ev, ex) =~= rs.update(k, step(rs[k], ev, ex)));
    }
}

impl<St: States> State<St> {
    /// Dispatch one event through the subtree rooted at `node` and hand the
    /// (possibly changed) subtree back, together with whether it changed.
    ///
    /// A composite leaf asks its domain value for a successor and is
    /// replaced exactly when one is returned. The regions of an orthogonal
    /// node are visited in declaration order and the traversal stops at the
    /// first region that reports a change; later regions do not receive the
    /// event.
    fn advance(node: State<St>, ev: &St::Events, ex: &St::Extended) -> (res: (State<St>, bool))
        ensures
            model(res.0) == step(model(node), *ev, *ex),
            res.1 == changes(model(node), *ev, *ex),
        decreases node,
    {
        match node {
            State::Composite(st) => {
                match st.next(ev, ex) {
                    Some(n) => (State::Composite(n), true),
                    None => (State::Composite(st), false),
                }
            },
            State::Orthogonal(mut rs) => {
                let ghost rs0: Seq<State<St>> = rs@;
                let ghost ms: Seq<StateModel<St>> = models(rs0);
                proof {
                    lemma_models_index(rs0);
                    assert(node is Orthogonal && rs0 == node->Orthogonal_0@);
                }
                let n: usize = rs.len();
                let mut i: usize = 0;
                while i < n
                    invariant
                        0 <= i <= n,
                        n == rs0.len(),
                        rs@.len() == n,
                        ms == models(rs0),
                        ms.len() == n,
                        node is Orthogonal && rs0 == node->Orthogonal_0@,
                        forall|j: int| 0 <= j < n ==> ms[j] == model(#[trigger] rs0[j]),
                        forall|j: int| i <= j < n ==> #[trigger] rs@[j] == rs0[j],
                        forall|j: int| 0 <= j < i ==> model(#[trigger] rs@[j]) == ms[j],
                        forall|j: int| 0 <= j < i ==> !changes(#[trigger] ms[j], *ev, *ex),
                    decreases n - i,
                {
                    let ghost pre: Seq<State<St>> = rs@;
                    let child = rs.remove(i);
                    proof {
                        assert(child == rs0[i as int]);
                        assert(decreases_to!(node => node->Orthogonal_0));
                        assert(decreases_to!(node->Orthogonal_0 => node->Orthogonal_0@));
                        assert(decreases_to!(node->Orthogonal_0@ => node->Orthogonal_0@[i as int]));
                        assert(decreases_to!(node => child));
                    }
                    let (child2, c) = Self::advance(child, ev, ex);
                    rs.insert(i, child2);
                    proof {
                        assert(rs@ =~= pre.update(i as int, child2));
                    }
                    if c {
                        proof {
                            assert(changes(ms[i as int], *ev, *ex));
                            lemma_any_changes_iff_exists(ms, *ev, *ex);
                            lemma_first_match_wins(ms, *ev, *ex);
                            assert(first_changed(ms, *ev, *ex) == i as int);
                            lemma_models_index(rs@);
                            assert(models(rs@) =~= step_regions(ms, *ev, *ex));
                        }
                        return (State::Orthogonal(rs), true);
                    }
                    proof {
                        lemma_step_no_change(ms[i as int], *ev, *ex);
                    }
                    i = i + 1;
                }
                proof {
                    lemma_any_changes_iff_exists(ms, *ev, *ex);
                    lemma_step_regions_no_change(ms, *ev, *ex);
                    lemma_models_index(rs@);
                    assert(models(rs@) =~= ms);
                }
                (State::Orthogonal(rs), false)
            },
        }
    }

    /// Dispatch one event through this subtree, replacing changed leaves in
    /// place, and report whether anything changed.
    pub fn next(&mut self, ev: &St::Events, ex: &St::Extended) -> (changed: bool)
        ensures
            model(*final(self)) == step(model(*old(self)), *ev, *ex),
            changed == changes(model(*old(self)), *ev, *ex),
    {
        let mut taken = State::Orthogonal(Vec::new());
        core::mem::swap(self, &mut taken);
        let (node, changed) = Self::advance(taken, ev, ex);
        *self = node;
        changed
    }
}

/// The machine: owns one state tree and one instance of the shared extended
/// context for its whole lifetime. Its single operation is to dispatch an
/// event into the tree.
pub struct FSM<St: States> {
    /// The root of the active state tree.
    pub state: State<St>,
    /// The domain-specific shared data every transition function may read
    /// during a dispatch; the engine never changes it.
    pub extended: St::Extended,
}

impl<St: States> FSM<St> {
    /// Build a machine from an initial state tree and an initial context.
    pub fn new(state: State<St>, extended: St::Extended) -> (m: FSM<St>)
        ensures
            m.state == state,
            m.extended == extended,
    {
        FSM { state, extended }
    }

    /// Dispatch one event into the machine, replacing changed leaves of the
    /// owned tree in place, and report whether anything changed. The
    /// extended context is never touched.
    pub fn event(&mut self, e: &St::Events) -> (changed: bool)
        ensures
            model(final(self).state) == step(model(old(self).state), *e, old(self).extended),
            changed == changes(model(old(self).state), *e, old(self).extended),
            final(self).extended == old(self).extended,
    {
        self.state.next(e, &self.extended)
    }
}

} // verus!
