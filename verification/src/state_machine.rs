//! Strategies used for abstract state machine testing.
//!
//! A [`Sequential`] strategy first generates an acceptable sequence of
//! transitions, that is, a sequence in which every transition satisfies the
//! model's precondition in the state reached by applying all the transitions
//! before it. The resulting [`SequentialValueTree`] then shrinks the sequence
//! in two phases: it deletes transitions from the back of the list, and once
//! no further deletion replays cleanly it shrinks the individual transitions
//! in place, starting from the front of the list and wrapping around.
//! `complicate()` undoes the most recently committed shrink operation.

use crate::bits::count_ones;
use crate::bits::lemma_count_ones_le_len;
use crate::bits::lemma_count_ones_take_succ;
use crate::bits::lemma_count_ones_update;
use crate::bits::lemma_count_ones_all_true;
use crate::bits::lemma_count_ones_zero;
use crate::bits::VarBitSet;
use crate::observed_vec::ObservedVec;
use core::sync::atomic::AtomicUsize;
use std::sync::Arc;
use vstd::prelude::*;

verus! {

/// A local rejection surfaced by a collaborator: the randomness source's
/// retry budget ran out, or it could not produce a value at all.
#[derive(Clone, Copy, PartialEq, Eq, Structural, Debug)]
pub struct Rejection;

/// The abstract model a generated transition sequence is checked against,
/// together with the collaborators that drive generation and shrinking.
///
/// `State` and `Transition` are plain, copyable domain values. A
/// `TransitionTree` is one slot's transition generator: it holds a current
/// value and can move it toward simpler or back toward more complex values.
/// A `Source` is the randomness (or replay) source that generation draws
/// from; its retry budget is modelled by `source_budget`, which never grows
/// and strictly shrinks on every granted local rejection, so that generation
/// terminates.
pub trait AbstractStateMachine: Sized {
    type State: Copy;

    type Transition: Copy;

    type TransitionTree;

    type Source;

    /// Whether `transition` is acceptable in `state`.
    spec fn precondition_spec(state: Self::State, transition: Self::Transition) -> bool;

    /// The state reached by applying `transition` to `state`.
    spec fn next_spec(state: Self::State, transition: Self::Transition) -> Self::State;

    /// The value a transition generator currently holds.
    spec fn tree_current_spec(tree: Self::TransitionTree) -> Self::Transition;

    /// Retry budget left in the source.
    spec fn source_budget(source: Self::Source) -> nat;

    /// Checks the model's precondition.
    fn preconditions(state: &Self::State, transition: &Self::Transition) -> (accepted: bool)
        ensures
            accepted == Self::precondition_spec(*state, *transition),
    ;

    /// Applies a transition to the model state.
    fn next(state: Self::State, transition: &Self::Transition) -> (updated: Self::State)
        ensures
            updated == Self::next_spec(state, *transition),
    ;

    /// The generator's current transition value.
    fn tree_current(tree: &Self::TransitionTree) -> (transition: Self::Transition)
        ensures
            transition == Self::tree_current_spec(*tree),
    ;

    /// Moves the generator to a simpler value; false means it is exhausted.
    fn tree_simplify(tree: &mut Self::TransitionTree) -> bool;

    /// Moves the generator back toward a more complex value; false means
    /// there is nothing to restore.
    fn tree_complicate(tree: &mut Self::TransitionTree) -> bool;

    /// Produces the initial model state.
    fn init_state(source: &mut Self::Source) -> (r: Result<Self::State, Rejection>)
        ensures
            Self::source_budget(*final(source)) <= Self::source_budget(*old(source)),
    ;

    /// Samples a sequence length; the strategy clamps it into its range.
    fn sample_size(source: &mut Self::Source, lo: usize, hi: usize) -> (n: usize)
        ensures
            Self::source_budget(*final(source)) <= Self::source_budget(*old(source)),
    ;

    /// Produces a fresh transition generator for the given model state.
    fn transitions(source: &mut Self::Source, state: &Self::State) -> (r: Result<
        Self::TransitionTree,
        Rejection,
    >)
        ensures
            Self::source_budget(*final(source)) <= Self::source_budget(*old(source)),
    ;

    /// Signals that a sampled transition failed its precondition. `Ok` grants
    /// a retry and consumes part of the source's retry budget; `Err` turns
    /// the rejection into a generation failure.
    fn reject_local(source: &mut Self::Source) -> (r: Result<(), Rejection>)
        ensures
            Self::source_budget(*final(source)) <= Self::source_budget(*old(source)),
            r is Ok ==> Self::source_budget(*final(source)) < Self::source_budget(*old(source)),
    ;

}

/// A strategy generating sequences of `min_size` to `max_size` accepted
/// transitions of the machine `M`.
pub fn sequential_strategy<M: AbstractStateMachine>(min_size: usize, max_size: usize) -> (s:
    Sequential<M>)
    requires
        1 <= min_size <= max_size,
    ensures
        s.wf(),
        s.min_spec() == min_size,
        s.max_spec() == max_size,
{
    Sequential { min_size, max_size, _machine: core::marker::PhantomData }
}

/// Replaying `transitions` from `state` satisfies the precondition at every
/// step.
pub open spec fn replay_ok<M: AbstractStateMachine>(
    state: M::State,
    transitions: Seq<M::Transition>,
) -> bool
    decreases transitions.len(),
{
    transitions.len() == 0 || (M::precondition_spec(state, transitions[0]) && replay_ok::<M>(
        M::next_spec(state, transitions[0]),
        transitions.skip(1),
    ))
}

/// The model state reached by applying all of `transitions` from `state`.
pub open spec fn replay_state<M: AbstractStateMachine>(
    state: M::State,
    transitions: Seq<M::Transition>,
) -> M::State
    decreases transitions.len(),
{
    if transitions.len() == 0 {
        state
    } else {
        replay_state::<M>(M::next_spec(state, transitions[0]), transitions.skip(1))
    }
}

/// Appending one transition replays cleanly exactly when the prefix does and
/// the new transition is acceptable in the state the prefix reaches.
pub proof fn lemma_replay_push<M: AbstractStateMachine>(
    state: M::State,
    transitions: Seq<M::Transition>,
    transition: M::Transition,
)
    ensures
        replay_ok::<M>(state, transitions.push(transition)) == (replay_ok::<M>(state, transitions)
            && M::precondition_spec(replay_state::<M>(state, transitions), transition)),
        replay_state::<M>(state, transitions.push(transition)) == M::next_spec(
            replay_state::<M>(state, transitions),
            transition,
        ),
    decreases transitions.len(),
{
    if transitions.len() == 0 {
        let p = transitions.push(transition);
        assert(p[0] == transition);
        assert(p.skip(1) =~= Seq::<M::Transition>::empty());
        assert(replay_ok::<M>(state, p) == (M::precondition_spec(state, p[0]) && replay_ok::<M>(
            M::next_spec(state, p[0]),
            p.skip(1),
        )));
        assert(replay_ok::<M>(M::next_spec(state, p[0]), p.skip(1)));
        assert(replay_state::<M>(state, p) == replay_state::<M>(
            M::next_spec(state, p[0]),
            p.skip(1),
        ));
        assert(replay_state::<M>(M::next_spec(state, p[0]), p.skip(1)) == M::next_spec(
            state,
            transition,
        ));
        assert(replay_ok::<M>(state, transitions));
        assert(replay_state::<M>(state, transitions) == state);
    } else {
        let p = transitions.push(transition);
        assert(p[0] == transitions[0]);
        assert(p.skip(1) =~= transitions.skip(1).push(transition));
        lemma_replay_push::<M>(M::next_spec(state, transitions[0]), transitions.skip(1), transition);
        assert(replay_ok::<M>(state, p) == (M::precondition_spec(state, p[0]) && replay_ok::<M>(
            M::next_spec(state, p[0]),
            p.skip(1),
        )));
        assert(replay_ok::<M>(state, transitions) == (M::precondition_spec(state, transitions[0])
            && replay_ok::<M>(M::next_spec(state, transitions[0]), transitions.skip(1))));
        assert(replay_state::<M>(state, p) == replay_state::<M>(
            M::next_spec(state, p[0]),
            p.skip(1),
        ));
        assert(replay_state::<M>(state, transitions) == replay_state::<M>(
            M::next_spec(state, transitions[0]),
            transitions.skip(1),
        ));
    }
}

/// Every prefix of a cleanly replaying sequence replays cleanly.
pub proof fn lemma_replay_take<M: AbstractStateMachine>(
    state: M::State,
    transitions: Seq<M::Transition>,
    n: int,
)
    requires
        0 <= n <= transitions.len(),
        replay_ok::<M>(state, transitions),
    ensures
        replay_ok::<M>(state, transitions.take(n)),
    decreases transitions.len(),
{
    if n == 0 {
        assert(transitions.take(0) =~= Seq::<M::Transition>::empty());
    } else {
        assert(transitions.take(n)[0] == transitions[0]);
        assert(transitions.take(n).skip(1) =~= transitions.skip(1).take(n - 1));
        lemma_replay_take::<M>(M::next_spec(state, transitions[0]), transitions.skip(1), n - 1);
    }
}

/// The ordered subsequence of the first `n` entries of `values` whose index
/// is set in `included`.
pub open spec fn cur_seq<T>(included: Seq<bool>, values: Seq<T>, n: int) -> Seq<T>
    decreases n,
{
    if n <= 0 {
        Seq::empty()
    } else {
        let prefix = cur_seq(included, values, n - 1);
        if included[n - 1] {
            prefix.push(values[n - 1])
        } else {
            prefix
        }
    }
}

pub proof fn lemma_cur_seq_len<T>(included: Seq<bool>, values: Seq<T>, n: int)
    requires
        0 <= n <= included.len(),
    ensures
        cur_seq(included, values, n).len() == count_ones(included.take(n)),
    decreases n,
{
    if n == 0 {
        assert(included.take(0) =~= Seq::<bool>::empty());
    } else {
        lemma_cur_seq_len(included, values, n - 1);
        lemma_count_ones_take_succ(included, n - 1);
    }
}

/// Two inclusion/value pairs that agree on the first `n` included slots
/// select the same subsequence.
pub proof fn lemma_cur_seq_congruent<T>(
    incl1: Seq<bool>,
    vals1: Seq<T>,
    incl2: Seq<bool>,
    vals2: Seq<T>,
    n: int,
)
    requires
        forall|i: int| 0 <= i < n ==> incl1[i] == incl2[i],
        forall|i: int| 0 <= i < n && incl1[i] ==> vals1[i] == vals2[i],
    ensures
        cur_seq(incl1, vals1, n) == cur_seq(incl2, vals2, n),
    decreases n,
{
    if n > 0 {
        lemma_cur_seq_congruent(incl1, vals1, incl2, vals2, n - 1);
    }
}

/// Slots excluded everywhere in `[m, n)` contribute nothing.
pub proof fn lemma_cur_seq_stable_above<T>(included: Seq<bool>, values: Seq<T>, m: int, n: int)
    requires
        0 <= m <= n,
        forall|j: int| m <= j < n ==> !included[j],
    ensures
        cur_seq(included, values, n) == cur_seq(included, values, m),
    decreases n - m,
{
    if n > m {
        lemma_cur_seq_stable_above(included, values, m, n - 1);
    }
}

/// With every slot included, the subsequence is the value prefix itself.
pub proof fn lemma_cur_seq_all_included<T>(included: Seq<bool>, values: Seq<T>, n: int)
    requires
        0 <= n <= values.len(),
        forall|i: int| 0 <= i < n ==> included[i],
    ensures
        cur_seq(included, values, n) == values.take(n),
    decreases n,
{
    if n == 0 {
        assert(values.take(0) =~= Seq::<T>::empty());
    } else {
        lemma_cur_seq_all_included(included, values, n - 1);
        assert(values.take(n) =~= values.take(n - 1).push(values[n - 1]));
    }
}

/// Clearing the highest included slot removes exactly the last element of
/// the selected subsequence.
pub proof fn lemma_cur_seq_drop_highest<T>(included: Seq<bool>, values: Seq<T>, ix: int, n: int)
    requires
        0 <= ix < n <= included.len(),
        included[ix],
        forall|j: int| ix < j < n ==> !included[j],
    ensures
        cur_seq(included, values, n) == cur_seq(included.update(ix, false), values, n).push(
            values[ix],
        ),
{
    lemma_cur_seq_stable_above(included, values, ix + 1, n);
    let cleared = included.update(ix, false);
    assert(forall|j: int| ix <= j < n ==> !cleared[j]) by {
        assert(!cleared[ix]);
        assert(forall|j: int| ix < j < n ==> cleared[j] == included[j]);
    }
    lemma_cur_seq_stable_above(cleared, values, ix, n);
    assert(forall|j: int| 0 <= j < ix ==> cleared[j] == included[j]);
    lemma_cur_seq_congruent(cleared, values, included, values, ix);
}

/// Replacing one slot's entry updates the value and marker projections
/// pointwise.
pub proof fn lemma_slot_update<T>(
    slots: Seq<(TransitionState, T)>,
    ix: int,
    mark: TransitionState,
    value: T,
)
    requires
        0 <= ix < slots.len(),
    ensures
        transition_values(slots.update(ix, (mark, value))) == transition_values(slots).update(
            ix,
            value,
        ),
        transition_marks(slots.update(ix, (mark, value))) == transition_marks(slots).update(
            ix,
            mark,
        ),
{
    assert(transition_values(slots.update(ix, (mark, value))) =~= transition_values(slots).update(
        ix,
        value,
    ));
    assert(transition_marks(slots.update(ix, (mark, value))) =~= transition_marks(slots).update(
        ix,
        mark,
    ));
}

/// The index `d` steps past `base`, wrapping at `n`.
pub open spec fn idx_add(base: int, d: int, n: int) -> int {
    if base + d < n {
        base + d
    } else {
        base + d - n
    }
}

/// The two-phase shrink cursor: first delete transitions from the back of
/// the list, then shrink transitions in place from the front, wrapping
/// around at the end.
#[derive(Clone, Copy, PartialEq, Eq, Structural, Debug)]
pub enum Shrink {
    DeleteTransition(usize),
    ShrinkTransition(usize),
}

/// Life-cycle marker of one slot's cached transition value.
#[derive(Clone, Copy, PartialEq, Eq, Structural, Debug)]
pub enum TransitionState {
    /// The cached value equals the slot generator's current value.
    Current,
    /// The slot was simplified, but the result was rejected by replay.
    SimplifyRejected,
    /// The slot was complicated, but the result was rejected by replay.
    ComplicateRejected,
}

pub open spec fn is_rejected(mark: TransitionState) -> bool {
    match mark {
        TransitionState::Current => false,
        TransitionState::SimplifyRejected => true,
        TransitionState::ComplicateRejected => true,
    }
}

pub open spec fn is_simplify_rejected(mark: TransitionState) -> bool {
    match mark {
        TransitionState::SimplifyRejected => true,
        _ => false,
    }
}

/// The cached transition values of a slot vector.
pub open spec fn transition_values<T>(slots: Seq<(TransitionState, T)>) -> Seq<T> {
    slots.map_values(|slot: (TransitionState, T)| slot.1)
}

/// The life-cycle markers of a slot vector.
pub open spec fn transition_marks<T>(slots: Seq<(TransitionState, T)>) -> Seq<TransitionState> {
    slots.map_values(|slot: (TransitionState, T)| slot.0)
}

/// A strategy for sequences of `min_size` to `max_size` transitions of the
/// state machine `M`, each satisfying `M`'s preconditions along the way.
#[verifier::reject_recursive_types(M)]
pub struct Sequential<M: AbstractStateMachine> {
    min_size: usize,
    max_size: usize,
    _machine: core::marker::PhantomData<M>,
}

impl<M: AbstractStateMachine> Sequential<M> {
    pub closed spec fn min_spec(self) -> int {
        self.min_size as int
    }

    pub closed spec fn max_spec(self) -> int {
        self.max_size as int
    }

    pub closed spec fn wf(self) -> bool {
        1 <= self.min_size <= self.max_size
    }

    /// Generates a fresh value tree: samples a target length from the
    /// configured range, builds the initial model state, then collects
    /// transitions accepted by the preconditions, signalling a local
    /// rejection to the source (which may grant a resample) whenever a
    /// sampled transition is refused.
    #[verifier::loop_isolation(false)]
    pub fn new_tree(&self, source: &mut M::Source) -> (r: Result<
        SequentialValueTree<M>,
        Rejection,
    >)
        requires
            self.wf(),
        ensures
            match r {
                Result::Ok(tree) => tree.wf() && tree.min_len() == self.min_spec()
                    && self.min_spec() <= tree.num_slots() <= self.max_spec() && tree.cur().len()
                    == tree.num_slots() && replay_ok::<M>(tree.init(), tree.cur()) && (forall|
                    i: int,
                |
                    0 <= i < tree.num_slots() ==> tree.incl()[i]) && (forall|i: int|
                    0 <= i < tree.num_slots() ==> tree.shr()[i]) && (forall|i: int|
                    0 <= i < tree.num_slots() ==> tree.marks()[i] == TransitionState::Current)
                    && tree.cursor() == Shrink::DeleteTransition((tree.num_slots() - 1) as usize)
                    && tree.prev_move() == Option::<Shrink>::None,
                Result::Err(_) => true,
            },
    {
        let mut target = M::sample_size(source, self.min_size, self.max_size);
        if target < self.min_size {
            target = self.min_size;
        }
        if target > self.max_size {
            target = self.max_size;
        }
        let initial_state = match M::init_state(source) {
            Result::Ok(s) => s,
            Result::Err(e) => {
                return Result::Err(e);
            },
        };
        let mut state = initial_state;
        let mut transitions: Vec<M::TransitionTree> = Vec::new();
        let mut acceptable_transitions: Vec<(TransitionState, M::Transition)> = Vec::new();
        proof {
            assert(transition_values(acceptable_transitions@) =~= Seq::<M::Transition>::empty());
        }
        while transitions.len() < target
            invariant
                1 <= self.min_size <= target <= self.max_size,
                transitions@.len() == acceptable_transitions@.len(),
                transitions@.len() <= target,
                replay_ok::<M>(initial_state, transition_values(acceptable_transitions@)),
                state == replay_state::<M>(initial_state, transition_values(acceptable_transitions@)),
                forall|i: int|
                    0 <= i < acceptable_transitions@.len() ==> acceptable_transitions@[i].0
                        == TransitionState::Current,
            decreases target - transitions.len(), M::source_budget(*source),
        {
            let tree = match M::transitions(source, &state) {
                Result::Ok(t) => t,
                Result::Err(e) => {
                    return Result::Err(e);
                },
            };
            let transition = M::tree_current(&tree);
            if M::preconditions(&state, &transition) {
                let ghost prev_vals = transition_values(acceptable_transitions@);
                proof {
                    lemma_replay_push::<M>(initial_state, prev_vals, transition);
                }
                state = M::next(state, &transition);
                transitions.push(tree);
                acceptable_transitions.push((TransitionState::Current, transition));
                proof {
                    assert(transition_values(acceptable_transitions@) =~= prev_vals.push(
                        transition,
                    ));
                }
            } else {
                match M::reject_local(source) {
                    Result::Ok(_) => {},
                    Result::Err(e) => {
                        return Result::Err(e);
                    },
                }
            }
        }
        let max_ix = target - 1;
        let included_transitions = VarBitSet::saturated(target);
        let shrinkable_transitions = VarBitSet::saturated(target);
        proof {
            lemma_count_ones_all_true(included_transitions@);
            lemma_cur_seq_all_included(
                included_transitions@,
                transition_values(acceptable_transitions@),
                target as int,
            );
            assert(transition_values(acceptable_transitions@).take(target as int)
                =~= transition_values(acceptable_transitions@));
        }
        let tree = SequentialValueTree {
            initial_state,
            transitions,
            included_transitions,
            shrinkable_transitions,
            acceptable_transitions,
            min_size: self.min_size,
            max_ix,
            shrink: Shrink::DeleteTransition(max_ix),
            prev_shrink: None,
            seen_counter: Arc::new(AtomicUsize::new(0)),
        };
        proof {
            assert(tree.wf());
            tree.lemma_len();
            assert(forall|i: int|
                0 <= i < tree.num_slots() ==> tree.marks()[i]
                    == tree.acceptable_transitions@[i].0);
        }
        Result::Ok(tree)
    }
}

/// The generated value tree for a sequential state machine.
#[verifier::reject_recursive_types(M)]
pub struct SequentialValueTree<M: AbstractStateMachine> {
    initial_state: M::State,
    transitions: Vec<M::TransitionTree>,
    included_transitions: VarBitSet,
    shrinkable_transitions: VarBitSet,
    /// The sequence of included transitions that satisfy the preconditions.
    acceptable_transitions: Vec<(TransitionState, M::Transition)>,
    min_size: usize,
    max_ix: usize,
    shrink: Shrink,
    prev_shrink: Option<Shrink>,
    seen_counter: Arc<AtomicUsize>,
}

impl<M: AbstractStateMachine> SequentialValueTree<M> {
    /// The model state generation started from.
    pub closed spec fn init(self) -> M::State {
        self.initial_state
    }

    /// The fixed number of slots, chosen at generation time.
    pub closed spec fn num_slots(self) -> int {
        self.max_ix + 1
    }

    /// The configured lower bound on the emitted sequence length.
    pub closed spec fn min_len(self) -> int {
        self.min_size as int
    }

    /// Which slots are part of the emitted sequence.
    pub closed spec fn incl(self) -> Seq<bool> {
        self.included_transitions@
    }

    /// Which slots may still be asked to simplify.
    pub closed spec fn shr(self) -> Seq<bool> {
        self.shrinkable_transitions@
    }

    /// The cached acceptable transition value of each slot.
    pub closed spec fn vals(self) -> Seq<M::Transition> {
        transition_values(self.acceptable_transitions@)
    }

    /// The life-cycle marker of each slot.
    pub closed spec fn marks(self) -> Seq<TransitionState> {
        transition_marks(self.acceptable_transitions@)
    }

    /// The value slot `ix`'s generator currently holds.
    pub closed spec fn live(self, ix: int) -> M::Transition {
        M::tree_current_spec(self.transitions@[ix])
    }

    pub closed spec fn cursor(self) -> Shrink {
        self.shrink
    }

    /// The most recently committed shrink move, if it can still be undone.
    pub closed spec fn prev_move(self) -> Option<Shrink> {
        self.prev_shrink
    }

    /// The candidate `current()` serves: the included cached values in slot
    /// order.
    pub open spec fn cur(self) -> Seq<M::Transition> {
        cur_seq(self.incl(), self.vals(), self.num_slots())
    }

    /// The candidate with slot `ix`'s cached value replaced by its
    /// generator's live value.
    pub open spec fn cur_override(self, ix: int) -> Seq<M::Transition> {
        cur_seq(self.incl(), self.vals().update(ix, self.live(ix)), self.num_slots())
    }

    /// The candidate selected by an optional override index.
    pub open spec fn cur_sel(self, ov: Option<usize>) -> Seq<M::Transition> {
        match ov {
            Option::None => self.cur(),
            Option::Some(ix) => self.cur_override(ix as int),
        }
    }

    /// Dimensional well-formedness: field widths agree with the slot count
    /// and cursor indices are in range.
    pub closed spec fn wf_dims(self) -> bool {
        &&& self.max_ix < usize::MAX
        &&& self.transitions@.len() == self.num_slots()
        &&& self.acceptable_transitions@.len() == self.num_slots()
        &&& self.incl().len() == self.num_slots()
        &&& self.shr().len() == self.num_slots()
        &&& 1 <= self.min_size
        &&& match self.shrink {
            Shrink::DeleteTransition(ix) => ix <= self.max_ix,
            Shrink::ShrinkTransition(ix) => ix <= self.max_ix,
        }
        &&& match self.prev_shrink {
            Option::None => true,
            Option::Some(Shrink::DeleteTransition(ix)) => ix <= self.max_ix,
            Option::Some(Shrink::ShrinkTransition(ix)) => ix <= self.max_ix,
        }
    }

    /// Structural well-formedness: the dimensions above, an inclusion count
    /// that respects `min_size`, and shrinkable slots all included.
    pub closed spec fn wf_shape(self) -> bool {
        &&& self.wf_dims()
        &&& self.min_size as int <= count_ones(self.incl())
        &&& forall|i: int| 0 <= i < self.num_slots() && self.shr()[i] ==> self.incl()[i]
    }

    /// Full well-formedness: the shape above, a cleanly replaying candidate,
    /// and, for an undoable deletion, a cleanly replaying restored candidate.
    pub closed spec fn wf(self) -> bool {
        &&& self.wf_shape()
        &&& replay_ok::<M>(self.initial_state, self.cur())
        &&& match self.prev_shrink {
            Option::Some(Shrink::DeleteTransition(ix)) => !self.incl()[ix as int] && replay_ok::<
                M,
            >(self.initial_state, cur_seq(self.incl().update(ix as int, true), self.vals(), self.num_slots())),
            _ => true,
        }
    }

    /// Every included slot's marker is a rejection.
    pub open spec fn all_rejected_spec(self) -> bool {
        forall|i: int|
            0 <= i < self.num_slots() && self.incl()[i] ==> is_rejected(self.marks()[i])
    }

    /// Scanning from `start` with wraparound, the slot `d` steps along is
    /// included and its live generator value replays cleanly, while no
    /// earlier step's slot does: the rotation search adopts exactly this one.
    pub open spec fn first_rotation_hit(self, start: int, d: int) -> bool {
        &&& self.incl()[idx_add(start, d, self.num_slots())]
        &&& replay_ok::<M>(self.init(), self.cur_override(idx_add(start, d, self.num_slots())))
        &&& forall|e: int|
            0 <= e < d ==> !(self.incl()[idx_add(start, e, self.num_slots())] && replay_ok::<M>(
                self.init(),
                self.cur_override(idx_add(start, e, self.num_slots())),
            ))
    }

    /// No included slot's live generator value yields a cleanly replaying
    /// candidate: the wraparound rotation search must fail.
    pub open spec fn rotation_hopeless(self) -> bool {
        forall|j: int|
            0 <= j < self.num_slots() && self.incl()[j] ==> !replay_ok::<M>(
                self.init(),
                self.cur_override(j),
            )
    }

    /// Slot `i` is passed over by the shrink phase: excluded, already
    /// rejected for simplification, or no longer shrinkable.
    pub open spec fn skipped_slot(self, i: int) -> bool {
        !self.incl()[i] || is_simplify_rejected(self.marks()[i]) || !self.shr()[i]
    }

    /// Every slot is passed over by the shrink phase.
    pub open spec fn shrink_blocked(self) -> bool {
        forall|i: int| 0 <= i < self.num_slots() ==> self.skipped_slot(i)
    }

    /// How many slots have not been rejected for simplification; the shrink
    /// search's progress measure.
    pub open spec fn unrejected_count(self) -> nat {
        count_ones(self.marks().map_values(|m: TransitionState| !is_simplify_rejected(m)))
    }

    /// The shrink search is out of moves: `simplify()` returns false and
    /// leaves the tree as it is (unless fresh consumption feedback first
    /// drops an unobserved tail).
    pub open spec fn exhausted(self) -> bool {
        if self.all_rejected_spec() {
            match self.prev_move() {
                Option::Some(Shrink::ShrinkTransition(_)) => self.rotation_hopeless(),
                _ => true,
            }
        } else {
            (match self.cursor() {
                Shrink::ShrinkTransition(_) => true,
                Shrink::DeleteTransition(_) => false,
            }) && self.shrink_blocked()
        }
    }

    /// A committed tail deletion of slot `ix`, relative to the tree `prior`
    /// the call started from: the slot left both bitsets, the deletion is
    /// recorded as undoable, and the cursor moved down or into the shrink
    /// phase. Markers may additionally have moved to `SimplifyRejected`.
    pub open spec fn delete_move(self, prior: Self, ix: int) -> bool {
        &&& 0 <= ix < prior.num_slots()
        &&& prior.incl()[ix]
        &&& self.incl() == prior.incl().update(ix, false)
        &&& self.vals() == prior.vals()
        &&& !self.shr()[ix]
        &&& forall|j: int| 0 <= j < prior.num_slots() && self.shr()[j] ==> prior.shr()[j]
        &&& forall|j: int|
            0 <= j < prior.num_slots() ==> (self.marks()[j] == prior.marks()[j] || self.marks()[j]
                == TransitionState::SimplifyRejected)
        &&& self.prev_move() == Option::Some(Shrink::DeleteTransition(ix as usize))
        &&& self.cursor() == (if ix == 0 {
            Shrink::ShrinkTransition(0usize)
        } else {
            Shrink::DeleteTransition((ix - 1) as usize)
        })
    }

    /// A committed in-place shrink of slot `ix`: the slot's freshly
    /// simplified, replay-validated generator value was adopted as the cached
    /// value and marked `Current`; the move is recorded as undoable. Other
    /// markers may have moved to `SimplifyRejected` along the way, and
    /// exhausted generators may have left the shrinkable set.
    pub open spec fn shrink_move(self, prior: Self, ix: int) -> bool {
        &&& 0 <= ix < prior.num_slots()
        &&& prior.incl()[ix]
        &&& self.incl() == prior.incl()
        &&& self.vals() == prior.vals().update(ix, self.live(ix))
        &&& self.marks()[ix] == TransitionState::Current
        &&& forall|j: int|
            0 <= j < prior.num_slots() && j != ix ==> (self.marks()[j] == prior.marks()[j]
                || self.marks()[j] == TransitionState::SimplifyRejected)
        &&& forall|j: int| 0 <= j < prior.num_slots() && self.shr()[j] ==> prior.shr()[j]
        &&& self.prev_move() == Option::Some(Shrink::ShrinkTransition(ix as usize))
    }

    /// An adoption by the wraparound rotation search: slot `ix`'s live
    /// generator value replays cleanly and became the cached `Current` value;
    /// the remembered in-place shrink move is kept.
    pub open spec fn rotation_move(self, prior: Self, ix: int) -> bool {
        &&& 0 <= ix < prior.num_slots()
        &&& prior.incl()[ix]
        &&& self.incl() == prior.incl()
        &&& self.vals() == prior.vals().update(ix, self.live(ix))
        &&& self.marks()[ix] == TransitionState::Current
        &&& forall|j: int|
            0 <= j < prior.num_slots() && j != ix ==> (self.marks()[j] == prior.marks()[j]
                || self.marks()[j] == TransitionState::SimplifyRejected)
        &&& forall|j: int| 0 <= j < prior.num_slots() && self.shr()[j] ==> prior.shr()[j]
        &&& match self.prev_move() {
            Option::Some(Shrink::ShrinkTransition(_)) => true,
            _ => false,
        }
    }

    /// A tail drop driven by the observed consumption count: the emitted
    /// sequence became a strictly shorter prefix of the prior one, no cached
    /// value or marker changed, and the lowest dropped slot is the remembered
    /// deletion.
    pub open spec fn feedback_move(self, prior: Self) -> bool {
        &&& self.vals() == prior.vals()
        &&& self.marks() == prior.marks()
        &&& forall|j: int| 0 <= j < prior.num_slots() && self.shr()[j] ==> prior.shr()[j]
        &&& self.cur().len() < prior.cur().len()
        &&& self.cur() == prior.cur().take(self.cur().len() as int)
        &&& match self.prev_move() {
            Option::Some(Shrink::DeleteTransition(p)) => p < prior.num_slots()
                && prior.incl()[p as int] && !self.incl()[p as int],
            _ => false,
        }
    }

    /// What a successful `simplify()` did: exactly one committed move of the
    /// search, relative to the tree `prior` that the call started from.
    pub open spec fn simplify_step(self, prior: Self) -> bool {
        ||| self.feedback_move(prior)
        ||| exists|ix: int| self.delete_move(prior, ix)
        ||| exists|ix: int| self.shrink_move(prior, ix)
        ||| exists|ix: int| self.rotation_move(prior, ix)
    }

    /// The current included acceptable transitions. When `ix` is not `None`,
    /// the transition at this index is taken from its generator's current
    /// value instead of its cached acceptable value.
    pub fn current_at(&self, ix: Option<usize>) -> (r: Vec<M::Transition>)
        requires
            self.wf_dims(),
            match ix {
                Option::None => true,
                Option::Some(j) => j < self.num_slots(),
            },
        ensures
            r@ == self.cur_sel(ix),
    {
        let ghost evals = match ix {
            Option::None => self.vals(),
            Option::Some(j) => self.vals().update(j as int, self.live(j as int)),
        };
        let n = self.max_ix + 1;
        let mut out: Vec<M::Transition> = Vec::new();
        let mut i: usize = 0;
        while i < n
            invariant
                i <= n,
                n == self.num_slots(),
                self.wf_dims(),
                match ix {
                    Option::None => evals == self.vals(),
                    Option::Some(j) => j < self.num_slots() && evals == self.vals().update(
                        j as int,
                        self.live(j as int),
                    ),
                },
                out@ == cur_seq(self.incl(), evals, i as int),
            decreases n - i,
        {
            if self.included_transitions.test(i) {
                let v = match ix {
                    Option::Some(j) if i == j => M::tree_current(&self.transitions[i]),
                    _ => self.acceptable_transitions[i].1,
                };
                proof {
                    assert(self.vals()[i as int] == self.acceptable_transitions@[i as int].1);
                    assert(v == evals[i as int]);
                }
                out.push(v);
            }
            i = i + 1;
        }
        out
    }

    /// Find if all the simplifications and complications of the included
    /// transitions have been rejected.
    pub fn all_rejected(&self) -> (b: bool)
        requires
            self.wf_shape(),
        ensures
            b == self.all_rejected_spec(),
    {
        let n = self.max_ix + 1;
        let mut i: usize = 0;
        while i < n
            invariant
                i <= n,
                n == self.num_slots(),
                self.wf_dims(),
                forall|j: int|
                    0 <= j < i && self.incl()[j] ==> is_rejected(self.marks()[j]),
            decreases n - i,
        {
            if self.included_transitions.test(i) {
                let rejected = match self.acceptable_transitions[i].0 {
                    TransitionState::Current => false,
                    TransitionState::SimplifyRejected => true,
                    TransitionState::ComplicateRejected => true,
                };
                proof {
                    assert(self.marks()[i as int] == self.acceptable_transitions@[i as int].0);
                }
                if !rejected {
                    return false;
                }
            }
            i = i + 1;
        }
        true
    }

    /// Find the next shrink transition. Loops back to the front of the list
    /// when the end is reached.
    pub fn next_shrink_transition(&self, current_ix: usize) -> (s: Shrink)
        requires
            self.wf_shape(),
            current_ix < self.num_slots(),
        ensures
            s == (if current_ix + 1 == self.num_slots() {
                Shrink::ShrinkTransition(0usize)
            } else {
                Shrink::ShrinkTransition((current_ix + 1) as usize)
            }),
    {
        if current_ix == self.max_ix {
            Shrink::ShrinkTransition(0)
        } else {
            Shrink::ShrinkTransition(current_ix + 1)
        }
    }

    /// Check if the sequence of included acceptable transitions replays
    /// cleanly from the initial state. When `ix` is not `None`, the
    /// transition at the given index is taken from its generator's current
    /// value.
    pub fn check_acceptable(&self, ix: Option<usize>) -> (b: bool)
        requires
            self.wf_dims(),
            match ix {
                Option::None => true,
                Option::Some(j) => j < self.num_slots(),
            },
        ensures
            b == replay_ok::<M>(self.init(), self.cur_sel(ix)),
    {
        let transitions = self.current_at(ix);
        let ghost full = transitions@;
        let len = transitions.len();
        let mut state = self.initial_state;
        let mut k: usize = 0;
        proof {
            assert(full.skip(0) =~= full);
        }
        while k < len
            invariant
                k <= len,
                len == full.len(),
                transitions@ == full,
                full == self.cur_sel(ix),
                replay_ok::<M>(self.init(), self.cur_sel(ix)) == replay_ok::<M>(
                    state,
                    full.skip(k as int),
                ),
            decreases len - k,
        {
            let transition = transitions[k];
            proof {
                assert(full.skip(k as int)[0] == full[k as int]);
                assert(full.skip(k as int).skip(1) =~= full.skip(k as int + 1));
                assert(replay_ok::<M>(state, full.skip(k as int)) == (M::precondition_spec(
                    state,
                    full[k as int],
                ) && replay_ok::<M>(
                    M::next_spec(state, full[k as int]),
                    full.skip(k as int + 1),
                )));
            }
            if M::preconditions(&state, &transition) {
                state = M::next(state, &transition);
            } else {
                return false;
            }
            k = k + 1;
        }
        proof {
            assert(full.skip(len as int) =~= Seq::<M::Transition>::empty());
        }
        true
    }

    /// The current best candidate: the included acceptable transitions, in
    /// slot order, wrapped with the shared consumption counter.
    pub fn current(&self) -> (r: ObservedVec<M::Transition>)
        requires
            self.wf(),
        ensures
            r@ == self.cur(),
            replay_ok::<M>(self.init(), r@),
            self.min_len() <= r@.len() <= self.num_slots(),
    {
        proof {
            lemma_cur_seq_len(self.incl(), self.vals(), self.num_slots());
            assert(self.incl().take(self.num_slots()) =~= self.incl());
            lemma_count_ones_le_len(self.incl());
        }
        let transitions = self.current_at(None);
        ObservedVec::new(self.seen_counter.clone(), transitions)
    }

    /// A well-formed tree is structurally well-formed and dimensioned:
    /// callers holding `wf()` from a constructor or a mutating call may use
    /// it to meet the requirements of the read-only methods.
    pub proof fn lemma_wf_implies_shape(self)
        requires
            self.wf(),
        ensures
            self.wf_shape(),
            self.wf_dims(),
    {
    }

    proof fn lemma_len(self)
        requires
            self.wf_shape(),
        ensures
            self.cur().len() == count_ones(self.incl()),
            self.min_len() <= self.cur().len() <= self.num_slots(),
    {
        lemma_cur_seq_len(self.incl(), self.vals(), self.num_slots());
        assert(self.incl().take(self.num_slots()) =~= self.incl());
        lemma_count_ones_le_len(self.incl());
    }

    /// Find if there's any included transition whose generator's current
    /// value yields a cleanly replaying candidate, scanning from the given
    /// index and wrapping around. The first hit is adopted as the new cached
    /// value. Expected to be called once all the included transitions are
    /// rejected, to restart the search from a different acceptable point.
    #[verifier::loop_isolation(false)]
    pub fn try_to_find_acceptable(&mut self, ix: usize) -> (b: bool)
        requires
            old(self).wf(),
            ix < old(self).num_slots(),
            match old(self).prev_move() {
                Option::Some(Shrink::DeleteTransition(_)) => false,
                _ => true,
            },
        ensures
            final(self).wf(),
            final(self).num_slots() == old(self).num_slots(),
            final(self).min_len() == old(self).min_len(),
            final(self).init() == old(self).init(),
            final(self).incl() == old(self).incl(),
            final(self).shr() == old(self).shr(),
            final(self).cursor() == old(self).cursor(),
            final(self).prev_move() == old(self).prev_move(),
            final(self).cur().len() == old(self).cur().len(),
            b == !old(self).rotation_hopeless(),
            !b ==> *final(self) == *old(self),
            forall|j: int| 0 <= j < old(self).num_slots() ==> final(self).live(j) == old(
                self,
            ).live(j),
            b ==> exists|d: int|
                {
                    &&& 0 <= d < old(self).num_slots()
                    &&& #[trigger] old(self).first_rotation_hit(ix as int, d)
                    &&& final(self).vals() == old(self).vals().update(
                        idx_add(ix as int, d, old(self).num_slots()),
                        old(self).live(idx_add(ix as int, d, old(self).num_slots())),
                    )
                    &&& final(self).marks() == old(self).marks().update(
                        idx_add(ix as int, d, old(self).num_slots()),
                        TransitionState::Current,
                    )
                    &&& final(self).cur() == old(self).cur_override(
                        idx_add(ix as int, d, old(self).num_slots()),
                    )
                },
            replay_ok::<M>(final(self).init(), final(self).cur()),
    {
        let n = self.max_ix + 1;
        let mut ix_to_check = ix;
        let ghost mut d: int = 0;
        loop
            invariant
                self == old(self),
                self.wf(),
                n == self.num_slots(),
                ix < n,
                ix_to_check < n,
                0 <= d < n,
                ix_to_check as int == idx_add(ix as int, d, n as int),
                forall|e: int|
                    0 <= e < d ==> !(self.incl()[idx_add(ix as int, e, n as int)] && replay_ok::<
                    M,
                    >(self.init(), self.cur_override(idx_add(ix as int, e, n as int)))),
            decreases n - d,
        {
            if self.included_transitions.test(ix_to_check) && self.check_acceptable(
                Some(ix_to_check),
            ) {
                let ghost pre = *self;
                let v = M::tree_current(&self.transitions[ix_to_check]);
                self.acceptable_transitions[ix_to_check] = (TransitionState::Current, v);
                proof {
                    lemma_slot_update(
                        pre.acceptable_transitions@,
                        ix_to_check as int,
                        TransitionState::Current,
                        v,
                    );
                    assert(self.cur() == pre.cur_override(ix_to_check as int));
                    pre.lemma_len();
                    self.lemma_len();
                    assert(self.wf());
                    assert(pre.first_rotation_hit(ix as int, d));
                }
                return true;
            }
            proof {
                assert(!(self.incl()[idx_add(ix as int, d, n as int)] && replay_ok::<M>(
                    self.init(),
                    self.cur_override(idx_add(ix as int, d, n as int)),
                )));
                d = d + 1;
            }
            if ix_to_check == self.max_ix {
                ix_to_check = 0;
            } else {
                ix_to_check = ix_to_check + 1;
            }
            if ix_to_check == ix {
                proof {
                    assert(d == n);
                    assert forall|j: int| 0 <= j < n && self.incl()[j] implies !replay_ok::<M>(
                        self.init(),
                        self.cur_override(j),
                    ) by {
                        if j >= ix {
                            assert(idx_add(ix as int, j - ix, n as int) == j);
                            assert(!(self.incl()[idx_add(ix as int, j - ix, n as int)]
                                && replay_ok::<M>(
                                self.init(),
                                self.cur_override(idx_add(ix as int, j - ix, n as int)),
                            )));
                        } else {
                            assert(idx_add(ix as int, j - ix + n, n as int) == j);
                            assert(!(self.incl()[idx_add(ix as int, j - ix + n, n as int)]
                                && replay_ok::<M>(
                                self.init(),
                                self.cur_override(idx_add(ix as int, j - ix + n, n as int)),
                            )));
                        }
                    }
                    assert(self.rotation_hopeless());
                }
                return false;
            }
            proof {
                assert(d < n);
            }
        }
    }

    /// Undoes the most recently committed shrink move, or returns false if
    /// there is nothing to undo. Undoing a deletion restores the slot to the
    /// emitted sequence in one shot; undoing an in-place shrink asks the
    /// slot's generator for a less simplified value and re-validates it by
    /// replay before adopting it.
    pub fn complicate(&mut self) -> (b: bool)
        requires
            old(self).wf(),
        ensures
            final(self).wf(),
            final(self).num_slots() == old(self).num_slots(),
            final(self).min_len() == old(self).min_len(),
            final(self).init() == old(self).init(),
            replay_ok::<M>(final(self).init(), final(self).cur()),
            final(self).min_len() <= final(self).cur().len() <= final(self).num_slots(),
            match old(self).prev_move() {
                Option::None => !b && *final(self) == *old(self),
                Option::Some(Shrink::DeleteTransition(ix)) => {
                    &&& b
                    &&& final(self).incl() == old(self).incl().update(ix as int, true)
                    &&& final(self).shr() == old(self).shr().update(ix as int, true)
                    &&& final(self).vals() == old(self).vals()
                    &&& final(self).marks() == old(self).marks()
                    &&& final(self).cursor() == old(self).cursor()
                    &&& final(self).cur() == cur_seq(
                        old(self).incl().update(ix as int, true),
                        old(self).vals(),
                        old(self).num_slots(),
                    )
                    &&& final(self).cur().len() == old(self).cur().len() + 1
                    &&& final(self).prev_move() == Option::<Shrink>::None
                },
                Option::Some(Shrink::ShrinkTransition(ix)) => {
                    &&& final(self).incl() == old(self).incl()
                    &&& final(self).shr() == old(self).shr()
                    &&& final(self).cursor() == old(self).cursor()
                    &&& final(self).cur().len() == old(self).cur().len()
                    &&& b ==> {
                        &&& final(self).vals() == old(self).vals().update(
                            ix as int,
                            final(self).live(ix as int),
                        )
                        &&& final(self).marks() == old(self).marks().update(
                            ix as int,
                            TransitionState::Current,
                        )
                        &&& final(self).prev_move() == old(self).prev_move()
                    }
                    &&& !b ==> {
                        &&& final(self).cur() == old(self).cur()
                        &&& final(self).vals() == old(self).vals()
                        &&& final(self).prev_move() == Option::<Shrink>::None
                        &&& (final(self).marks() == old(self).marks() || (final(self).marks()
                            == old(self).marks().update(
                            ix as int,
                            TransitionState::ComplicateRejected,
                        ) && !replay_ok::<M>(
                            final(self).init(),
                            final(self).cur_override(ix as int),
                        )))
                    }
                },
            },
    {
        proof {
            old(self).lemma_len();
        }
        match self.prev_shrink {
            Option::None => false,
            Option::Some(Shrink::DeleteTransition(ix)) => {
                let ghost pre = *self;
                self.included_transitions.set(ix);
                self.shrinkable_transitions.set(ix);
                self.prev_shrink = None;
                proof {
                    lemma_count_ones_update(pre.incl(), ix as int, true);
                    self.lemma_len();
                    assert(forall|i: int|
                        0 <= i < self.num_slots() && self.shr()[i] ==> self.incl()[i]);
                }
                true
            },
            Option::Some(Shrink::ShrinkTransition(ix)) => {
                if M::tree_complicate(&mut self.transitions[ix]) {
                    proof {
                        self.lemma_len();
                    }
                    if self.check_acceptable(Some(ix)) {
                        let ghost pre = *self;
                        let v = M::tree_current(&self.transitions[ix]);
                        self.acceptable_transitions[ix] = (TransitionState::Current, v);
                        proof {
                            lemma_slot_update(
                                pre.acceptable_transitions@,
                                ix as int,
                                TransitionState::Current,
                                v,
                            );
                            assert(self.cur() == pre.cur_override(ix as int));
                            pre.lemma_len();
                            self.lemma_len();
                        }
                        return true;
                    }
                    let ghost pre = *self;
                    let cached = self.acceptable_transitions[ix].1;
                    self.acceptable_transitions[ix] = (
                        TransitionState::ComplicateRejected,
                        cached,
                    );
                    proof {
                        lemma_slot_update(
                            pre.acceptable_transitions@,
                            ix as int,
                            TransitionState::ComplicateRejected,
                            cached,
                        );
                        assert(self.vals() =~= pre.vals());
                        assert(self.vals().update(ix as int, self.live(ix as int))
                            == pre.vals().update(ix as int, pre.live(ix as int)));
                        assert(self.cur_override(ix as int) == pre.cur_override(ix as int));
                        assert(self.marks() == pre.marks().update(
                            ix as int,
                            TransitionState::ComplicateRejected,
                        ));
                    }
                }
                self.prev_shrink = None;
                proof {
                    self.lemma_len();
                }
                false
            },
        }
    }

    /// The delete phase: starting at the cursor, speculatively remove one
    /// transition from the back of the list and keep the removal only if the
    /// reduced sequence still replays cleanly. Returns true on a committed
    /// deletion; false once the cursor has moved on to the shrink phase.
    #[verifier::loop_isolation(false)]
    fn step_delete(&mut self) -> (committed: bool)
        requires
            old(self).wf(),
        ensures
            final(self).wf(),
            final(self).num_slots() == old(self).num_slots(),
            final(self).min_len() == old(self).min_len(),
            final(self).init() == old(self).init(),
            final(self).cur().len() <= old(self).cur().len(),
            !committed ==> (match final(self).cursor() {
                Shrink::ShrinkTransition(_) => true,
                Shrink::DeleteTransition(_) => false,
            }) && final(self).cur() == old(self).cur() && final(self).incl() == old(self).incl()
                && final(self).shr() == old(self).shr() && final(self).transitions == old(
                self,
            ).transitions && final(self).acceptable_transitions == old(self).acceptable_transitions
                && final(self).seen_counter == old(self).seen_counter,
            (match old(self).cursor() {
                Shrink::ShrinkTransition(_) => true,
                Shrink::DeleteTransition(_) => false,
            }) ==> !committed && *final(self) == *old(self),
            committed ==> exists|ix: int| final(self).delete_move(*old(self), ix),
            old(self).cur().len() == old(self).min_len() ==> !committed,
            (match old(self).cursor() {
                Shrink::DeleteTransition(d) => d + 1 == old(self).num_slots(),
                Shrink::ShrinkTransition(_) => false,
            }) && old(self).incl()[old(self).num_slots() - 1] && old(self).min_len() < old(
                self,
            ).cur().len() ==> committed && final(self).delete_move(
                *old(self),
                old(self).num_slots() - 1,
            ),
    {
        proof {
            old(self).lemma_len();
        }
        let ghost forced = (match old(self).cursor() {
            Shrink::DeleteTransition(d) => d + 1 == old(self).num_slots(),
            Shrink::ShrinkTransition(_) => false,
        }) && old(self).incl()[old(self).num_slots() - 1] && old(self).min_len() < old(
            self,
        ).cur().len();
        let start_ix = match self.shrink {
            Shrink::DeleteTransition(i) => i,
            Shrink::ShrinkTransition(_) => {
                return false;
            },
        };
        let mut dix = start_ix;
        loop
            invariant
                dix <= self.max_ix,
                self.wf(),
                self.shrink == Shrink::DeleteTransition(dix),
                forced ==> dix as int == old(self).num_slots() - 1,
                self.initial_state == old(self).initial_state,
                self.transitions == old(self).transitions,
                self.acceptable_transitions == old(self).acceptable_transitions,
                self.min_size == old(self).min_size,
                self.max_ix == old(self).max_ix,
                self.included_transitions@ == old(self).included_transitions@,
                self.shrinkable_transitions@ == old(self).shrinkable_transitions@,
                self.seen_counter == old(self).seen_counter,
            decreases dix,
        {
            if self.included_transitions.count() == self.min_size {
                // Deleting any further would drop below the configured
                // minimum: move on to shrinking in place.
                proof {
                    assert(!forced);
                }
                self.shrink = Shrink::ShrinkTransition(0);
                return false;
            }
            if !self.included_transitions.test(dix) {
                // The slot was already dropped by the observed-count
                // feedback: move past it.
                if dix == 0 {
                    self.shrink = Shrink::ShrinkTransition(0);
                    return false;
                }
                dix = dix - 1;
                self.shrink = Shrink::DeleteTransition(dix);
            } else {
                let ghost pre = *self;
                self.included_transitions.clear(dix);
                self.prev_shrink = Some(Shrink::DeleteTransition(dix));
                self.shrink = if dix == 0 {
                    Shrink::ShrinkTransition(0)
                } else {
                    Shrink::DeleteTransition(dix - 1)
                };
                proof {
                    lemma_count_ones_update(pre.incl(), dix as int, false);
                    assert(self.incl().update(dix as int, true) =~= pre.incl());
                    assert(self.wf_dims());
                }
                proof {
                    if forced {
                        lemma_cur_seq_drop_highest(
                            pre.incl(),
                            pre.vals(),
                            dix as int,
                            pre.num_slots(),
                        );
                        assert(pre.cur() == self.cur().push(pre.vals()[dix as int]));
                        assert(self.cur() =~= pre.cur().take(pre.cur().len() - 1));
                        lemma_replay_take::<M>(
                            self.initial_state,
                            pre.cur(),
                            pre.cur().len() - 1,
                        );
                        assert(replay_ok::<M>(self.init(), self.cur_sel(None)));
                    }
                }
                if self.check_acceptable(None) {
                    self.shrinkable_transitions.clear(dix);
                    proof {
                        lemma_count_ones_update(pre.shr(), dix as int, false);
                        pre.lemma_len();
                        lemma_cur_seq_len(self.incl(), self.vals(), self.num_slots());
                        assert(self.incl().take(self.num_slots()) =~= self.incl());
                        assert(self.incl().update(dix as int, true) =~= pre.incl());
                        assert(forall|i: int|
                            0 <= i < self.num_slots() && self.shr()[i] ==> self.incl()[i]);
                        assert(self.wf());
                        if old(self).cur().len() == old(self).min_len() {
                            assert(false);
                        }
                        assert(self.vals() == old(self).vals());
                        assert(self.delete_move(*old(self), dix as int));
                    }
                    return true;
                }
                self.included_transitions.set(dix);
                self.prev_shrink = None;
                proof {
                    assert(!forced);
                    assert(self.included_transitions@ =~= pre.included_transitions@);
                    assert(self.cur() == pre.cur());
                    assert(self.wf());
                }
                if dix == 0 {
                    // The cursor already moved on to the shrink phase.
                    return false;
                }
                dix = dix - 1;
            }
        }
    }

    /// One pass of the two-phase shrink search: try to delete a transition
    /// from the back of the list, then to shrink one in place from the
    /// cursor onward. `Some(b)` is a final answer; `None` means one slot was
    /// marked rejected and the search should be re-entered.
    #[verifier::loop_isolation(false)]
    fn step_shrink(&mut self) -> (r: Option<bool>)
        requires
            old(self).wf(),
            !old(self).all_rejected_spec(),
        ensures
            final(self).wf(),
            final(self).num_slots() == old(self).num_slots(),
            final(self).min_len() == old(self).min_len(),
            final(self).init() == old(self).init(),
            final(self).cur().len() <= old(self).cur().len(),
            r == Option::<bool>::Some(false) ==> final(self).exhausted() && final(self).cur()
                == old(self).cur(),
            r is None ==> final(self).cur() == old(self).cur() && final(self).incl() == old(
                self,
            ).incl() && final(self).vals() == old(self).vals() && final(self).unrejected_count()
                < old(self).unrejected_count() && (match final(self).cursor() {
                Shrink::ShrinkTransition(_) => true,
                Shrink::DeleteTransition(_) => false,
            }) && (forall|j: int|
                0 <= j < old(self).num_slots() ==> (final(self).marks()[j] == old(self).marks()[j]
                    || final(self).marks()[j] == TransitionState::SimplifyRejected)) && (forall|
                j: int,
            |
                0 <= j < old(self).num_slots() && final(self).shr()[j] ==> old(self).shr()[j]),
            old(self).exhausted() ==> r == Option::<bool>::Some(false) && *final(self) == *old(
                self,
            ),
            r == Option::<bool>::Some(true) ==> ((exists|ix: int|
                final(self).delete_move(*old(self), ix)) || (exists|ix: int|
                final(self).shrink_move(*old(self), ix))),
            old(self).cur().len() == old(self).min_len() ==> (match final(self).cursor() {
                Shrink::ShrinkTransition(_) => true,
                Shrink::DeleteTransition(_) => false,
            }),
            (match old(self).cursor() {
                Shrink::DeleteTransition(d) => d + 1 == old(self).num_slots(),
                Shrink::ShrinkTransition(_) => false,
            }) && old(self).incl()[old(self).num_slots() - 1] && old(self).min_len() < old(
                self,
            ).cur().len() ==> r == Option::<bool>::Some(true) && final(self).delete_move(
                *old(self),
                old(self).num_slots() - 1,
            ),
    {
        proof {
            old(self).lemma_len();
        }
        if self.step_delete() {
            return Some(true);
        }
        let s_ix0: usize = match self.shrink {
            Shrink::ShrinkTransition(i) => i,
            Shrink::DeleteTransition(i) => i,
        };
        proof {
            assert(self.shrink == Shrink::ShrinkTransition(s_ix0));
            if old(self).exhausted() {
                assert(*self == *old(self));
            }
        }
        let ghost entry = *self;
        let mut s_ix = s_ix0;
        let n = self.max_ix + 1;
        let mut fuel: usize = n;
        let ghost mut base: int = s_ix as int;
        loop
            invariant
                n == self.num_slots(),
                s_ix <= self.max_ix,
                fuel <= n,
                0 <= base < n,
                s_ix as int == idx_add(base, n - fuel, n as int),
                self.wf(),
                self.shrink == Shrink::ShrinkTransition(s_ix),
                self.initial_state == old(self).initial_state,
                self.min_size == old(self).min_size,
                self.max_ix == old(self).max_ix,
                self.included_transitions == entry.included_transitions,
                self.included_transitions@ == old(self).included_transitions@,
                self.acceptable_transitions == entry.acceptable_transitions,
                self.acceptable_transitions@ == old(self).acceptable_transitions@,
                self.seen_counter == old(self).seen_counter,
                forall|j: int| 0 <= j < n && self.shr()[j] ==> old(self).shr()[j],
                forall|d: int| 0 <= d < n - fuel ==> self.skipped_slot(idx_add(base, d, n as int)),
                old(self).exhausted() ==> entry == *old(self) && self.transitions
                    == old(self).transitions && self.prev_shrink == old(self).prev_shrink
                    && self.shrinkable_transitions == old(self).shrinkable_transitions && base
                    == s_ix0 as int && old(self).shrink == Shrink::ShrinkTransition(s_ix0),
                old(self).exhausted() && count_ones(self.shr()) == 0 ==> fuel == n,
            decreases count_ones(self.shr()), fuel,
        {
            if self.shrinkable_transitions.count() == 0 {
                proof {
                    lemma_count_ones_zero(self.shr());
                    assert(self.shrink_blocked());
                    assert(self.cur() == old(self).cur());
                    if old(self).exhausted() {
                        assert(fuel == n);
                        assert(s_ix == s_ix0);
                        assert(*self == *old(self));
                    }
                    assert(!self.all_rejected_spec());
                    assert(self.exhausted());
                }
                return Some(false);
            }
            if fuel == 0 {
                proof {
                    assert forall|i: int| 0 <= i < n implies self.skipped_slot(i) by {
                        if i >= base {
                            assert(self.skipped_slot(idx_add(base, i - base, n as int)));
                        } else {
                            assert(self.skipped_slot(idx_add(base, i - base + n, n as int)));
                        }
                    }
                    assert(self.shrink_blocked());
                    assert(self.cur() == old(self).cur());
                    if old(self).exhausted() {
                        assert(s_ix as int == idx_add(s_ix0 as int, n as int, n as int));
                        assert(s_ix == s_ix0);
                        assert(*self == *old(self));
                    }
                    assert(!self.all_rejected_spec());
                    assert(self.exhausted());
                }
                return Some(false);
            }
            let included = self.included_transitions.test(s_ix);
            let mark_rejected = match self.acceptable_transitions[s_ix].0 {
                TransitionState::SimplifyRejected => true,
                _ => false,
            };
            let shrinkable = self.shrinkable_transitions.test(s_ix);
            if !included || mark_rejected || !shrinkable {
                // No use shrinking this slot: excluded, already rejected, or
                // its generator is exhausted.
                proof {
                    assert(self.marks()[s_ix as int] == self.acceptable_transitions@[s_ix as int].0);
                    assert(self.skipped_slot(s_ix as int));
                }
                fuel = fuel - 1;
                s_ix = if s_ix == self.max_ix {
                    0
                } else {
                    s_ix + 1
                };
                self.shrink = Shrink::ShrinkTransition(s_ix);
            } else {
                proof {
                    assert(self.marks()[s_ix as int] == self.acceptable_transitions@[s_ix as int].0);
                    assert(!self.skipped_slot(s_ix as int));
                    assert(!old(self).exhausted()) by {
                        if old(self).exhausted() {
                            assert(old(self).shrink_blocked());
                            assert(old(self).skipped_slot(s_ix as int));
                            assert(self.skipped_slot(s_ix as int));
                        }
                    }
                }
                if M::tree_simplify(&mut self.transitions[s_ix]) {
                    self.prev_shrink = Some(Shrink::ShrinkTransition(s_ix));
                    proof {
                        assert(self.cur() == old(self).cur());
                        assert(self.wf());
                    }
                    if self.check_acceptable(Some(s_ix)) {
                        let ghost pre = *self;
                        let v = M::tree_current(&self.transitions[s_ix]);
                        self.acceptable_transitions[s_ix] = (TransitionState::Current, v);
                        proof {
                            lemma_slot_update(
                                pre.acceptable_transitions@,
                                s_ix as int,
                                TransitionState::Current,
                                v,
                            );
                            assert(self.cur() == pre.cur_override(s_ix as int));
                            pre.lemma_len();
                            self.lemma_len();
                            assert(self.wf());
                            assert(self.vals() == old(self).vals().update(
                                s_ix as int,
                                self.live(s_ix as int),
                            ));
                            assert(self.marks() == old(self).marks().update(
                                s_ix as int,
                                TransitionState::Current,
                            ));
                            assert(self.shrink_move(*old(self), s_ix as int));
                        }
                        return Some(true);
                    }
                    let ghost pre = *self;
                    let cached = self.acceptable_transitions[s_ix].1;
                    self.acceptable_transitions[s_ix] = (TransitionState::SimplifyRejected, cached);
                    self.shrink = if s_ix == self.max_ix {
                        Shrink::ShrinkTransition(0)
                    } else {
                        Shrink::ShrinkTransition(s_ix + 1)
                    };
                    proof {
                        lemma_slot_update(
                            pre.acceptable_transitions@,
                            s_ix as int,
                            TransitionState::SimplifyRejected,
                            cached,
                        );
                        assert(self.vals() =~= pre.vals());
                        assert(self.cur() == pre.cur());
                        assert(self.wf());
                        let f = |m: TransitionState| !is_simplify_rejected(m);
                        assert(self.marks().map_values(f) =~= pre.marks().map_values(f).update(
                            s_ix as int,
                            false,
                        ));
                        lemma_count_ones_update(pre.marks().map_values(f), s_ix as int, false);
                        assert(pre.marks()[s_ix as int] == pre.acceptable_transitions@[s_ix as int].0);
                        assert(pre.marks().map_values(f)[s_ix as int] == true);
                        assert(self.unrejected_count() < old(self).unrejected_count());
                        assert(self.marks() == old(self).marks().update(
                            s_ix as int,
                            TransitionState::SimplifyRejected,
                        ));
                    }
                    return None;
                } else {
                    let ghost pre = *self;
                    self.shrinkable_transitions.clear(s_ix);
                    proof {
                        assert(pre.shr()[s_ix as int]);
                        lemma_count_ones_update(pre.shr(), s_ix as int, false);
                        assert(count_ones(self.shr()) < count_ones(pre.shr()));
                    }
                    fuel = n;
                    s_ix = if s_ix == self.max_ix {
                        0
                    } else {
                        s_ix + 1
                    };
                    self.shrink = Shrink::ShrinkTransition(s_ix);
                    proof {
                        base = s_ix as int;
                    }
                }
            }
        }
    }

    /// The core of `simplify()` once any consumption feedback has been
    /// applied: rotation search when everything is rejected, otherwise the
    /// two-phase delete/shrink step, repeated while slots get marked
    /// rejected.
    #[verifier::loop_isolation(false)]
    fn search(&mut self) -> (b: bool)
        requires
            old(self).wf(),
        ensures
            final(self).wf(),
            final(self).num_slots() == old(self).num_slots(),
            final(self).min_len() == old(self).min_len(),
            final(self).init() == old(self).init(),
            final(self).cur().len() <= old(self).cur().len(),
            replay_ok::<M>(final(self).init(), final(self).cur()),
            !b ==> final(self).exhausted() && final(self).cur() == old(self).cur(),
            old(self).exhausted() ==> !b && *final(self) == *old(self),
            b ==> final(self).simplify_step(*old(self)),
            !old(self).all_rejected_spec() && old(self).cur().len() == old(self).min_len() ==> (
            match final(self).cursor() {
                Shrink::ShrinkTransition(_) => true,
                Shrink::DeleteTransition(_) => false,
            }),
            !old(self).all_rejected_spec() && (match old(self).cursor() {
                Shrink::DeleteTransition(dd) => dd + 1 == old(self).num_slots(),
                Shrink::ShrinkTransition(_) => false,
            }) && old(self).incl()[old(self).num_slots() - 1] && old(self).min_len() < old(
                self,
            ).cur().len() ==> b && final(self).delete_move(*old(self), old(self).num_slots() - 1),
    {
        let ghost cond_min = !old(self).all_rejected_spec() && old(self).cur().len() == old(
            self,
        ).min_len();
        let ghost cond_tail = !old(self).all_rejected_spec() && (match old(self).cursor() {
            Shrink::DeleteTransition(dd) => dd + 1 == old(self).num_slots(),
            Shrink::ShrinkTransition(_) => false,
        }) && old(self).incl()[old(self).num_slots() - 1] && old(self).min_len() < old(
            self,
        ).cur().len();
        loop
            invariant
                self.wf(),
                self.num_slots() == old(self).num_slots(),
                self.min_len() == old(self).min_len(),
                self.init() == old(self).init(),
                self.cur() == old(self).cur(),
                self.incl() == old(self).incl(),
                self.vals() == old(self).vals(),
                forall|j: int|
                    0 <= j < old(self).num_slots() ==> (self.marks()[j] == old(self).marks()[j]
                        || self.marks()[j] == TransitionState::SimplifyRejected),
                forall|j: int|
                    0 <= j < old(self).num_slots() && self.shr()[j] ==> old(self).shr()[j],
                old(self).exhausted() ==> *self == *old(self),
                cond_min ==> (*self == *old(self) || (match self.cursor() {
                    Shrink::ShrinkTransition(_) => true,
                    Shrink::DeleteTransition(_) => false,
                })),
                cond_tail ==> *self == *old(self),
            decreases self.unrejected_count(),
        {
            if self.all_rejected() {
                match self.prev_shrink {
                    Option::Some(Shrink::ShrinkTransition(pix)) => {
                        proof {
                            assert(pix < self.num_slots());
                        }
                        let ghost pre = *self;
                        let found = self.try_to_find_acceptable(pix);
                        proof {
                            if !found {
                                assert(self.exhausted());
                            } else {
                                let d = choose|d: int|
                                    {
                                        &&& 0 <= d < pre.num_slots()
                                        &&& #[trigger] pre.first_rotation_hit(pix as int, d)
                                        &&& self.vals() == pre.vals().update(
                                            idx_add(pix as int, d, pre.num_slots()),
                                            pre.live(idx_add(pix as int, d, pre.num_slots())),
                                        )
                                        &&& self.marks() == pre.marks().update(
                                            idx_add(pix as int, d, pre.num_slots()),
                                            TransitionState::Current,
                                        )
                                        &&& self.cur() == pre.cur_override(
                                            idx_add(pix as int, d, pre.num_slots()),
                                        )
                                    };
                                let j = idx_add(pix as int, d, pre.num_slots());
                                assert(self.live(j) == pre.live(j));
                                assert(self.rotation_move(*old(self), j));
                            }
                        }
                        return found;
                    },
                    _ => {
                        proof {
                            assert(self.exhausted());
                        }
                        return false;
                    },
                }
            }
            let ghost pre = *self;
            match self.step_shrink() {
                Option::Some(committed) => {
                    proof {
                        if committed {
                            if exists|w: int| self.delete_move(pre, w) {
                                let w = choose|w: int| self.delete_move(pre, w);
                                assert(self.delete_move(*old(self), w));
                            } else {
                                let w = choose|w: int| self.shrink_move(pre, w);
                                assert(self.shrink_move(*old(self), w));
                            }
                        }
                    }
                    return committed;
                },
                Option::None => {},
            }
        }
    }

    /// Drops the unobserved tail of the emitted sequence: with `observed`
    /// leading transitions consumed by the last run, every included slot past
    /// them is removed directly, down to `min_size`, without replaying. A
    /// prefix of a cleanly replaying sequence replays cleanly, so no replay
    /// check is needed for these removals.
    #[verifier::loop_isolation(false)]
    fn apply_observed(&mut self, observed: usize) -> (changed: bool)
        requires
            old(self).wf(),
        ensures
            final(self).wf(),
            final(self).num_slots() == old(self).num_slots(),
            final(self).min_len() == old(self).min_len(),
            final(self).init() == old(self).init(),
            changed == (1 <= observed && (observed as int) < old(self).cur().len() && old(
                self,
            ).min_len() < old(self).cur().len()),
            !changed ==> *final(self) == *old(self),
            changed ==> final(self).cur() == old(self).cur().take(
                if (observed as int) > old(self).min_len() {
                    observed as int
                } else {
                    old(self).min_len()
                },
            ),
            changed ==> final(self).feedback_move(*old(self)),
    {
        proof {
            old(self).lemma_len();
        }
        if observed == 0 {
            return false;
        }
        let mut cnt = self.included_transitions.count();
        if cnt <= observed || cnt <= self.min_size {
            return false;
        }
        let n = self.max_ix + 1;
        let mut ix = n;
        let ghost target: int = if (observed as int) > old(self).min_len() {
            observed as int
        } else {
            old(self).min_len()
        };
        proof {
            assert(self.incl().take(n as int) =~= self.incl());
            assert(old(self).cur().take(cnt as int) =~= old(self).cur());
        }
        loop
            invariant
                n == self.num_slots(),
                ix <= n,
                self.wf(),
                self.initial_state == old(self).initial_state,
                self.transitions == old(self).transitions,
                self.acceptable_transitions == old(self).acceptable_transitions,
                self.min_size == old(self).min_size,
                self.max_ix == old(self).max_ix,
                self.shrink == old(self).shrink,
                self.seen_counter == old(self).seen_counter,
                cnt == count_ones(self.incl()),
                cnt == count_ones(self.incl().take(ix as int)),
                forall|j: int| ix <= j < n ==> !self.incl()[j],
                forall|j: int| 0 <= j < n && self.incl()[j] ==> old(self).incl()[j],
                forall|j: int| 0 <= j < n && self.shr()[j] ==> old(self).shr()[j],
                target <= cnt,
                cnt as int <= old(self).cur().len(),
                self.cur() == old(self).cur().take(cnt as int),
                cnt < count_ones(old(self).incl()) ==> match self.prev_shrink {
                    Option::Some(Shrink::DeleteTransition(p)) => p < n && !self.incl()[p as int]
                        && old(self).incl()[p as int],
                    _ => false,
                },
            decreases ix,
        {
            if cnt <= observed || cnt == self.min_size {
                proof {
                    assert(cnt == target);
                    self.lemma_len();
                    assert(cnt < count_ones(old(self).incl()));
                    assert(self.feedback_move(*old(self)));
                }
                return true;
            }
            proof {
                if ix == 0 {
                    assert(self.incl().take(0) =~= Seq::<bool>::empty());
                    assert(count_ones(Seq::<bool>::empty()) == 0);
                }
            }
            ix = ix - 1;
            proof {
                lemma_count_ones_take_succ(self.incl(), ix as int);
            }
            if self.included_transitions.test(ix) {
                let ghost pre = *self;
                self.included_transitions.clear(ix);
                self.shrinkable_transitions.clear(ix);
                self.prev_shrink = Some(Shrink::DeleteTransition(ix));
                cnt = cnt - 1;
                proof {
                    lemma_count_ones_update(pre.incl(), ix as int, false);
                    lemma_count_ones_update(pre.shr(), ix as int, false);
                    assert(self.incl().take(ix as int) =~= pre.incl().take(ix as int));
                    lemma_cur_seq_drop_highest(pre.incl(), pre.vals(), ix as int, n as int);
                    assert(self.cur() == pre.cur().drop_last());
                    assert(old(self).cur().take(cnt + 1).drop_last() =~= old(self).cur().take(
                        cnt as int,
                    ));
                    lemma_replay_take::<M>(self.initial_state, old(self).cur(), cnt as int);
                    assert(self.incl().update(ix as int, true) =~= pre.incl());
                    lemma_replay_take::<M>(self.initial_state, old(self).cur(), cnt + 1);
                    assert(forall|i: int|
                        0 <= i < self.num_slots() && self.shr()[i] ==> self.incl()[i]);
                    assert(self.wf());
                }
            }
        }
    }

    /// Attempts a smaller candidate, taking the number of transitions the
    /// last consumer observed as an explicit argument: first the unobserved
    /// tail is dropped without replay, then the two-phase shrink search runs.
    /// Returns true if the tree mutated; false means this search branch is
    /// exhausted.
    pub fn simplify_observed(&mut self, observed: usize) -> (b: bool)
        requires
            old(self).wf(),
        ensures
            final(self).wf(),
            final(self).num_slots() == old(self).num_slots(),
            final(self).min_len() == old(self).min_len(),
            final(self).init() == old(self).init(),
            final(self).cur().len() <= old(self).cur().len(),
            final(self).min_len() <= final(self).cur().len() <= final(self).num_slots(),
            replay_ok::<M>(final(self).init(), final(self).cur()),
            1 <= observed && (observed as int) < old(self).cur().len() && old(self).min_len()
                < old(self).cur().len() ==> b && final(self).cur() == old(self).cur().take(
                if (observed as int) > old(self).min_len() {
                    observed as int
                } else {
                    old(self).min_len()
                },
            ),
            !b ==> final(self).exhausted() && final(self).cur() == old(self).cur(),
            old(self).exhausted() && (observed == 0 || (observed as int) >= old(self).cur().len()
                || old(self).cur().len() == old(self).min_len()) ==> !b && *final(self) == *old(
                self,
            ),
            b ==> final(self).simplify_step(*old(self)),
            !old(self).all_rejected_spec() && old(self).cur().len() == old(self).min_len() ==> (
            match final(self).cursor() {
                Shrink::ShrinkTransition(_) => true,
                Shrink::DeleteTransition(_) => false,
            }),
            !old(self).all_rejected_spec() && (match old(self).cursor() {
                Shrink::DeleteTransition(dd) => dd + 1 == old(self).num_slots(),
                Shrink::ShrinkTransition(_) => false,
            }) && old(self).incl()[old(self).num_slots() - 1] && old(self).min_len() < old(
                self,
            ).cur().len() ==> b && (final(self).delete_move(*old(self), old(self).num_slots() - 1)
                || final(self).feedback_move(*old(self))),
    {
        proof {
            old(self).lemma_len();
        }
        if self.apply_observed(observed) {
            proof {
                self.lemma_len();
            }
            return true;
        }
        let b = self.search();
        proof {
            self.lemma_len();
        }
        b
    }

    /// Attempts a smaller candidate, as seen through the shared consumption
    /// counter: reads how many leading transitions the last consumer
    /// iterated, resets the counter for the next emitted sequence, and runs
    /// the shrink search. Returns true if the tree mutated and `current()`
    /// should be fetched again; false means this search branch is exhausted.
    pub fn simplify(&mut self) -> (b: bool)
        requires
            old(self).wf(),
        ensures
            final(self).wf(),
            final(self).num_slots() == old(self).num_slots(),
            final(self).min_len() == old(self).min_len(),
            final(self).init() == old(self).init(),
            final(self).cur().len() <= old(self).cur().len(),
            final(self).min_len() <= final(self).cur().len() <= final(self).num_slots(),
            replay_ok::<M>(final(self).init(), final(self).cur()),
            !b ==> final(self).exhausted() && final(self).cur() == old(self).cur(),
            old(self).exhausted() && old(self).cur().len() == old(self).min_len() ==> !b
                && final(self).cur() == old(self).cur(),
            b ==> final(self).simplify_step(*old(self)),
            !old(self).all_rejected_spec() && old(self).cur().len() == old(self).min_len() ==> (
            match final(self).cursor() {
                Shrink::ShrinkTransition(_) => true,
                Shrink::DeleteTransition(_) => false,
            }),
            !old(self).all_rejected_spec() && (match old(self).cursor() {
                Shrink::DeleteTransition(dd) => dd + 1 == old(self).num_slots(),
                Shrink::ShrinkTransition(_) => false,
            }) && old(self).incl()[old(self).num_slots() - 1] && old(self).min_len() < old(
                self,
            ).cur().len() ==> b && (final(self).delete_move(*old(self), old(self).num_slots() - 1)
                || final(self).feedback_move(*old(self))),
    {
        let observed = self.seen_counter.load(core::sync::atomic::Ordering::SeqCst);
        self.seen_counter = Arc::new(AtomicUsize::new(0));
        proof {
            assert(self.wf());
            assert(self.cur() == old(self).cur());
            assert(self.incl() == old(self).incl());
            assert(self.marks() == old(self).marks());
            assert(self.shr() == old(self).shr());
            if old(self).exhausted() {
                if old(self).all_rejected_spec() {
                    assert forall|i: int|
                        0 <= i < self.num_slots() && self.incl()[i] implies is_rejected(
                        self.marks()[i],
                    ) by {
                        assert(old(self).incl()[i]);
                    }
                    assert(self.all_rejected_spec());
                    match self.prev_shrink {
                        Option::Some(Shrink::ShrinkTransition(_)) => {
                            assert forall|j: int|
                                0 <= j < self.num_slots() && self.incl()[j] implies !replay_ok::<
                                M,
                            >(self.init(), self.cur_override(j)) by {
                                assert(self.cur_override(j) == old(self).cur_override(j));
                                assert(old(self).incl()[j]);
                            }
                            assert(self.rotation_hopeless());
                        },
                        _ => {},
                    }
                } else {
                    assert(!self.all_rejected_spec()) by {
                        let w = choose|i: int|
                            0 <= i < old(self).num_slots() && old(self).incl()[i] && !is_rejected(
                                old(self).marks()[i],
                            );
                        assert(self.incl()[w] && !is_rejected(self.marks()[w]));
                    }
                    assert forall|i: int| 0 <= i < self.num_slots() implies self.skipped_slot(
                        i,
                    ) by {
                        assert(old(self).skipped_slot(i));
                    }
                    assert(self.shrink_blocked());
                }
                assert(self.exhausted());
            }
            if !old(self).all_rejected_spec() {
                assert(!self.all_rejected_spec()) by {
                    if self.all_rejected_spec() {
                        assert forall|i: int|
                            0 <= i < old(self).num_slots() && old(self).incl()[i] implies
                            is_rejected(old(self).marks()[i]) by {
                            assert(self.incl()[i]);
                        }
                    }
                }
            }
        }
        let ghost mid = *self;
        let b = self.simplify_observed(observed);
        proof {
            // Moves stated against the state after the counter reset hold
            // against the entry state: every projection they read agrees.
            if b {
                if self.feedback_move(mid) {
                    assert(self.feedback_move(*old(self)));
                }
                if exists|w: int| self.delete_move(mid, w) {
                    let w = choose|w: int| self.delete_move(mid, w);
                    assert(self.delete_move(*old(self), w));
                }
                if exists|w: int| self.shrink_move(mid, w) {
                    let w = choose|w: int| self.shrink_move(mid, w);
                    assert(self.shrink_move(*old(self), w));
                }
                if exists|w: int| self.rotation_move(mid, w) {
                    let w = choose|w: int| self.rotation_move(mid, w);
                    assert(self.rotation_move(*old(self), w));
                }
                assert(self.simplify_step(*old(self)));
            }
        }
        b
    }
}

} // verus!
