//! Small example state machines, with a deterministic scripted source, for
//! driving the sequential strategy.

use crate::state_machine::AbstractStateMachine;
use crate::state_machine::Rejection;
use vstd::prelude::*;

verus! {

/// A deterministic randomness source that hands out pre-chosen transitions
/// in order, with a bounded budget of retries for locally rejected samples.
pub struct ScriptedSource<T> {
    script: Vec<T>,
    pos: usize,
    retries: usize,
}

impl<T: Copy> ScriptedSource<T> {
    /// Script entries not yet handed out, plus retries left: the source's
    /// budget, which every draw or granted retry consumes from.
    pub closed spec fn budget(self) -> nat {
        (if self.pos as int <= self.script@.len() {
            self.script@.len() - self.pos as int + self.retries as int
        } else {
            self.retries as int
        }) as nat
    }

    pub fn new(script: Vec<T>, retries: usize) -> (r: Self)
        ensures
            r.budget() == script@.len() + retries,
    {
        ScriptedSource { script, pos: 0, retries }
    }

    /// The next scripted value, if any is left.
    pub fn next_item(&mut self) -> (r: Option<T>)
        ensures
            final(self).budget() <= old(self).budget(),
    {
        if self.pos < self.script.len() {
            let t = self.script[self.pos];
            self.pos = self.pos + 1;
            Some(t)
        } else {
            None
        }
    }

    /// Grants a retry while any is left in the budget.
    pub fn consume_retry(&mut self) -> (r: Result<(), Rejection>)
        ensures
            final(self).budget() <= old(self).budget(),
            r is Ok ==> final(self).budget() < old(self).budget(),
    {
        if self.retries > 0 {
            self.retries = self.retries - 1;
            Result::Ok(())
        } else {
            Result::Err(Rejection)
        }
    }
}

/// A saturating counter: `Decrement` is only acceptable while the counter is
/// positive.
pub struct CounterMachine;

#[derive(Clone, Copy, PartialEq, Eq, Structural, Debug)]
pub enum CounterTransition {
    Increment,
    Decrement,
}

/// A transition generator holding one counter transition; these values do
/// not shrink.
pub struct CounterTree {
    pub transition: CounterTransition,
}

impl AbstractStateMachine for CounterMachine {
    type State = u64;

    type Transition = CounterTransition;

    type TransitionTree = CounterTree;

    type Source = ScriptedSource<CounterTransition>;

    open spec fn precondition_spec(state: u64, transition: CounterTransition) -> bool {
        match transition {
            CounterTransition::Increment => true,
            CounterTransition::Decrement => state > 0,
        }
    }

    open spec fn next_spec(state: u64, transition: CounterTransition) -> u64 {
        match transition {
            CounterTransition::Increment => if state == u64::MAX {
                state
            } else {
                (state + 1) as u64
            },
            CounterTransition::Decrement => if state > 0 {
                (state - 1) as u64
            } else {
                0
            },
        }
    }

    open spec fn tree_current_spec(tree: CounterTree) -> CounterTransition {
        tree.transition
    }

    closed spec fn source_budget(source: ScriptedSource<CounterTransition>) -> nat {
        source.budget()
    }

    fn preconditions(state: &u64, transition: &CounterTransition) -> bool {
        match transition {
            CounterTransition::Increment => true,
            CounterTransition::Decrement => *state > 0,
        }
    }

    fn next(state: u64, transition: &CounterTransition) -> u64 {
        match transition {
            CounterTransition::Increment => if state == u64::MAX {
                state
            } else {
                state + 1
            },
            CounterTransition::Decrement => if state > 0 {
                state - 1
            } else {
                0
            },
        }
    }

    fn tree_current(tree: &CounterTree) -> CounterTransition {
        tree.transition
    }

    fn tree_simplify(_tree: &mut CounterTree) -> bool {
        false
    }

    fn tree_complicate(_tree: &mut CounterTree) -> bool {
        false
    }

    fn init_state(_source: &mut ScriptedSource<CounterTransition>) -> Result<u64, Rejection> {
        Result::Ok(0)
    }

    fn sample_size(_source: &mut ScriptedSource<CounterTransition>, _lo: usize, hi: usize) -> usize {
        hi
    }

    fn transitions(source: &mut ScriptedSource<CounterTransition>, _state: &u64) -> Result<
        CounterTree,
        Rejection,
    > {
        match source.next_item() {
            Option::Some(t) => Result::Ok(CounterTree { transition: t }),
            Option::None => Result::Err(Rejection),
        }
    }

    fn reject_local(source: &mut ScriptedSource<CounterTransition>) -> Result<(), Rejection> {
        source.consume_retry()
    }
}

/// A stack tracked by its depth alone, with no preconditions: any sequence
/// of pushes and pops is acceptable.
pub struct StackMachine;

#[derive(Clone, Copy, PartialEq, Eq, Structural, Debug)]
pub enum StackTransition {
    Push(u32),
    Pop,
}

/// A transition generator for stack transitions: a positive `Push`
/// simplifies to `Push(0)` in one step, and the step can be undone.
pub struct StackTree {
    pub current: StackTransition,
    pub undo: Option<StackTransition>,
}

impl AbstractStateMachine for StackMachine {
    type State = u64;

    type Transition = StackTransition;

    type TransitionTree = StackTree;

    type Source = ScriptedSource<StackTransition>;

    open spec fn precondition_spec(_state: u64, _transition: StackTransition) -> bool {
        true
    }

    open spec fn next_spec(state: u64, transition: StackTransition) -> u64 {
        match transition {
            StackTransition::Push(_) => if state == u64::MAX {
                state
            } else {
                (state + 1) as u64
            },
            StackTransition::Pop => if state > 0 {
                (state - 1) as u64
            } else {
                0
            },
        }
    }

    open spec fn tree_current_spec(tree: StackTree) -> StackTransition {
        tree.current
    }

    closed spec fn source_budget(source: ScriptedSource<StackTransition>) -> nat {
        source.budget()
    }

    fn preconditions(_state: &u64, _transition: &StackTransition) -> bool {
        true
    }

    fn next(state: u64, transition: &StackTransition) -> u64 {
        match transition {
            StackTransition::Push(_) => if state == u64::MAX {
                state
            } else {
                state + 1
            },
            StackTransition::Pop => if state > 0 {
                state - 1
            } else {
                0
            },
        }
    }

    fn tree_current(tree: &StackTree) -> StackTransition {
        tree.current
    }

    fn tree_simplify(tree: &mut StackTree) -> bool {
        match tree.current {
            StackTransition::Push(v) => {
                if v > 0 {
                    tree.undo = Some(tree.current);
                    tree.current = StackTransition::Push(0);
                    true
                } else {
                    false
                }
            },
            StackTransition::Pop => false,
        }
    }

    fn tree_complicate(tree: &mut StackTree) -> bool {
        match tree.undo {
            Option::Some(previous) => {
                tree.current = previous;
                tree.undo = None;
                true
            },
            Option::None => false,
        }
    }

    fn init_state(_source: &mut ScriptedSource<StackTransition>) -> Result<u64, Rejection> {
        Result::Ok(0)
    }

    fn sample_size(_source: &mut ScriptedSource<StackTransition>, _lo: usize, hi: usize) -> usize {
        hi
    }

    fn transitions(source: &mut ScriptedSource<StackTransition>, _state: &u64) -> Result<
        StackTree,
        Rejection,
    > {
        match source.next_item() {
            Option::Some(t) => Result::Ok(StackTree { current: t, undo: None }),
            Option::None => Result::Err(Rejection),
        }
    }

    fn reject_local(source: &mut ScriptedSource<StackTransition>) -> Result<(), Rejection> {
        source.consume_retry()
    }
}

} // verus!
