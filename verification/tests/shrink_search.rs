use state_machine_strategy::models::CounterMachine;
use state_machine_strategy::models::CounterTransition;
use state_machine_strategy::models::CounterTransition::Decrement;
use state_machine_strategy::models::CounterTransition::Increment;
use state_machine_strategy::models::ScriptedSource;
use state_machine_strategy::models::StackMachine;
use state_machine_strategy::models::StackTransition;
use state_machine_strategy::models::StackTransition::Pop;
use state_machine_strategy::models::StackTransition::Push;
use state_machine_strategy::observed_vec::ObservedVec;
use state_machine_strategy::state_machine::sequential_strategy;
use state_machine_strategy::state_machine::Shrink;

fn collect<T>(v: ObservedVec<T>) -> Vec<T> {
    let mut it = v.into_iter();
    let mut out = Vec::new();
    while let Some(t) = it.next() {
        out.push(t);
    }
    out
}

fn counter_tree(
    script: Vec<CounterTransition>,
    retries: usize,
    min_size: usize,
    max_size: usize,
) -> Result<
    state_machine_strategy::state_machine::SequentialValueTree<CounterMachine>,
    state_machine_strategy::state_machine::Rejection,
> {
    let strategy = sequential_strategy::<CounterMachine>(min_size, max_size);
    let mut source = ScriptedSource::new(script, retries);
    strategy.new_tree(&mut source)
}

fn stack_tree(
    script: Vec<StackTransition>,
    min_size: usize,
    max_size: usize,
) -> state_machine_strategy::state_machine::SequentialValueTree<StackMachine> {
    let strategy = sequential_strategy::<StackMachine>(min_size, max_size);
    let mut source = ScriptedSource::new(script, 0);
    strategy.new_tree(&mut source).expect("generation should succeed")
}

#[test]
fn generation_rejects_and_resamples() {
    // The fifth sample would drive the counter negative: it is rejected at
    // generation time and the source is asked for a fresh sample.
    let script = vec![Increment, Increment, Decrement, Decrement, Decrement, Increment];
    let tree = counter_tree(script, 2, 1, 5).expect("generation should succeed");
    let current = collect(tree.current());
    assert_eq!(current, vec![Increment, Increment, Decrement, Decrement, Increment]);
}

#[test]
fn generation_fails_without_retry_budget() {
    let script = vec![Increment, Increment, Decrement, Decrement, Decrement, Increment];
    let result = counter_tree(script, 0, 1, 5);
    assert!(result.is_err());
}

#[test]
fn generation_fails_when_the_script_runs_out() {
    let result = counter_tree(vec![Increment, Increment], 0, 1, 5);
    assert!(result.is_err());
}

#[test]
fn generated_length_stays_in_range() {
    let tree = counter_tree(vec![Increment; 5], 0, 2, 5).expect("generation should succeed");
    let len = tree.current().len();
    assert!(2 <= len && len <= 5);
    assert_eq!(len, 5);
}

#[test]
fn length_stays_in_range_through_the_whole_search() {
    let mut tree = counter_tree(vec![Increment; 5], 0, 2, 5).expect("generation should succeed");
    for _ in 0..20 {
        let len = tree.current().len();
        assert!(2 <= len && len <= 5);
        if !tree.simplify() {
            break;
        }
    }
    let len = tree.current().len();
    assert!(2 <= len && len <= 5);
    tree.complicate();
    let len = tree.current().len();
    assert!(2 <= len && len <= 5);
}

#[test]
fn current_replays_cleanly_from_the_initial_state() {
    let script = vec![Increment, Increment, Decrement, Decrement, Decrement, Increment];
    let mut tree = counter_tree(script, 2, 1, 5).expect("generation should succeed");
    for _ in 0..10 {
        let transitions = collect(tree.current());
        let mut state: u64 = 0;
        for t in transitions {
            match t {
                CounterTransition::Increment => {
                    state += 1;
                }
                CounterTransition::Decrement => {
                    assert!(state > 0, "precondition violated during replay");
                    state -= 1;
                }
            }
        }
        if !tree.simplify() {
            break;
        }
    }
}

#[test]
fn simplify_first_deletes_from_the_tail() {
    let mut tree = stack_tree(vec![Push(1), Push(2), Pop, Pop], 1, 4);
    assert_eq!(collect(tree.current()), vec![Push(1), Push(2), Pop, Pop]);
    assert!(tree.simplify());
    // No preconditions, so deleting the final Pop replays trivially.
    assert_eq!(collect(tree.current()), vec![Push(1), Push(2), Pop]);
}

#[test]
fn complicate_undoes_a_committed_deletion() {
    let mut tree = stack_tree(vec![Push(1), Push(2), Pop, Pop], 1, 4);
    assert!(tree.simplify());
    assert_eq!(tree.current().len(), 3);
    assert!(tree.complicate());
    assert_eq!(collect(tree.current()), vec![Push(1), Push(2), Pop, Pop]);
    // A deletion can only be undone once.
    assert!(!tree.complicate());
}

#[test]
fn shrink_phase_simplifies_values_once_deletions_are_exhausted() {
    // With min_size == max_size no deletion is possible: the search moves
    // straight to shrinking individual transitions, front first.
    let mut tree = stack_tree(vec![Push(1), Push(2), Pop, Pop], 4, 4);
    assert!(tree.simplify());
    assert_eq!(collect(tree.current()), vec![Push(0), Push(2), Pop, Pop]);
    assert!(tree.simplify());
    assert_eq!(collect(tree.current()), vec![Push(0), Push(0), Pop, Pop]);
}

#[test]
fn complicate_undoes_a_committed_shrink() {
    let mut tree = stack_tree(vec![Push(1), Push(2), Pop, Pop], 4, 4);
    assert!(tree.simplify());
    assert_eq!(collect(tree.current()), vec![Push(0), Push(2), Pop, Pop]);
    assert!(tree.complicate());
    assert_eq!(collect(tree.current()), vec![Push(1), Push(2), Pop, Pop]);
    assert!(!tree.complicate());
}

#[test]
fn exhausted_simplify_keeps_returning_false() {
    let mut tree = counter_tree(vec![Increment; 3], 0, 1, 3).expect("generation should succeed");
    let mut fuel = 0;
    while tree.simplify() {
        fuel += 1;
        assert!(fuel < 20, "the search must exhaust");
    }
    // Once the search is exhausted, it stays exhausted.
    assert!(!tree.simplify());
    assert!(!tree.simplify());
    assert!(!tree.simplify());
    assert_eq!(tree.current().len(), 1);
}

#[test]
fn observed_count_drops_the_unobserved_tail() {
    let mut tree = stack_tree(vec![Push(1), Push(2), Push(3), Push(4)], 1, 4);
    let emitted = tree.current();
    let mut it = emitted.into_iter();
    // The consumer looks at only the first two transitions.
    assert_eq!(it.next(), Some(Push(1)));
    assert_eq!(it.next(), Some(Push(2)));
    drop(it);
    assert!(tree.simplify());
    assert_eq!(collect(tree.current()), vec![Push(1), Push(2)]);
}

#[test]
fn observed_count_respects_min_size() {
    let mut tree = stack_tree(vec![Push(1), Push(2), Push(3), Push(4)], 3, 4);
    let emitted = tree.current();
    let mut it = emitted.into_iter();
    assert_eq!(it.next(), Some(Push(1)));
    drop(it);
    assert!(tree.simplify());
    // Only one transition was observed, but the tree never goes below
    // min_size.
    assert_eq!(collect(tree.current()), vec![Push(1), Push(2), Push(3)]);
}

#[test]
fn simplify_observed_takes_the_count_directly() {
    let mut tree = stack_tree(vec![Push(1), Push(2), Push(3), Push(4)], 1, 4);
    assert!(tree.simplify_observed(3));
    assert_eq!(collect(tree.current()), vec![Push(1), Push(2), Push(3)]);
}

#[test]
fn current_at_substitutes_the_live_value() {
    let tree = stack_tree(vec![Push(7), Pop], 2, 2);
    let plain = tree.current_at(None);
    assert_eq!(plain, vec![Push(7), Pop]);
    // With no shrink performed yet, the live generator value agrees with the
    // cached one.
    let overridden = tree.current_at(Some(0));
    assert_eq!(overridden, vec![Push(7), Pop]);
}

#[test]
fn check_acceptable_accepts_the_generated_sequence() {
    let tree =
        counter_tree(vec![Increment, Decrement], 0, 2, 2).expect("generation should succeed");
    assert!(tree.check_acceptable(None));
    assert!(tree.check_acceptable(Some(1)));
}

#[test]
fn all_rejected_is_false_on_a_fresh_tree() {
    let tree = counter_tree(vec![Increment; 2], 0, 2, 2).expect("generation should succeed");
    assert!(!tree.all_rejected());
}

#[test]
fn next_shrink_transition_wraps_around() {
    let tree = counter_tree(vec![Increment; 3], 0, 3, 3).expect("generation should succeed");
    assert_eq!(tree.next_shrink_transition(0), Shrink::ShrinkTransition(1));
    assert_eq!(tree.next_shrink_transition(1), Shrink::ShrinkTransition(2));
    assert_eq!(tree.next_shrink_transition(2), Shrink::ShrinkTransition(0));
}
