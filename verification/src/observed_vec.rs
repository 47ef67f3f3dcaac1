//! A transition sequence paired with a shared counter of how many leading
//! elements its consumer has iterated.
//!
//! The counter is shared with the value tree that emitted the sequence: after
//! the consumer's run, its value tells the shrink controller how many leading
//! transitions could have influenced the outcome, so that an unobserved tail
//! can be dropped without replaying it.

use core::sync::atomic::AtomicUsize;
use std::sync::Arc;
use vstd::prelude::*;

verus! {

/// A `Vec<T>` that counts, in a shared atomic counter, how many of its
/// elements have been yielded by its iterator.
#[derive(Debug)]
pub struct ObservedVec<T> {
    seen_counter: Arc<AtomicUsize>,
    transitions: Vec<T>,
}

impl<T> View for ObservedVec<T> {
    type V = Seq<T>;

    closed spec fn view(&self) -> Seq<T> {
        self.transitions@
    }
}

impl<T> ObservedVec<T> {
    /// Wraps `transitions`, recording consumption in `seen_counter`.
    pub fn new(seen_counter: Arc<AtomicUsize>, transitions: Vec<T>) -> (r: Self)
        ensures
            r@ == transitions@,
    {
        ObservedVec { seen_counter, transitions }
    }

    /// Returns the number of transitions.
    pub fn len(&self) -> (n: usize)
        ensures
            n == self@.len(),
    {
        self.transitions.len()
    }

    /// Returns true if the number of transitions is 0.
    pub fn is_empty(&self) -> (b: bool)
        ensures
            b == (self@.len() == 0),
    {
        self.transitions.is_empty()
    }

    /// A counting iterator over the transitions.
    pub fn into_iter(self) -> (it: IntoIter<T>)
        ensures
            it@ == self@,
    {
        IntoIter { seen_counter: self.seen_counter, transitions: self.transitions }
    }
}

/// Iterator over an [`ObservedVec`]; every yielded element bumps the shared
/// consumption counter once.
pub struct IntoIter<T> {
    seen_counter: Arc<AtomicUsize>,
    transitions: Vec<T>,
}

impl<T> View for IntoIter<T> {
    type V = Seq<T>;

    /// The elements not yet yielded.
    closed spec fn view(&self) -> Seq<T> {
        self.transitions@
    }
}

impl<T> IntoIter<T> {
    /// Yields the next transition, if any, and counts it as seen.
    pub fn next(&mut self) -> (r: Option<T>)
        ensures
            match r {
                Option::None => old(self)@.len() == 0 && final(self)@ == old(self)@,
                Option::Some(t) => old(self)@.len() > 0 && t == old(self)@[0] && final(self)@
                    == old(self)@.skip(1),
            },
    {
        if self.transitions.len() > 0 {
            let t = self.transitions.remove(0);
            let _seen_before = self.seen_counter.fetch_add(
                1,
                core::sync::atomic::Ordering::SeqCst,
            );
            proof {
                assert(self.transitions@ =~= old(self).transitions@.skip(1));
            }
            Some(t)
        } else {
            None
        }
    }
}

} // verus!
