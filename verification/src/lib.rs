//! Sequence generation and shrink search for stateful property testing.
//!
//! Given an abstract model of a system (an initial state, a precondition
//! over transitions, and a transition-application function), this library
//! generates precondition-satisfying sequences of transitions and, once a
//! sequence exposes a failure, searches for a smaller sequence that still
//! replays cleanly against the model.

pub mod bits;
pub mod models;
pub mod observed_vec;
pub mod state_machine;
