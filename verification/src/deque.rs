//! The work-stealing deques through which workers offer branches to each
//! other. They come from the `crossbeam-deque` crate.
//!
//! A deque is shared between threads: what its owner finds in it depends on
//! what the thieves have taken. So nothing is stated of what comes out.

use crate::decision_path::DecisionPath;
use crossbeam_deque::Steal;
use crossbeam_deque::Stealer;
use crossbeam_deque::Worker;
use std::sync::Arc;
use vstd::prelude::*;

verus! {

/// `crossbeam_deque::Worker`, the owner's end of a deque.
#[verifier::external_type_specification]
#[verifier::external_body]
#[verifier::reject_recursive_types(T)]
pub struct ExWorker<T>(Worker<T>);

/// `crossbeam_deque::Stealer`, a thief's end of a deque.
#[verifier::external_type_specification]
#[verifier::external_body]
#[verifier::reject_recursive_types(T)]
pub struct ExStealer<T>(Stealer<T>);

/// `Worker::push`: puts a path on the owner's end.
#[verifier::external_body]
pub(crate) fn deque_push(queue: &Worker<Arc<DecisionPath>>, path: Arc<DecisionPath>) {
    queue.push(path)
}

/// `Worker::pop`: takes a path from the owner's end, if one is left.
#[verifier::external_body]
pub(crate) fn deque_pop(queue: &Worker<Arc<DecisionPath>>) -> Option<Arc<DecisionPath>> {
    queue.pop()
}

/// `Worker::len`: the number of paths in the deque at some moment of the
/// call.
#[verifier::external_body]
pub(crate) fn deque_len(queue: &Worker<Arc<DecisionPath>>) -> usize {
    queue.len()
}

/// `Stealer::steal`: takes a path from the thieves' end. There is none if
/// the deque was empty or another thread got in the way.
#[verifier::external_body]
pub(crate) fn deque_steal(stealer: &Stealer<Arc<DecisionPath>>) -> Option<Arc<DecisionPath>> {
    match stealer.steal() {
        Steal::Success(path) => Some(path),
        Steal::Empty => None,
        Steal::Retry => None,
    }
}

/// `Arc::into_inner`: the path itself, if this was the last handle to it.
#[verifier::external_body]
pub(crate) fn path_into_inner(handle: Arc<DecisionPath>) -> (path: Option<DecisionPath>)
    ensures
        path matches Some(inner) ==> inner == *handle,
{
    Arc::into_inner(handle)
}

} // verus!
