use vstd::prelude::*;

verus! {

#[verifier::external_type_specification]
#[verifier::external_body]
#[verifier::reject_recursive_types(T)]
pub struct ExReceiver<T>(flume::Receiver<T>);

#[verifier::external_type_specification]
#[verifier::external_body]
#[verifier::reject_recursive_types(T)]
pub struct ExSender<T>(flume::Sender<T>);

/// Relies on flume::unbounded: a new channel with no capacity limit.
#[verifier::external_body]
pub(crate) fn unbounded_channel<T>() -> (flume::Sender<T>, flume::Receiver<T>) {
    flume::unbounded()
}

/// Relies on flume::bounded: a new channel that holds at most `cap` tasks.
#[verifier::external_body]
pub(crate) fn bounded_channel<T>(cap: usize) -> (flume::Sender<T>, flume::Receiver<T>) {
    flume::bounded(cap)
}

/// Relies on flume::Sender's Clone: another handle on the same channel.
#[verifier::external_body]
pub(crate) fn clone_sender<T>(tx: &flume::Sender<T>) -> flume::Sender<T> {
    tx.clone()
}

/// Relies on flume::Receiver::len: how many tasks the channel holds now.
/// Producers on other threads may change it at any moment.
#[verifier::external_body]
pub(crate) fn pending<T>(rx: &flume::Receiver<T>) -> usize {
    rx.len()
}

/// Relies on flume::Receiver::try_recv: the oldest task if there is one,
/// without waiting.
#[verifier::external_body]
pub(crate) fn try_pop<T>(rx: &flume::Receiver<T>) -> Option<T> {
    rx.try_recv().ok()
}

} // verus!
