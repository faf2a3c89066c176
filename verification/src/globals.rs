//! State shared by the proxy's tasks.
use vstd::prelude::*;
use std::sync::Arc;
use std::sync::atomic::{AtomicUsize, Ordering};

verus! {

/// The number of clients being served, shared by all clones of the counter.
#[derive(Debug, Clone)]
pub struct ClientsCount(Arc<AtomicUsize>);

impl Default for ClientsCount {
    /// A new counter, at zero.
    fn default() -> Self {
        ClientsCount(Arc::new(AtomicUsize::new(0)))
    }
}

/// The count that a decrement moves to from `c`: one less, or none at zero.
pub fn saturating_predecessor(c: usize) -> (r: Option<usize>)
    ensures
        r == (if c > 0 { Some((c - 1) as usize) } else { None::<usize> }),
{
    if c > 0 {
        Some(c - 1)
    } else {
        None
    }
}

/// `AtomicUsize::fetch_update` with `saturating_predecessor`: atomically moves
/// the count to one less unless it is zero, and returns the count it found
/// (`Ok` and `Err` alike). The counter is shared with other threads, so nothing
/// is promised of the value.
#[verifier::external_body]
fn fetch_saturating_decrement(counter: &AtomicUsize) -> usize {
    match counter.fetch_update(Ordering::Relaxed, Ordering::Relaxed, |c| saturating_predecessor(c)) {
        Ok(c) => c,
        Err(c) => c,
    }
}

impl ClientsCount {
    /// The current number of clients.
    pub fn current(&self) -> usize {
        self.0.load(Ordering::Relaxed)
    }

    /// Counts one more client; returns the count before.
    pub fn increment(&self) -> usize {
        self.0.fetch_add(1, Ordering::Relaxed)
    }

    /// Counts one client less, never going below zero; returns the count before.
    pub fn decrement(&self) -> usize {
        fetch_saturating_decrement(&self.0)
    }
}

} // verus!
