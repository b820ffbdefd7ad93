//! A stop request that another thread may raise while structural work runs.
use vstd::prelude::*;

use std::sync::atomic::{AtomicU8, Ordering};
use std::sync::Arc;

verus! {

/// A shared stop request: 0 while work may continue, 1 for cancellation,
/// 2 for an operator stop.
pub struct StopSignal {
    flag: Arc<AtomicU8>,
}

impl StopSignal {
    /// A signal that has not been raised.
    pub fn new() -> (r: StopSignal) {
        StopSignal { flag: Arc::new(AtomicU8::new(0)) }
    }

    /// Another handle on the same shared request.
    #[verifier::external_body]
    pub fn share(&self) -> (r: StopSignal) {
        StopSignal { flag: Arc::clone(&self.flag) }
    }

    /// Requests cancellation of the work that observes this signal.
    pub fn cancel(&self) {
        self.flag.store(1, Ordering::Release);
    }

    /// Requests an operator stop of the work that observes this signal.
    pub fn stop(&self) {
        self.flag.store(2, Ordering::Release);
    }

    /// The request as last published by any thread; another thread may
    /// change it at any time, so nothing is known of the value read.
    pub fn observe(&self) -> (r: u8) {
        self.flag.load(Ordering::Acquire)
    }
}

} // verus!
