//! The engine's outbound events: what it noticed, handled, and continued past.
//!
//! The engine carries no logger and no destination; it calls `emit` on an injected sink and the
//! embedder decides where events land. Conditions the engine cannot survive are errors, not events.
use vstd::prelude::*;

verus! {

/// A survivable engine event. The rate of repairs is the early warning of dying flash, so even
/// silently handled repairs reach the sink.
#[derive(Debug, Clone, Copy, PartialEq, Eq, Structural)]
#[non_exhaustive]
pub enum StorageEvent {
    /// A write's read-back mismatched and the retry succeeded.
    VerifyRetried { lba: u64 },
    /// A block failed verification and its content was relocated forward.
    BlockRelocated { from: u64, to: u64 },
    /// A secondary mirror failed and was dropped for the session.
    MirrorDegraded,
    /// A reap window completed (block counts).
    ReapWindow { scanned: u64, live: u64, moved: u64 },
}

/// The injected sink. Implementations must be cheap and must not block.
///
/// `told` is what a sink was told, in order; a sink that is `deaf` keeps nothing of it. Both are
/// ghosts: a sink written in plain Rust leaves them as they are here.
pub trait EventSink: Send {
    closed spec fn told(&self) -> Seq<StorageEvent> {
        Seq::empty()
    }

    closed spec fn deaf(&self) -> bool {
        true
    }

    fn emit(&mut self, event: StorageEvent)
        ensures
            final(self).deaf() == old(self).deaf(),
            !old(self).deaf() ==> final(self).told() == old(self).told().push(event),
    ;
}

/// Discards everything.
#[derive(Debug, Default, Clone, Copy)]
pub struct NullSink;

impl EventSink for NullSink {
    open spec fn told(&self) -> Seq<StorageEvent> {
        Seq::empty()
    }

    open spec fn deaf(&self) -> bool {
        true
    }

    fn emit(&mut self, _event: StorageEvent) {
    }
}

}
