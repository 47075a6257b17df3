//! The text of container output, for the log.

use vstd::prelude::*;

use crate::text::{lossy_text, utf8_lossy};

verus! {

/// Passes a container's output on to the log.
pub struct TracingConsumer;

impl TracingConsumer {
    /// The text to log for a chunk of output: the bytes decoded as UTF-8,
    /// with invalid sequences replaced.
    pub fn log_text(&self, bytes: &[u8]) -> (s: String)
        ensures
            s@ == utf8_lossy(bytes@),
    {
        lossy_text(bytes)
    }
}

} // verus!
