//! The append-only, turn-stamped message log consumed by presentation.

use vstd::prelude::*;

verus! {

/// One log entry: a line of text and the turn on which it was sent.  Entries
/// are never mutated after insertion.
pub struct Message {
    pub contents: String,
    pub turn_sent: usize,
}

impl Message {
    pub fn new(contents: String, turn_sent: usize) -> (r: Message)
        ensures
            r.contents@ == contents@,
            r.turn_sent == turn_sent,
    {
        Message { contents, turn_sent }
    }
}

} // verus!
