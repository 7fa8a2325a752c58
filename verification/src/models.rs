//! The data model: stored records, parsed candidates, frequency entries.

use vstd::prelude::*;

verus! {

/// A persisted history entry. `id` is assigned by the store, unique and
/// strictly increasing in insertion order; `command` is the verbatim
/// command text, trimmed and non-empty.
#[derive(Debug, PartialEq, Eq)]
pub struct History {
    pub id: i32,
    pub timestamp: i32,
    pub command: String,
}

impl Clone for History {
    fn clone(&self) -> (r: History)
        ensures
            r == *self,
    {
        History { id: self.id, timestamp: self.timestamp, command: self.command.clone() }
    }
}

/// A successfully parsed history line, not yet stored: the timestamp in
/// seconds since the epoch and the trimmed command text. A line that
/// carried no timestamp token gets timestamp zero, standing for "not
/// provided".
#[derive(Debug, PartialEq, Eq)]
pub struct NewCommand {
    pub timestamp: i32,
    pub command: String,
}

impl Clone for NewCommand {
    fn clone(&self) -> (r: NewCommand)
        ensures
            r == *self,
    {
        NewCommand { timestamp: self.timestamp, command: self.command.clone() }
    }
}

/// One row of the frequency ranking: how many stored records share this
/// exact command text. Derived by the ranking query, never stored.
#[derive(Debug, PartialEq, Eq)]
pub struct Frequency {
    pub frequency: i32,
    pub command: String,
}

impl Clone for Frequency {
    fn clone(&self) -> (r: Frequency)
        ensures
            r == *self,
    {
        Frequency { frequency: self.frequency, command: self.command.clone() }
    }
}

} // verus!
