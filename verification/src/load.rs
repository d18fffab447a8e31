//! Statements as they are read from a log.
use vstd::prelude::*;

verus! {

/// One statement of a log, with its number in the log.
#[derive(Clone, Debug, PartialEq, Eq)]
pub struct StoreCommand {
    pub id: usize,
    pub sql: String,
}

} // verus!
