//! The command line's options, and what they ask for.

use vstd::prelude::*;

verus! {

/// The options of one run.
#[derive(Clone, Debug, PartialEq, Eq)]
pub struct Cli {
    /// Root path for scanning.
    pub path: String,
    /// Do not write the index to the file system.
    pub no_file_index: bool,
    /// Files whose duplicates are searched for.
    pub search: Vec<String>,
    /// Do not use a stored index to search for duplicates.
    pub ignore_file_index: bool,
}

/// What a run does.
#[derive(Clone, Copy, Debug, PartialEq, Eq, Structural)]
pub enum Operation {
    /// Scan the tree and report its duplicates; write the index where `persist` is set.
    Report { persist: bool },
    /// Answer the queries from the stored index.
    SearchStored,
    /// Scan the tree and answer the queries from the fresh index.
    SearchFresh,
}

impl Cli {
    /// Whether the options go together: a stored index can be set aside only
    /// where there is something to search for.
    pub fn is_consistent(&self) -> (consistent: bool)
        ensures
            consistent == (self.ignore_file_index ==> self.search@.len() > 0),
    {
        !self.ignore_file_index || self.search.len() > 0
    }

    /// What the options ask for. With files to search for, the stored index
    /// answers, unless it is set aside for a fresh scan. Without, the tree is
    /// scanned and reported, and the index is written unless that is
    /// switched off.
    pub fn operation(&self) -> (operation: Operation)
        ensures
            self.search@.len() == 0 ==> operation == (Operation::Report {
                persist: !self.no_file_index,
            }),
            self.search@.len() > 0 && self.ignore_file_index ==> operation
                == Operation::SearchFresh,
            self.search@.len() > 0 && !self.ignore_file_index ==> operation
                == Operation::SearchStored,
    {
        if self.search.len() == 0 {
            Operation::Report { persist: !self.no_file_index }
        } else if self.ignore_file_index {
            Operation::SearchFresh
        } else {
            Operation::SearchStored
        }
    }
}

} // verus!
