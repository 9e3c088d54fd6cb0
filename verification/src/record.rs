//! Candidate entries: what is kept of one package record.

use vstd::prelude::*;

verus! {

/// What a candidate entry says: the package it names, the instant it was
/// built at, and the text of its license field.
pub struct Candidate {
    pub name: Seq<char>,
    pub timestamp: i64,
    pub license: Seq<char>,
}

/// One package record that passed extraction.
#[derive(Debug, Clone, PartialEq, Eq)]
pub struct CandidateEntry {
    pub name: String,
    pub timestamp: i64,
    pub license: String,
}

impl View for CandidateEntry {
    type V = Candidate;

    open spec fn view(&self) -> Candidate {
        Candidate { name: self.name@, timestamp: self.timestamp, license: self.license@ }
    }
}

impl CandidateEntry {
    /// A copy of this entry.
    pub fn duplicate(&self) -> (r: CandidateEntry)
        ensures
            r@ == self@,
    {
        CandidateEntry {
            name: self.name.clone(),
            timestamp: self.timestamp,
            license: self.license.clone(),
        }
    }
}

/// What each entry of a list says, in the order of the list.
pub open spec fn views(entries: Seq<CandidateEntry>) -> Seq<Candidate> {
    Seq::new(entries.len(), |i: int| entries[i]@)
}

} // verus!
