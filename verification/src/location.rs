//! Source locations and the error type shared by every stage.

use vstd::prelude::*;

verus! {

/// A position in the source text: a file number, a line and a column.
#[derive(Clone, Copy, Debug, PartialEq, Eq, Structural)]
pub struct Location {
    pub file: u32,
    pub line: u32,
    pub column: u16,
}

impl Location {
    /// The location reported before any token has been read.
    pub open spec fn start() -> Location {
        Location { file: 0, line: 0, column: 0 }
    }

    pub fn new(file: u32, line: u32, column: u16) -> (l: Location)
        ensures
            l == (Location { file, line, column }),
    {
        Location { file, line, column }
    }
}

impl Default for Location {
    fn default() -> (l: Location)
        ensures
            l == Location::start(),
    {
        Location { file: 0, line: 0, column: 0 }
    }
}

/// A fatal error: where it happened and what went wrong.
#[derive(Debug, PartialEq, Eq)]
pub struct DMError {
    location: Location,
    description: String,
}

/// The mathematical content of a [`DMError`].
pub struct DMErrorView {
    pub location: Location,
    pub description: Seq<char>,
}

impl View for DMError {
    type V = DMErrorView;

    closed spec fn view(&self) -> DMErrorView {
        DMErrorView { location: self.location, description: self.description@ }
    }
}

impl DMError {
    pub fn new(location: Location, description: String) -> (e: DMError)
        ensures
            e@ == (DMErrorView { location, description: description@ }),
    {
        DMError { location, description }
    }

    pub fn location(&self) -> (l: Location)
        ensures
            l == self@.location,
    {
        self.location
    }

    pub fn description(&self) -> (d: &String)
        ensures
            d@ == self@.description,
    {
        &self.description
    }
}

impl Clone for DMError {
    fn clone(&self) -> (e: DMError)
        ensures
            e@ == self@,
    {
        DMError { location: self.location, description: self.description.clone() }
    }
}

} // verus!
