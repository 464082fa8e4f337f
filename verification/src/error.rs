//! Errors the library itself can report. Failures of the outside world
//! (files, processes, the network) stay with the caller that performs
//! that work.
use vstd::prelude::*;

verus! {

#[derive(Clone, Copy, PartialEq, Eq, Structural, Debug)]
pub enum Error {
    /// A base URL could not be parsed, or a segment not resolved
    /// against it.
    UrlParse,
    /// A persisted snapshot does not parse back, or its entries are out
    /// of sorted order.
    SnapshotFormat,
}

impl Error {
    /// A short description, for logs and messages.
    pub fn text(&self) -> (r: String)
        ensures
            *self is UrlParse ==> r@ == "url parse error"@,
            *self is SnapshotFormat ==> r@ == "snapshot format error"@,
    {
        match self {
            Error::UrlParse => "url parse error".to_owned(),
            Error::SnapshotFormat => "snapshot format error".to_owned(),
        }
    }
}

} // verus!
