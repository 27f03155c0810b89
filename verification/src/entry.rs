//! Entries, and the errors of the library.

use vstd::prelude::*;

verus! {

/// One member of an archive after extraction.
#[derive(Debug, Clone, PartialEq, Eq)]
pub struct Entry {
    /// The sanitized path.
    pub path: String,
    /// Whether the member is a directory marker.
    pub is_directory: bool,
    /// The content; empty for a directory.
    pub content: Vec<u8>,
}

/// An entry as plain values.
pub struct EntryView {
    pub path: Seq<char>,
    pub is_directory: bool,
    pub content: Seq<u8>,
}

impl View for Entry {
    type V = EntryView;

    open spec fn view(&self) -> EntryView {
        EntryView { path: self.path@, is_directory: self.is_directory, content: self.content@ }
    }
}

/// The views of a list of entries.
pub open spec fn views(entries: Seq<Entry>) -> Seq<EntryView> {
    Seq::new(entries.len(), |i: int| entries[i]@)
}

/// The view of an optional entry.
pub open spec fn entry_of(r: Option<Entry>) -> Option<EntryView> {
    match r {
        Some(e) => Some(e@),
        None => None,
    }
}

/// Why an operation failed as a whole. Each variant carries the message of
/// the container.
#[derive(Debug, Clone, PartialEq, Eq)]
pub enum RepackError {
    /// The buffer is not an archive that can be opened.
    ArchiveOpen(String),
    /// Writing the new archive failed.
    Rebuild(String),
    /// No member of the requested name could be opened.
    Lookup(String),
}

impl RepackError {
    /// The message, for callers that only pass text on.
    pub fn message(&self) -> (r: String)
        ensures
            r@ == match *self {
                RepackError::ArchiveOpen(m) => m@,
                RepackError::Rebuild(m) => m@,
                RepackError::Lookup(m) => m@,
            },
    {
        match self {
            RepackError::ArchiveOpen(m) => m.clone(),
            RepackError::Rebuild(m) => m.clone(),
            RepackError::Lookup(m) => m.clone(),
        }
    }
}

} // verus!
