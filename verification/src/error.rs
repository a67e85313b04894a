//! What can go wrong when a journal is opened or extended.

use vstd::prelude::*;

verus! {

/// The failures of the journal.
#[derive(Debug, PartialEq, Eq)]
pub enum ErrorKind {
    /// An era's bytes are not what was written: the file, and a diagnostic.
    CorruptedJournal(String, String),
    /// The journal's location is missing or is no directory.
    InvalidJournalLocation(String),
    /// The eras on disk leave out this index.
    JournalEraMissing(u64),
    /// A file that is named like an era spells no era index.
    InvalidEraName(String),
}

/// An `ErrorKind` with its texts as sequences of characters.
pub enum ErrorView {
    CorruptedJournal(Seq<char>, Seq<char>),
    InvalidJournalLocation(Seq<char>),
    JournalEraMissing(u64),
    InvalidEraName(Seq<char>),
}

impl View for ErrorKind {
    type V = ErrorView;

    open spec fn view(&self) -> ErrorView {
        match self {
            ErrorKind::CorruptedJournal(file, message) => ErrorView::CorruptedJournal(
                file@,
                message@,
            ),
            ErrorKind::InvalidJournalLocation(dir) => ErrorView::InvalidJournalLocation(dir@),
            ErrorKind::JournalEraMissing(index) => ErrorView::JournalEraMissing(*index),
            ErrorKind::InvalidEraName(name) => ErrorView::InvalidEraName(name@),
        }
    }
}

} // verus!
