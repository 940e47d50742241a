use vstd::prelude::*;

verus! {

/// Why an operation of the library did not succeed.
#[derive(Debug, PartialEq, Eq)]
pub enum Error {
    /// The note text carries no tag.
    NoTagsFound,
    /// The query method names no tokenizer of this library.
    UnknownTokenizer,
    /// A query was made with neither an AND tag nor an OR tag.
    NoFilterProvided,
    /// A note with the same content is already stored.
    DuplicateNote,
    /// No stored note has the hash that an update named.
    NoteNotFound,
    /// The storage engine reported a failure; the text is its message.
    StorageFailure(String),
}

impl Error {
    /// What went wrong, in words. For a failure of the storage engine these
    /// are the engine's own.
    pub fn message(&self) -> (text: String)
        ensures
            text@ == match self {
                Error::NoTagsFound => "no tags found in the note"@,
                Error::UnknownTokenizer => "unknown tokenizer"@,
                Error::NoFilterProvided => "no filter provided"@,
                Error::DuplicateNote => "a note with this content is stored already"@,
                Error::NoteNotFound => "no note has this hash"@,
                Error::StorageFailure(message) => message@,
            },
    {
        match self {
            Error::NoTagsFound => "no tags found in the note".to_owned(),
            Error::UnknownTokenizer => "unknown tokenizer".to_owned(),
            Error::NoFilterProvided => "no filter provided".to_owned(),
            Error::DuplicateNote => "a note with this content is stored already".to_owned(),
            Error::NoteNotFound => "no note has this hash".to_owned(),
            Error::StorageFailure(message) => message.clone(),
        }
    }
}

} // verus!
