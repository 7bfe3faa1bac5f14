//! What the ingestion of a file tree decides: which files are indexed, how
//! a directory's entries are treated, and what goes wrong. Reading the files
//! is the caller's part.

use crate::document::{Document, DocumentView};
use crate::index::Index;
use crate::pipeline::terms_of;
use crate::postings::{is_valid, updated};
use vstd::prelude::*;
use vstd::string::StringExecFns;

verus! {

/// The kinds of file that can be indexed.
#[derive(Clone, Copy, Debug, PartialEq, Eq, Structural)]
pub enum FileKind {
    Markdown,
    PlainText,
}

/// What is found at a path.
#[derive(Clone, Copy, Debug, PartialEq, Eq, Structural)]
pub enum EntryKind {
    File,
    Directory,
    Other,
}

/// What the walk does with an entry of a directory.
#[derive(Clone, Copy, Debug, PartialEq, Eq, Structural)]
pub enum WalkStep {
    IndexFile,
    Descend,
    Skip,
}

/// Why the library refuses a file or a walk. Failures to read are the
/// caller's own.
#[derive(Clone, Debug, PartialEq, Eq)]
pub enum IngestError {
    /// The file's extension, which is not one that can be indexed.
    UnsupportedFileType(String),
    /// The root of a walk is not a directory.
    InvalidInput,
}

/// The kind of file that an extension stands for, if it can be indexed.
pub open spec fn kind_of(extension: Seq<char>) -> Option<FileKind> {
    if extension == "md"@ {
        Some(FileKind::Markdown)
    } else if extension == "txt"@ {
        Some(FileKind::PlainText)
    } else {
        None
    }
}

/// What the walk does with an entry of each kind.
pub open spec fn step_of(kind: EntryKind) -> WalkStep {
    match kind {
        EntryKind::File => WalkStep::IndexFile,
        EntryKind::Directory => WalkStep::Descend,
        EntryKind::Other => WalkStep::Skip,
    }
}

impl IngestError {
    /// The text of the error.
    pub open spec fn text(self) -> Seq<char> {
        match self {
            IngestError::UnsupportedFileType(extension) => "File extension "@ + extension@
                + " is not supported."@,
            IngestError::InvalidInput => "Input path must be a directory."@,
        }
    }

    /// The text of the error.
    pub fn message(&self) -> (message: String)
        ensures
            message@ == self.text(),
    {
        match self {
            IngestError::UnsupportedFileType(extension) => {
                let mut message = "File extension ".to_owned();
                message.append(extension.as_str());
                message.append(" is not supported.");
                message
            },
            IngestError::InvalidInput => "Input path must be a directory.".to_owned(),
        }
    }
}

/// Tells by its extension whether a file can be indexed, and as what.
pub fn file_kind(extension: &str) -> (kind: Result<FileKind, IngestError>)
    ensures
        match kind {
            Ok(found) => kind_of(extension@) == Some(found),
            Err(IngestError::UnsupportedFileType(given)) => kind_of(extension@) is None && given@
                == extension@,
            Err(IngestError::InvalidInput) => false,
        },
{
    let given = extension.to_owned();
    if given == "md".to_owned() {
        Ok(FileKind::Markdown)
    } else if given == "txt".to_owned() {
        Ok(FileKind::PlainText)
    } else {
        Err(IngestError::UnsupportedFileType(given))
    }
}

/// Indexes a file that was read: the file becomes a document of the given
/// path and contents, indexed under the terms of its contents. A file whose
/// extension cannot be indexed is refused, and leaves no trace in the index.
pub fn process_file(path: &str, extension: &str, contents: String, index: &mut Index) -> (outcome:
    Result<(), IngestError>)
    ensures
        match outcome {
            Ok(_) => kind_of(extension@) is Some && is_valid(final(index)@) && final(index)@
                == updated(
                old(index)@,
                DocumentView { path: path@, contents: contents@ },
                terms_of(contents@).to_set(),
            ),
            Err(IngestError::UnsupportedFileType(given)) => kind_of(extension@) is None && given@
                == extension@ && final(index)@ == old(index)@,
            Err(IngestError::InvalidInput) => false,
        },
{
    match file_kind(extension) {
        Ok(_) => {
            let document = Document::new(path.to_owned(), contents);
            index.store_processed_text_in_index(&document);
            Ok(())
        },
        Err(refusal) => Err(refusal),
    }
}

/// A walk starts at a directory and nowhere else.
pub fn check_root(kind: EntryKind) -> (outcome: Result<(), IngestError>)
    ensures
        kind is Directory ==> outcome is Ok,
        !(kind is Directory) ==> outcome == Err::<(), IngestError>(IngestError::InvalidInput),
{
    match kind {
        EntryKind::Directory => Ok(()),
        _ => Err(IngestError::InvalidInput),
    }
}

/// What the walk does with an entry of a directory: a file is indexed, a
/// directory is walked in turn, anything else is passed over.
pub fn next_step(kind: EntryKind) -> (step: WalkStep)
    ensures
        step == step_of(kind),
{
    match kind {
        EntryKind::File => WalkStep::IndexFile,
        EntryKind::Directory => WalkStep::Descend,
        EntryKind::Other => WalkStep::Skip,
    }
}

} // verus!
