pub mod document;
pub mod index;
pub mod ingest;
pub mod language;
pub mod pipeline;
pub mod postings;
pub mod stemming;
pub mod stop_words;
pub mod text;
pub mod tokens;

pub use document::Document;
pub use index::Index;
pub use ingest::{check_root, file_kind, next_step, process_file};
pub use ingest::{EntryKind, FileKind, IngestError, WalkStep};
pub use language::Language;
pub use pipeline::{join, process_text, terms};
pub use stemming::{choose_algorithm, stem_tokens, Algorithm};
pub use stop_words::{contains_word, filter_stop_words, remove_stop_words, retain_unlisted};
pub use text::{normalize, remove_unwanted_characters};
pub use tokens::{drop_whitespace_runs, is_whitespace_only, tokenize};
