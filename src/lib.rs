//! Veta: a personal note store with tag-based organization, date filtering
//! and regex search.
//!
//! The heart of the library is [`FilesDatabase`], the model of a file-based
//! store: one record per note, a tag index made of link entries grouped by
//! tag, and a counter that hands out note IDs. Every operation on it is
//! verified against a contract stated over its view.

pub mod clock;
pub mod dates;
pub mod error;
pub mod input;
pub mod laws;
pub mod migrations;
pub mod normalize;
pub mod note;
pub mod search;
pub mod service;
pub mod store;
pub mod text;

pub use error::Error;
pub use migrations::{get_pending_migrations, Migration, SCHEMA_VERSION};
pub use note::{CreateNote, Note, NoteQuery, NoteSummary, TagCount, UpdateNote};
pub use service::{Database, VetaService};
pub use store::{FilesDatabase, NoteFile};
