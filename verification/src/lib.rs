//! Core logic of a notes service: notes live in a tree of folders, are
//! addressed by the slugs of their folders followed by their own slug, and
//! are created from a title and a folder.
//!
//! Identifiers are carried as `u128` (the 128 bits of a UUID) and instants
//! as seconds since the Unix epoch, UTC, with the nanoseconds into the second.

pub mod error;
pub mod folder;
pub mod lookup;
pub mod model;
pub mod note;
pub mod outside;
pub mod path;

pub use error::AppError;
pub use folder::{climb_from, created_folder, index_folders, CreateFolderData, FolderBranch, Walked};
pub use lookup::{
    match_candidates, missing_folder_error, same_texts, select_single, split_note_slug,
    CandidateMatch, NoteFromSlug,
};
pub use model::NoteCreated;
pub use note::{
    block_of, fresh_placeholder_note, init_note_data, new_block, note_to_show, placeholder_note,
    prepare_note, BlockType, CreateInitNoteData, CreateInitNotePayload, CreateNoteBlockPayload,
    NewNote, NoteBlock, NoteSummary, NoteToShow,
};
pub use outside::Timestamp;
pub use path::split_path;
