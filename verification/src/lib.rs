//! A file-backed note repository: a durable index of notes, each a directory
//! holding one body file, with per-note undo history and a folder/note tree
//! built from the flat list of relative paths.
//!
//! This crate holds the verified core: path validation, the index codec,
//! the note lifecycle decisions (create, delete, move), content-free state
//! of the editor, the undo history, and the hierarchy builder. Reading and
//! writing the disk itself is left to the caller, which hands the results
//! of those steps back in as plain values.

pub mod paths;
pub mod text;
pub mod notebook;
pub mod undo_manager;
pub mod editor_state;
pub mod flag_map;
pub mod note_explorer;
pub mod index_codec;
pub mod visualizer;
pub mod configuration;
pub mod counter;
pub mod label_actions;
