//! Branching version history for a folder of user-authored files.
//!
//! Every save captures the visible contents of the working directory as an
//! immutable, content-addressed snapshot. The user can rewind to any
//! snapshot; the first save after a rewind opens a new timeline, and the
//! timeline that was rewound keeps its future.
//!
//! The library holds a project as a value: its object store, its working
//! directory, its timelines and the user's position among them. It does no
//! input or output of its own. `persist` reads and writes the texts in
//! which a position is kept, and `Project::restore` puts a project together
//! again.

pub mod error;
pub mod object_id;
pub mod names;
pub mod objects;
pub mod listing;
pub mod store;
pub mod history;
pub mod worktree;
pub mod canonical;
pub mod text;
pub mod project;
pub mod registry;
pub mod persist;
pub mod snapshot;
pub mod navigate;
pub mod timelines;
pub mod versions;
pub mod graph;
pub mod laws;
pub mod graph_laws;
pub mod models;
