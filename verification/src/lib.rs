//! The logic of a viewer for bigfile archives: the tree of directories and
//! files that the archive's entry paths make, the selection of files, the
//! paths they are extracted to, and the viewer's dialogs and preview.
//!
//! - `path`: paths as lists of components, and their longest common prefix;
//! - `tree`: the directory tree, built path by path, and files sorted by name;
//! - `state`: the viewer's state and the decisions taken on it;
//! - `text`: the order of names, and the texts the viewer shows.

pub mod path;
pub mod state;
pub mod text;
pub mod tree;
