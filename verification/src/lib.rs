//! A tree of directory listings that is filled on demand.
//!
//! The tree starts as a single node without entries. Its owner asks for the
//! listing of a directory when the directory's row is clicked for the first
//! time, has the directory listed in the background, and installs the
//! listing in the tree when the message that reports it arrives.

pub mod app;
pub mod click;
pub mod filetree;
pub mod listing;
pub mod mutator;
pub mod name_order;
pub mod order;
pub mod path;
pub mod rows;
pub mod sorting;
pub mod state;
pub mod wellformed;
