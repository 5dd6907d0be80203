use vstd::prelude::*;

pub mod direction;
pub mod viewport;
pub mod history;
pub mod cursor;
pub mod mux;
pub mod status;
pub mod actions;
pub mod line_index;
pub mod cowvec;
pub mod err;
pub mod node;
pub mod ftree;
pub mod imvec;
pub mod indexset;
pub mod lineset;
pub mod segment;
pub mod editor;
pub mod command;
pub mod prompt;
pub mod config;
pub mod filters;
pub mod inflight;
pub mod commands;
pub mod search;
pub mod buffer;
pub mod colors;
pub mod viewer;
pub mod instance;
pub mod layout;
pub mod shell;
pub mod keys;
pub mod session;

verus! {
}
