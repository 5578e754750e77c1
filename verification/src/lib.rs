//! The logic of a live preview server for Markdown and other text files.

use vstd::prelude::*;

pub mod desktop;
pub mod json;
pub mod menu;
pub mod moves;
pub mod order;
pub mod pages;
pub mod path;
pub mod server;
pub mod state;
pub mod table;
pub mod text;
pub mod time;
pub mod update;
pub mod util;
pub mod watcher;
pub mod websocket;

verus! {

} // verus!
