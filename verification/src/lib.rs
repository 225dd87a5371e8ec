//! A Markdown previewer: renders Markdown to a full HTML page with heading
//! anchors and an optional table of contents, renders whole folders behind a
//! sidebar, and holds the decisions of a preview session.

pub mod args;
pub mod config;
pub mod folder;
pub mod markdown;
pub mod preview;
pub mod server;
pub mod text;
