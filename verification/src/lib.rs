//! Virtual displays on the niri compositor: capturing them, converting their pixels, and taking a
//! session over to them.
//!
//! The library decides; it opens no socket, file or thread of its own. What it decides is carried
//! out by its caller, which reports back what came of it.
pub mod colors;
pub mod convert;
pub mod exchange;
pub mod ipc_session;
pub mod json;
pub mod kdl;
pub mod niri_cursor;
pub mod niri_ipc;
pub mod order;
pub mod paths;
pub mod planes;
pub mod ppm;
pub mod rows;
pub mod screencopy;
pub mod slicing;
pub mod takeover;
pub mod text;
pub mod virtual_display;
