//! caleb — track tasks for a coding session.
//!
//! The verified core: the plain data model, the markdown session format,
//! session mutations, and the decisions behind every screen. Reading and
//! writing files, the terminal and the event loop live outside this crate's
//! verified part and call into it.

pub mod model;
pub mod input;
pub mod text;
pub mod format;
pub mod markdown;
pub mod session;
pub mod storage;
pub mod picker;
pub mod pull;
pub mod clean;
pub mod ui;
pub mod app;
