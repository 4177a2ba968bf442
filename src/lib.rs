//! Opens a fixed list of web pages one after another in the default browser.
//!
//! The library decides everything: how each URL is escaped for the Windows
//! command shell, which command line launches it, and the order of launches
//! and pauses. Running those actions is left to the caller.
pub mod escape;
pub mod launcher;
