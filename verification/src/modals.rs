//! The dialogs of the window.
pub mod statistics;
