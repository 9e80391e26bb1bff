//! Locates a project's root directory and plans the installation of a chosen
//! rule-configuration file into a fixed destination below that root.
//!
//! The library works on plain values: a directory path is a sequence of
//! byte-string components, a directory listing is a sequence of named entries.
//! The surrounding binary performs the actual filesystem and terminal work and
//! hands the results to these functions.

pub mod bytes;
pub mod locator;
pub mod installer;
