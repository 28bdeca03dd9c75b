//! Core logic for a BootLoaderSpec-style boot-entry manager: selector
//! resolution, boot-option projection and editing, mount-prefix path
//! normalization, and the planning of add/update/remove workflows.
//!
//! The persistent record store and all file reads live outside this
//! library; every function here computes over plain values.

pub mod entry;
pub mod mutate;
pub mod options;
pub mod prefix;
pub mod report;
pub mod select;
pub mod strtok;
