//! Renders a directory hierarchy as a visual tree, filtering entries through a
//! composable set of ignore rules: hidden-file suppression, directories-only
//! mode, and ignore-file patterns with override negation and priority order.
//!
//! Paths are byte strings separated by `/`. The walker consumes an in-memory
//! snapshot of the directory tree and records its rendering calls as events;
//! an unverified front end performs the actual listing and printing.

pub mod args;
pub mod bytes;
pub mod ignore_config;
pub mod rule;
pub mod tree;
