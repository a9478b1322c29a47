//! Renders a styled document tree (DOM nodes annotated with resolved style
//! properties) into an indented speech-synthesis markup string.
//!
//! Style properties of a node are partitioned: some become attributes on the
//! node's own tag, others are promoted onto synthetic wrapper tags (`prosody`,
//! `voice`, `emphasis`) that enclose the node's rendered children.

pub mod node;
pub mod text;
pub mod classify;
pub mod render;
pub mod nesting;
