//! Recursive cleaner of empty files and directories: the depth bound,
//! the message lines, and the traversal engine that decides what to remove.

pub mod depth;
pub mod message;
pub mod walk;
