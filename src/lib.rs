//! Resolves and installs the transitive dependency closure of a package.
//!
//! The network and the filesystem stay with the caller: the library decides,
//! step by step, which identifier to fetch next and what to remember once an
//! archive has been unpacked, and states what a whole run amounts to.

pub mod package;
pub mod closure;
pub mod installer;
