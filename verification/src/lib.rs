//! Process- and resource-management core of a small teaching kernel, verified.
//!
//! The crate models the process tree, the per-process file-descriptor tables,
//! and the bridge through which kernel code reads and writes bytes inside an
//! unprivileged address space on behalf of a syscall.  Collaborators that are
//! out of scope for the core (the filesystem's on-disk layout, the scheduler's
//! task selection, program loading, the context-switch machinery) appear as
//! small in-memory models behind the same narrow interfaces the core consumes.

pub mod console;
pub mod flags;
pub mod mem;
pub mod vfs;
pub mod kernel;
pub mod user;
pub mod laws;
