//! Persistent object pools.

pub mod allocator;
pub mod banner;
pub mod blocks;
pub mod boot;
pub mod directory;
pub mod heap;
pub mod history;
pub mod image;
pub mod journal;
pub mod laws;
pub mod layout;
pub mod list;
pub mod memory;
pub mod named;
pub mod nvmi;
pub mod nvram;
pub mod oplog;
pub mod outcomes;
pub mod pool;
pub mod prompt;
pub mod search;
pub mod session;
pub mod syscalls;
pub mod table;
pub mod transaction;
pub mod undo;
pub mod wait_queue;
