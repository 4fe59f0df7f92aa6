//! Verified core of a `proc_service` provider for libthread_db.
//!
//! libthread_db asks its host for a handful of `ps_*` services: reading and
//! writing the inferior's memory word by word through ptrace, reading and
//! writing its register sets, looking up symbols and fetching the thread
//! area base. This crate holds that logic with its contracts; the C-ABI
//! shims that libthread_db resolves by name live outside it.

pub mod error;
pub mod words;
pub mod symbols;
pub mod ptrace;
pub mod handle;
pub mod memory;
pub mod regs;
pub mod process;
pub mod model;
