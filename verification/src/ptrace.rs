//! The outside types and constants that ptrace requests use, and the
//! library's own view of their errors. The requests themselves are made by
//! `ProcHandle`, which records each with its arguments and outcome.
use vstd::prelude::*;
use nix::libc::user_regs_struct;

verus! {

#[verifier::external_type_specification]
#[verifier::external_body]
pub struct ExUserRegsStruct(user_regs_struct);

/// Why a ptrace request failed, as far as the services here tell errors apart.
#[derive(Debug, Clone, Copy, PartialEq, Eq, Structural)]
pub enum PtraceError {
    /// `ESRCH`: no such thread, or it is not stopped under our trace.
    NoSuchProcess,
    /// Any other errno.
    Failed,
}

/// The two segment base registers of a thread, as `PTRACE_GETREGS` reports them.
#[derive(Debug, Clone, Copy, PartialEq, Eq, Structural)]
pub struct SegmentBases {
    pub fs_base: u64,
    pub gs_base: u64,
}

/// `nix::libc::FS`, the `ps_get_thread_area` index of the `fs` segment
/// base; libc defines it as 25 on x86_64 Linux.
#[verifier::external_body]
pub(crate) fn fs_index() -> (r: i32)
    ensures
        r == 25,
{
    nix::libc::FS
}

/// `nix::libc::GS`, the `ps_get_thread_area` index of the `gs` segment
/// base; libc defines it as 26 on x86_64 Linux.
#[verifier::external_body]
pub(crate) fn gs_index() -> (r: i32)
    ensures
        r == 26,
{
    nix::libc::GS
}

} // verus!
