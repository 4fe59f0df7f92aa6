//! Register services: the general and floating-point register sets of a
//! thread, and the base of its thread area.
use vstd::prelude::*;
use nix::libc::user_regs_struct;
use crate::error::{status_of, PsErr};
use crate::handle::{Access, ProcHandle};
use crate::memory::new_accesses;
use crate::ptrace::{fs_index, gs_index, PtraceError};

verus! {

/// The `ps_get_thread_area` index that selects the `fs` base (libc's `FS`).
pub open spec fn fs_area_index() -> i32 {
    25
}

/// The `ps_get_thread_area` index that selects the `gs` base (libc's `GS`).
pub open spec fn gs_area_index() -> i32 {
    26
}

/// `t` is the single request of reading the general registers of `lwpid`;
/// `after` is what the caller's buffer holds afterwards (the registers read,
/// or `before` when the request failed) and `r` the status reported.
pub open spec fn getregs_done(
    t: Seq<Access>,
    lwpid: i32,
    before: user_regs_struct,
    after: user_regs_struct,
    r: PsErr,
) -> bool {
    &&& t.len() == 1
    &&& match t[0] {
        Access::GetRegs { lwpid: l, result } => {
            &&& l == lwpid
            &&& r == status_of(result)
            &&& after == match result {
                Ok(got) => got.0,
                Err(_) => before,
            }
        },
        _ => false,
    }
}

/// `t` is the single request of loading `regs` into the general registers
/// of `lwpid`, and `r` the status reported.
pub open spec fn setregs_done(t: Seq<Access>, lwpid: i32, regs: user_regs_struct, r: PsErr) -> bool {
    &&& t.len() == 1
    &&& match t[0] {
        Access::SetRegs { lwpid: l, regs: given, result } => {
            &&& l == lwpid
            &&& given == regs
            &&& r == status_of(result)
        },
        _ => false,
    }
}

/// The status for the return value `ret` of a `PTRACE_GETFPREGS` or
/// `PTRACE_SETFPREGS` request: `-1` is a failure, anything else success.
pub open spec fn fpregs_status(ret: i64) -> PsErr {
    if ret == -1 {
        PsErr::Error
    } else {
        PsErr::Success
    }
}

/// What `ps_get_thread_area` does: an index other than `FS` or `GS` is
/// answered `NoFRegs` with no request made; otherwise the general registers
/// of `lwpid` are read once, and the selected base is stored on success,
/// `BadLID` answers a thread that does not exist, `Error` any other failure.
pub open spec fn thread_area_done(
    t: Seq<Access>,
    lwpid: i32,
    idx: i32,
    before: usize,
    after: usize,
    r: PsErr,
) -> bool {
    if idx != fs_area_index() && idx != gs_area_index() {
        &&& t.len() == 0
        &&& r == PsErr::NoFRegs
        &&& after == before
    } else {
        &&& t.len() == 1
        &&& match t[0] {
            Access::GetRegs { lwpid: l, result } => {
                &&& l == lwpid
                &&& match result {
                    Ok(got) => {
                        &&& r == PsErr::Success
                        &&& after == if idx == fs_area_index() {
                            got.1.fs_base as usize
                        } else {
                            got.1.gs_base as usize
                        }
                    },
                    Err(PtraceError::NoSuchProcess) => r == PsErr::BadLID && after == before,
                    Err(PtraceError::Failed) => r == PsErr::Error && after == before,
                }
            },
            _ => false,
        }
    }
}

/// `ps_lgetregs`: copies the general registers of thread `lwpid` into `registers`.
pub fn ps_lgetregs(handle: &mut ProcHandle, lwpid: i32, registers: &mut user_regs_struct) -> (r: PsErr)
    ensures
        final(handle).extends(old(handle), new_accesses(final(handle), old(handle))),
        getregs_done(
            new_accesses(final(handle), old(handle)),
            lwpid,
            *old(registers),
            *final(registers),
            r,
        ),
{
    let ghost h0 = *handle;
    let res = handle.get_regs(lwpid);
    assert(new_accesses(handle, &h0) =~= seq![Access::GetRegs { lwpid, result: res }]);
    match res {
        Ok(got) => {
            *registers = got.0;
            PsErr::Success
        },
        Err(_) => PsErr::Error,
    }
}

/// `ps_lsetregs`: loads `registers` into the general registers of thread `lwpid`.
pub fn ps_lsetregs(handle: &mut ProcHandle, lwpid: i32, registers: &user_regs_struct) -> (r: PsErr)
    ensures
        final(handle).extends(old(handle), new_accesses(final(handle), old(handle))),
        setregs_done(new_accesses(final(handle), old(handle)), lwpid, *registers, r),
{
    let ghost h0 = *handle;
    let res = handle.set_regs(lwpid, *registers);
    assert(new_accesses(handle, &h0) =~= seq![Access::SetRegs { lwpid, regs: *registers, result: res }]);
    PsErr::from(res)
}

/// `ps_lgetfpregs`: the status for the return value `ret` of the
/// `PTRACE_GETFPREGS` request that copies the floating-point registers of
/// a thread into the caller's buffer. That request hands the kernel a raw
/// pointer, so it is made by the caller, outside this library.
pub fn ps_lgetfpregs(ret: i64) -> (r: PsErr)
    ensures
        r == fpregs_status(ret),
{
    if ret == -1 {
        PsErr::Error
    } else {
        PsErr::Success
    }
}

/// `ps_lsetfpregs`: the status for the return value `ret` of the
/// `PTRACE_SETFPREGS` request that loads the floating-point registers of a
/// thread from the caller's buffer, made by the caller as for
/// `ps_lgetfpregs`.
pub fn ps_lsetfpregs(ret: i64) -> (r: PsErr)
    ensures
        r == fpregs_status(ret),
{
    if ret == -1 {
        PsErr::Error
    } else {
        PsErr::Success
    }
}

/// `ps_get_thread_area`: stores in `addr` the `fs` or `gs` segment base of
/// thread `lwpid`, as `idx` selects.
pub fn ps_get_thread_area(handle: &mut ProcHandle, lwpid: i32, idx: i32, addr: &mut usize) -> (r:
    PsErr)
    ensures
        final(handle).extends(old(handle), new_accesses(final(handle), old(handle))),
        thread_area_done(
            new_accesses(final(handle), old(handle)),
            lwpid,
            idx,
            *old(addr),
            *final(addr),
            r,
        ),
        r == PsErr::Success ==> match new_accesses(final(handle), old(handle))[0] {
            Access::GetRegs { lwpid: l, result: Ok(got) } => {
                &&& l == lwpid
                &&& idx == 25i32 ==> *final(addr) == got.1.fs_base as usize
                &&& idx == 26i32 ==> *final(addr) == got.1.gs_base as usize
            },
            _ => false,
        },
{
    let ghost h0 = *handle;
    let use_fs = if idx == fs_index() {
        true
    } else if idx == gs_index() {
        false
    } else {
        assert(new_accesses(handle, &h0) =~= Seq::<Access>::empty());
        return PsErr::NoFRegs;
    };
    let res = handle.get_regs(lwpid);
    assert(new_accesses(handle, &h0) =~= seq![Access::GetRegs { lwpid, result: res }]);
    match res {
        Ok(got) => {
            let base = if use_fs {
                got.1.fs_base
            } else {
                got.1.gs_base
            };
            *addr = base as usize;
            PsErr::Success
        },
        Err(PtraceError::NoSuchProcess) => PsErr::BadLID,
        Err(PtraceError::Failed) => PsErr::Error,
    }
}

/// A successful `ps_get_thread_area` answers an index of 25 (libc's `FS`)
/// with the `fs_base` field, and an index of 26 (libc's `GS`) with the
/// `gs_base` field, of the registers that the one `PTRACE_GETREGS` request
/// it made returned for thread `lwpid`; it succeeds for no other index.
pub proof fn lemma_thread_area_returns_selected_base(
    t: Seq<Access>,
    lwpid: i32,
    idx: i32,
    before: usize,
    after: usize,
)
    requires
        thread_area_done(t, lwpid, idx, before, after, PsErr::Success),
    ensures
        idx == 25i32 || idx == 26i32,
        t.len() == 1,
        match t[0] {
            Access::GetRegs { lwpid: l, result: Ok(got) } => {
                &&& l == lwpid
                &&& idx == 25i32 ==> after == got.1.fs_base as usize
                &&& idx == 26i32 ==> after == got.1.gs_base as usize
            },
            _ => false,
        },
{
}

} // verus!
