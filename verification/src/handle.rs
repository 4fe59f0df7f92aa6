//! The process handle that libthread_db passes back to every service, and
//! the record of the ptrace requests made through it.
use vstd::prelude::*;
use nix::libc::user_regs_struct;
use nix::errno::Errno;
use nix::sys::ptrace;
use nix::unistd::Pid;
use crate::ptrace::{PtraceError, SegmentBases};
use crate::symbols::{tables_well_formed, ObjectSymbols};

verus! {

/// One ptrace request made on behalf of a handle, with its arguments and
/// the outcome that came back.
pub enum Access {
    PeekData { pid: i32, addr: usize, result: Result<i64, PtraceError> },
    PokeData { pid: i32, addr: usize, word: i64, result: Result<(), PtraceError> },
    GetRegs { lwpid: i32, result: Result<(user_regs_struct, SegmentBases), PtraceError> },
    SetRegs { lwpid: i32, regs: user_regs_struct, result: Result<(), PtraceError> },
}

/// The inferior as libthread_db sees it: its process id and the symbol
/// tables of its loaded objects. The handle also keeps, as ghost state, the
/// sequence of ptrace requests made through it; the contracts of the
/// services speak of that sequence.
pub struct ProcHandle {
    pid: i32,
    objects: Vec<ObjectSymbols>,
    accesses: Ghost<Seq<Access>>,
}

impl ProcHandle {
    /// The process id of the inferior.
    pub closed spec fn process(&self) -> i32 {
        self.pid
    }

    /// The symbol tables, one per loaded object, in lookup order.
    pub closed spec fn symbol_tables(&self) -> Seq<ObjectSymbols> {
        self.objects@
    }

    /// Every ptrace request made through this handle, oldest first.
    pub closed spec fn accesses(&self) -> Seq<Access> {
        self.accesses@
    }

    /// `self` is `before` with `more` requests recorded and nothing else changed.
    pub open spec fn extends(&self, before: &ProcHandle, more: Seq<Access>) -> bool {
        &&& self.process() == before.process()
        &&& self.symbol_tables() == before.symbol_tables()
        &&& self.accesses() == before.accesses() + more
    }

    /// The symbol tables map each name of an object to one address.
    pub open spec fn well_formed(&self) -> bool {
        tables_well_formed(self.symbol_tables())
    }

    /// A handle for process `pid` with the given symbol tables and no
    /// request made yet.
    pub fn new(pid: i32, objects: Vec<ObjectSymbols>) -> (h: ProcHandle)
        requires
            tables_well_formed(objects@),
        ensures
            h.well_formed(),
            h.process() == pid,
            h.symbol_tables() == objects@,
            h.accesses() == Seq::<Access>::empty(),
    {
        ProcHandle { pid, objects, accesses: Ghost(Seq::empty()) }
    }

    /// The process id of the inferior.
    pub fn pid(&self) -> (p: i32)
        ensures
            p == self.process(),
    {
        self.pid
    }

    /// The symbol tables of the inferior's loaded objects.
    pub fn symbols(&self) -> (s: &Vec<ObjectSymbols>)
        ensures
            s@ == self.symbol_tables(),
    {
        &self.objects
    }

    /// `PTRACE_PEEKDATA` through `nix::sys::ptrace::read` on the handle's
    /// process: the `c_long` at `addr`, exactly as the call returns it, or
    /// the errno (ESRCH told apart). The request is recorded with the
    /// address handed to the call and what came back; the word depends on
    /// the inferior, so nothing else is stated of it. Converting it to bytes
    /// is left to verified callers.
    #[verifier::external_body]
    pub(crate) fn peek(&mut self, addr: usize) -> (r: Result<i64, PtraceError>)
        ensures
            final(self).extends(
                old(self),
                seq![(Access::PeekData { pid: old(self).process(), addr, result: r })],
            ),
    {
        match ptrace::read(Pid::from_raw(self.pid), addr as ptrace::AddressType) {
            Ok(word) => Ok(word),
            Err(Errno::ESRCH) => Err(PtraceError::NoSuchProcess),
            Err(_) => Err(PtraceError::Failed),
        }
    }

    /// `PTRACE_POKEDATA` through `nix::sys::ptrace::write` on the handle's
    /// process: hands the call `addr` and the `c_long` `word` unchanged. The
    /// request is recorded with that address and word and its outcome, which
    /// depends on the inferior and is not otherwise stated.
    #[verifier::external_body]
    pub(crate) fn poke(&mut self, addr: usize, word: i64) -> (r: Result<(), PtraceError>)
        ensures
            final(self).extends(
                old(self),
                seq![(Access::PokeData { pid: old(self).process(), addr, word, result: r })],
            ),
    {
        match ptrace::write(Pid::from_raw(self.pid), addr as ptrace::AddressType, word) {
            Ok(()) => Ok(()),
            Err(Errno::ESRCH) => Err(PtraceError::NoSuchProcess),
            Err(_) => Err(PtraceError::Failed),
        }
    }

    /// `PTRACE_GETREGS` through `nix::sys::ptrace::getregs` on thread
    /// `lwpid`: its general registers, with copies of their `fs_base` and
    /// `gs_base` fields. The request is recorded with `lwpid` and what came
    /// back; the values depend on the thread and are not otherwise stated.
    #[verifier::external_body]
    pub(crate) fn get_regs(&mut self, lwpid: i32) -> (r: Result<(user_regs_struct, SegmentBases), PtraceError>)
        ensures
            final(self).extends(old(self), seq![(Access::GetRegs { lwpid, result: r })]),
    {
        match ptrace::getregs(Pid::from_raw(lwpid)) {
            Ok(regs) => Ok((regs, SegmentBases { fs_base: regs.fs_base, gs_base: regs.gs_base })),
            Err(Errno::ESRCH) => Err(PtraceError::NoSuchProcess),
            Err(_) => Err(PtraceError::Failed),
        }
    }

    /// `PTRACE_SETREGS` through `nix::sys::ptrace::setregs`: loads `regs`
    /// into the general registers of thread `lwpid`. The request is recorded
    /// with `lwpid`, `regs` and its outcome, which is not otherwise stated.
    #[verifier::external_body]
    pub(crate) fn set_regs(&mut self, lwpid: i32, regs: user_regs_struct) -> (r: Result<(), PtraceError>)
        ensures
            final(self).extends(old(self), seq![(Access::SetRegs { lwpid, regs, result: r })]),
    {
        match ptrace::setregs(Pid::from_raw(lwpid), regs) {
            Ok(()) => Ok(()),
            Err(Errno::ESRCH) => Err(PtraceError::NoSuchProcess),
            Err(_) => Err(PtraceError::Failed),
        }
    }
}

} // verus!
