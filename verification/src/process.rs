//! Process-level services: the inferior's pid and global symbol lookup.
use vstd::prelude::*;
use crate::error::PsErr;
use crate::handle::ProcHandle;
use crate::symbols::{find_symbol, lookup_symbol};

verus! {

/// `ps_getpid`: the process id of the inferior.
pub fn ps_getpid(handle: &ProcHandle) -> (pid: i32)
    ensures
        pid == handle.process(),
{
    handle.pid()
}

/// `ps_pglobal_lookup`: the address of symbol `sym_name` in the inferior.
/// Every loaded object is searched, whatever `object_name` says; the first
/// object in table order that defines the symbol gives its address, which
/// is stored in `sym_addr`. `NoSym` answers a symbol that no object
/// defines, and `sym_addr` is then left as it was.
pub fn ps_pglobal_lookup(
    handle: &ProcHandle,
    object_name: &str,
    sym_name: &str,
    sym_addr: &mut usize,
) -> (r: PsErr)
    ensures
        match find_symbol(handle.symbol_tables(), sym_name@) {
            Some(a) => r == PsErr::Success && *final(sym_addr) == a,
            None => r == PsErr::NoSym && *final(sym_addr) == *old(sym_addr),
        },
{
    let _ = object_name;
    let name = sym_name.to_owned();
    match lookup_symbol(handle.symbols(), &name) {
        Some(a) => {
            *sym_addr = a;
            PsErr::Success
        },
        None => PsErr::NoSym,
    }
}

} // verus!
