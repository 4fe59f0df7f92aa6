use vstd::prelude::*;
use vstd::std_specs::convert::FromSpecImpl;

verus! {

/// Status code of a `proc_service` call, in the order of `ps_err_e` in
/// `<proc_service.h>`.
#[derive(Debug, Clone, Copy, PartialEq, Eq, Structural)]
pub enum PsErr {
    /// Generic "call succeeded" (`PS_OK`).
    Success,
    /// Generic error (`PS_ERR`).
    Error,
    /// Bad process handle.
    BadPID,
    /// Bad LWP identifier.
    BadLID,
    /// Bad address.
    BadAddr,
    /// Could not find given symbol.
    NoSym,
    /// FPU register set not available for given LWP.
    NoFRegs,
}

/// The status that a result collapses to: any success is `Success`, any failure `Error`.
pub open spec fn status_of<T, E>(r: Result<T, E>) -> PsErr {
    match r {
        Ok(_) => PsErr::Success,
        Err(_) => PsErr::Error,
    }
}

impl<T, E> From<Result<T, E>> for PsErr {
    fn from(r: Result<T, E>) -> (s: Self) {
        match r {
            Ok(_) => PsErr::Success,
            Err(_) => PsErr::Error,
        }
    }
}

impl<T, E> FromSpecImpl<Result<T, E>> for PsErr {
    open spec fn obeys_from_spec() -> bool {
        true
    }

    open spec fn from_spec(r: Result<T, E>) -> PsErr {
        status_of(r)
    }
}

} // verus!
