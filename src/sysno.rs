//! System call numbers, checked against the platform's table.

use vstd::prelude::*;
use syscalls::Sysno;
use crate::error::ScxError;

verus! {

/// A system call of the platform this crate was built for, as the
/// `syscalls` crate names it.
#[verifier::external_type_specification]
#[verifier::external_body]
pub struct ExSysno(Sysno);

/// The number `id` names a system call in the build target's table.
pub uninterp spec fn sysno_known(id: usize) -> bool;

/// Relies on `syscalls::Sysno::new`: a match over the build target's table
/// of system calls, `Some` exactly for the numbers in it.
#[verifier::external_body]
fn lookup_sysno(id: usize) -> (r: Option<Sysno>)
    ensures
        r.is_some() == sysno_known(id),
{
    Sysno::new(id)
}

/// The system call numbered `id`, or `UnknownSyscall` where the platform
/// has none of that number.
pub fn resolve_sysno(id: usize) -> (r: Result<Sysno, ScxError>)
    ensures
        r is Ok <==> sysno_known(id),
        r is Err ==> r == Err::<Sysno, ScxError>(ScxError::UnknownSyscall),
{
    match lookup_sysno(id) {
        Some(s) => Ok(s),
        None => Err(ScxError::UnknownSyscall),
    }
}

} // verus!
