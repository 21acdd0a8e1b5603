//! What came of a system call.

use vstd::prelude::*;

verus! {

/// What came of a system call, as far as anything depends on it.
#[derive(Debug, Clone, Copy, PartialEq, Eq, Structural)]
pub enum SysResult {
    /// It succeeded.
    Done,
    /// The kernel does not have it.
    Unsupported,
    /// It is not permitted.
    Forbidden,
    /// It failed in another way. Holds the error number.
    Failed(i32),
}

/// The error number of an operation that is not permitted.
pub const NOT_PERMITTED: i32 = 1;

/// `libc::EPERM`, which is 1 on Linux.
#[verifier::external_body]
pub(crate) fn eperm() -> (r: i32)
    ensures
        r == NOT_PERMITTED,
{
    libc::EPERM
}

/// Whether a number is the error number of a system call that the kernel does not
/// have on some machine that Linux runs on.
pub open spec fn not_implemented(errno: i32) -> bool {
    errno == 38 || errno == 89 || errno == 90
}

/// `libc::ENOSYS`. On Linux it is 38, but for MIPS, where it is 89, and SPARC, where
/// it is 90. Which of them it is depends on the machine, and is left unsaid.
#[verifier::external_body]
fn enosys() -> (r: i32)
    ensures
        not_implemented(r),
{
    libc::ENOSYS
}

/// What a system call came to, given its return code, zero for success, the error
/// number it left, and the error number of a call that the kernel does not have.
pub open spec fn outcome(rc: i64, errno: i32, missing: i32) -> SysResult {
    if rc == 0 {
        SysResult::Done
    } else if errno == missing {
        SysResult::Unsupported
    } else if errno == NOT_PERMITTED {
        SysResult::Forbidden
    } else {
        SysResult::Failed(errno)
    }
}

/// Tells what a system call came to, given the error number of a call that the
/// kernel does not have.
pub fn classify(rc: i64, errno: i32, missing: i32) -> (r: SysResult)
    ensures
        r == outcome(rc, errno, missing),
{
    if rc == 0 {
        SysResult::Done
    } else if errno == missing {
        SysResult::Unsupported
    } else if errno == eperm() {
        SysResult::Forbidden
    } else {
        SysResult::Failed(errno)
    }
}

/// Tells what a system call came to on this machine.
pub fn sys_result(rc: i64, errno: i32) -> (r: SysResult)
    ensures
        exists|missing: i32|
            #[trigger] not_implemented(missing) && r == outcome(rc, errno, missing),
{
    let missing: i32 = enosys();
    classify(rc, errno, missing)
}

/// A system call succeeded exactly if it returned zero. Else its error number tells
/// what it came to, and is kept unless it is one of the two that are told apart.
pub proof fn error_numbers_are_told_apart(rc: i64, errno: i32, missing: i32)
    requires
        missing != 1,
    ensures
        outcome(rc, errno, missing) == SysResult::Done <==> rc == 0,
        outcome(rc, errno, missing) == SysResult::Unsupported <==> rc != 0 && errno == missing,
        outcome(rc, errno, missing) == SysResult::Forbidden <==> rc != 0 && errno == 1,
        outcome(rc, errno, missing) == SysResult::Failed(errno) <==> rc != 0 && errno != missing
            && errno != 1,
{
}

} // verus!
