//! Closing inherited file descriptors before a command is run.

use crate::syscall::SysResult;
use vstd::prelude::*;

verus! {

/// The first descriptor that is closed. Standard input, output and error stay
/// open.
pub const FIRST_CLOSED: u32 = 3;

/// The flag that gives the process a table of descriptors of its own before any is
/// closed.
pub const UNSHARE: u32 = 2;

/// How many descriptors are taken to be open where there is no limit.
pub const NO_LIMIT_FDS: u64 = 1_048_576;

/// What is to be done about descriptors.
#[derive(Debug, Clone, Copy, PartialEq, Eq, Structural)]
pub enum FdStage {
    /// Close the descriptors from `first` to `last` with one call, with these flags.
    CloseRange { first: u32, last: u32, flags: u32 },
    /// Ask for the limit on descriptors.
    ReadLimit,
    /// Close the descriptors from `from` up to but without `to`, one by one.
    CloseEach { from: i32, to: i32 },
    /// Nothing: all is done.
    Done,
    /// Nothing: it failed.
    Failed(SysResult),
}

/// `libc::CLOSE_RANGE_UNSHARE`, which is 2.
#[verifier::external_body]
fn close_range_unshare() -> (r: u32)
    ensures
        r == UNSHARE,
{
    libc::CLOSE_RANGE_UNSHARE
}

/// What is to be done first.
pub open spec fn first_fd_stage() -> FdStage {
    FdStage::CloseRange { first: FIRST_CLOSED, last: u32::MAX, flags: UNSHARE }
}

/// What is to be done first: close all descriptors but the standard ones, in a
/// table that is shared with nobody, so that no other thread can interfere.
pub fn close_fds_before_exec() -> (r: FdStage)
    ensures
        r == first_fd_stage(),
{
    FdStage::CloseRange { first: FIRST_CLOSED, last: u32::MAX, flags: close_range_unshare() }
}

/// What follows the one call. A kernel that does not have it leaves the
/// descriptors to be closed one by one.
pub fn after_close_range(result: SysResult) -> (r: FdStage)
    ensures
        r == (match result {
            SysResult::Done => FdStage::Done,
            SysResult::Unsupported => FdStage::ReadLimit,
            _ => FdStage::Failed(result),
        }),
{
    match result {
        SysResult::Done => FdStage::Done,
        SysResult::Unsupported => FdStage::ReadLimit,
        _ => FdStage::Failed(result),
    }
}

/// A number as a signed number of 32 bits: what is left of it in 32 bits, where
/// the upper half counts as negative.
pub open spec fn wrapped(x: int) -> int {
    let low = x % 0x1_0000_0000;
    if low >= 0x8000_0000 {
        low - 0x1_0000_0000
    } else {
        low
    }
}

/// What follows the question for the limit, which was answered with a limit, with
/// `None` for no limit, or not at all. The limit is taken as a descriptor number,
/// which has 32 bits.
pub fn after_limit(answer: Result<Option<u64>, SysResult>) -> (r: FdStage)
    ensures
        match answer {
            Ok(limit) => r matches FdStage::CloseEach { from, to } && from == FIRST_CLOSED && to
                == wrapped(
                match limit {
                    Some(n) => n as int,
                    None => NO_LIMIT_FDS as int,
                },
            ),
            Err(e) => r == FdStage::Failed(e),
        },
{
    let max: u64 = match answer {
        Ok(Some(n)) => n,
        Ok(None) => NO_LIMIT_FDS,
        Err(e) => {
            return FdStage::Failed(e);
        },
    };
    let low: i64 = (max % 0x1_0000_0000) as i64;
    let to: i32 = if low >= 0x8000_0000 {
        (low - 0x1_0000_0000) as i32
    } else {
        low as i32
    };
    FdStage::CloseEach { from: 3, to }
}

/// What came of the last thing that was done about descriptors.
#[derive(Debug, Clone, Copy, PartialEq, Eq, Structural)]
pub enum FdEvent {
    /// What came of a system call.
    Changed(SysResult),
    /// The limit on descriptors, `None` for no limit.
    Limit(Option<u64>),
}

/// What follows a stage. Closing descriptors one by one cannot fail, since some of
/// them are not open to begin with. An event that does not answer the stage changes
/// nothing.
pub open spec fn next_fd_stage(stage: FdStage, event: FdEvent) -> FdStage {
    match (stage, event) {
        (FdStage::CloseRange { .. }, FdEvent::Changed(r)) => if r == SysResult::Done {
            FdStage::Done
        } else if r == SysResult::Unsupported {
            FdStage::ReadLimit
        } else {
            FdStage::Failed(r)
        },
        (FdStage::ReadLimit, FdEvent::Limit(limit)) => FdStage::CloseEach {
            from: FIRST_CLOSED as i32,
            to: wrapped(
                match limit {
                    Some(n) => n as int,
                    None => NO_LIMIT_FDS as int,
                },
            ) as i32,
        },
        (FdStage::ReadLimit, FdEvent::Changed(r)) => FdStage::Failed(r),
        (FdStage::CloseEach { .. }, FdEvent::Changed(_)) => FdStage::Done,
        _ => stage,
    }
}

/// Decides what follows a stage.
pub fn close_fds(stage: FdStage, event: FdEvent) -> (r: FdStage)
    ensures
        r == next_fd_stage(stage, event),
{
    match (stage, event) {
        (FdStage::CloseRange { .. }, FdEvent::Changed(r)) => after_close_range(r),
        (FdStage::ReadLimit, FdEvent::Limit(limit)) => after_limit(Ok(limit)),
        (FdStage::ReadLimit, FdEvent::Changed(r)) => after_limit(Err(r)),
        (FdStage::CloseEach { .. }, FdEvent::Changed(_)) => FdStage::Done,
        _ => stage,
    }
}

/// A limit that is a descriptor number closes exactly the descriptors from the
/// first that is not standard up to the limit.
pub proof fn ordinary_limits_are_kept(n: u64)
    requires
        n <= i32::MAX,
    ensures
        wrapped(n as int) == n,
{
}

/// All descriptors but standard input, output and error are closed by the first
/// call.
pub proof fn all_but_the_standard_descriptors_are_closed(fd: u32)
    ensures
        first_fd_stage() matches FdStage::CloseRange { first, last, flags } && (first <= fd <= last
            <==> fd != 0 && fd != 1 && fd != 2) && flags == 2,
{
}

/// How descriptors are closed, step by step: one call is enough where the kernel has
/// it, else they are closed one by one up to the limit, or up to 1048576 where there
/// is none. Any other failure of the call, or of asking for the limit, ends it.
pub proof fn descriptors_are_closed_step_by_step(
    first: u32,
    last: u32,
    flags: u32,
    from: i32,
    to: i32,
    r: SysResult,
    n: u64,
)
    ensures
        next_fd_stage(FdStage::CloseRange { first, last, flags }, FdEvent::Changed(r)) == (match r {
            SysResult::Done => FdStage::Done,
            SysResult::Unsupported => FdStage::ReadLimit,
            SysResult::Forbidden => FdStage::Failed(r),
            SysResult::Failed(_) => FdStage::Failed(r),
        }),
        next_fd_stage(FdStage::ReadLimit, FdEvent::Changed(r)) == FdStage::Failed(r),
        next_fd_stage(FdStage::ReadLimit, FdEvent::Limit(None)) == (FdStage::CloseEach {
            from: 3,
            to: 1_048_576,
        }),
        n <= i32::MAX ==> next_fd_stage(FdStage::ReadLimit, FdEvent::Limit(Some(n)))
            == (FdStage::CloseEach { from: 3, to: n as i32 }),
        next_fd_stage(FdStage::CloseEach { from, to }, FdEvent::Changed(r)) == FdStage::Done,
{
}

/// A number that does not fit is cut down to the one number of 32 bits that differs
/// from it by a multiple of their range.
pub proof fn numbers_wrap_around(x: int)
    ensures
        i32::MIN <= wrapped(x) <= i32::MAX,
        (wrapped(x) - x) % 0x1_0000_0000 == 0,
{
}

} // verus!
