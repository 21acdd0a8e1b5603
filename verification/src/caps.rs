//! Giving up the capabilities of the process.

use crate::syscall::SysResult;
use crate::text::{
    blank, chars_of, parse_u32_range, parsed_u32, trim, trim_range, trimming_takes_off_white_space,
    white_space,
};
use vstd::prelude::*;

verus! {

/// The capability to change capability sets, which dropping from the bounding set
/// takes.
pub const CAP_SETPCAP: u32 = 8;

/// The last capability where the kernel does not say.
pub const DEFAULT_LAST_CAP: u32 = 63;

/// The version of the capability interface, with 64 capabilities in two words.
pub const CAPABILITY_VERSION: u32 = 0x20080522;

/// One word of each of the three capability sets.
#[derive(Debug, Clone, Copy, PartialEq, Eq, Structural)]
pub struct CapData {
    pub effective: u32,
    pub permitted: u32,
    pub inheritable: u32,
}

/// Whether a capability is in a set of two words.
pub open spec fn in_set(words: Seq<u32>, cap: u32) -> bool {
    cap < 64 && words[cap as int / 32] & (1u32 << (cap % 32)) != 0
}

/// Whether a capability is in the effective set, given its two words.
pub fn have_cap_in_effective(low: u32, high: u32, cap: u32) -> (r: bool)
    ensures
        r == in_set(seq![low, high], cap),
{
    let word: u32 = cap / 32;
    let bit: u32 = 1u32 << (cap % 32);
    if word == 0 {
        low & bit != 0
    } else if word == 1 {
        high & bit != 0
    } else {
        false
    }
}

/// The capability data that clears all sets.
pub fn clear_capsets() -> (r: [CapData; 2])
    ensures
        forall|i: int| 0 <= i < 2 ==> (#[trigger] r@[i]) == (CapData {
            effective: 0,
            permitted: 0,
            inheritable: 0,
        }),
{
    let none = CapData { effective: 0, permitted: 0, inheritable: 0 };
    [none, none]
}

/// Cleared sets hold no capability.
pub proof fn cleared_sets_are_empty(words: Seq<u32>, cap: u32)
    requires
        words == seq![0u32, 0u32],
    ensures
        !in_set(words, cap),
{
    let bit = 1u32 << (cap % 32);
    assert(0u32 & bit == 0) by (bit_vector);
}

/// The number of the last capability, given the text in which the kernel says it.
pub open spec fn last_cap(text: Option<Seq<char>>) -> u32 {
    match text {
        Some(s) => match parsed_u32(trim(s)) {
            Some(n) => n,
            None => DEFAULT_LAST_CAP,
        },
        None => DEFAULT_LAST_CAP,
    }
}

/// Reads the number of the last capability. Where the kernel does not say, or
/// says no number, it is taken to be the last that there is room for.
pub fn read_last_cap(text: &Option<String>) -> (r: u32)
    ensures
        r == last_cap(
            match *text {
                Some(s) => Some(s@),
                None => None,
            },
        ),
{
    match text {
        Some(s) => {
            let chars = chars_of(s.as_str());
            assert(chars@.subrange(0, chars@.len() as int) =~= s@);
            let (a, b) = trim_range(&chars, 0, chars.len());
            match parse_u32_range(&chars, a, b) {
                Some(n) => n,
                None => DEFAULT_LAST_CAP,
            }
        },
        None => DEFAULT_LAST_CAP,
    }
}

/// Where the giving up of capabilities stands: what is to be done next.
#[derive(Debug, Clone, Copy, PartialEq, Eq, Structural)]
pub enum CapStage {
    /// Clear the ambient set.
    ClearAmbient,
    /// Read the effective set.
    ReadEffective,
    /// Read which capability is the last.
    ReadLast,
    /// Drop `cap` from the bounding set, which goes up to `last`.
    DropBounding { cap: u32, last: u32 },
    /// Clear the effective, permitted and inheritable sets.
    ClearSets,
    /// Nothing: all is done.
    Done,
    /// Nothing: it failed. Holds what came of the call that failed.
    Failed(SysResult),
}

/// What came of the last thing that was done.
#[derive(Debug, Clone, Copy, PartialEq, Eq, Structural)]
pub enum CapEvent {
    /// What came of a system call that changes something.
    Changed(SysResult),
    /// The two words of the effective set.
    Effective { low: u32, high: u32 },
    /// The last capability.
    Last(u32),
}

/// What follows a stage. The ambient set may be missing from the kernel. The
/// bounding set comes before the other sets are cleared, since clearing them
/// gives up the capability that it takes; without that capability, or as soon as
/// the kernel forbids it, the bounding set is left as it is. Anything else that
/// goes wrong ends it, and an event that does not answer the stage changes
/// nothing.
pub open spec fn next_stage(stage: CapStage, event: CapEvent) -> CapStage {
    match (stage, event) {
        (CapStage::ClearAmbient, CapEvent::Changed(r)) => if r == SysResult::Done || r
            == SysResult::Unsupported {
            CapStage::ReadEffective
        } else {
            CapStage::Failed(r)
        },
        (CapStage::ReadEffective, CapEvent::Effective { low, high }) => if in_set(
            seq![low, high],
            CAP_SETPCAP,
        ) {
            CapStage::ReadLast
        } else {
            CapStage::ClearSets
        },
        (CapStage::ReadLast, CapEvent::Last(last)) => CapStage::DropBounding { cap: 0, last },
        (CapStage::DropBounding { cap, last }, CapEvent::Changed(r)) => if r == SysResult::Done {
            if cap < last {
                CapStage::DropBounding { cap: (cap + 1) as u32, last }
            } else {
                CapStage::ClearSets
            }
        } else if r == SysResult::Forbidden {
            CapStage::ClearSets
        } else {
            CapStage::Failed(r)
        },
        (CapStage::ClearSets, CapEvent::Changed(r)) => if r == SysResult::Done {
            CapStage::Done
        } else {
            CapStage::Failed(r)
        },
        (CapStage::ReadEffective, CapEvent::Changed(r)) => CapStage::Failed(r),
        _ => stage,
    }
}

/// Decides what follows a stage.
pub fn drop_caps(stage: CapStage, event: CapEvent) -> (r: CapStage)
    ensures
        r == next_stage(stage, event),
{
    match (stage, event) {
        (CapStage::ClearAmbient, CapEvent::Changed(r)) => match r {
            SysResult::Done | SysResult::Unsupported => CapStage::ReadEffective,
            _ => CapStage::Failed(r),
        },
        (CapStage::ReadEffective, CapEvent::Effective { low, high }) => if have_cap_in_effective(
            low,
            high,
            CAP_SETPCAP,
        ) {
            CapStage::ReadLast
        } else {
            CapStage::ClearSets
        },
        (CapStage::ReadLast, CapEvent::Last(last)) => CapStage::DropBounding { cap: 0, last },
        (CapStage::DropBounding { cap, last }, CapEvent::Changed(r)) => match r {
            SysResult::Done => if cap < last {
                CapStage::DropBounding { cap: cap + 1, last }
            } else {
                CapStage::ClearSets
            },
            SysResult::Forbidden => CapStage::ClearSets,
            _ => CapStage::Failed(r),
        },
        (CapStage::ClearSets, CapEvent::Changed(r)) => match r {
            SysResult::Done => CapStage::Done,
            _ => CapStage::Failed(r),
        },
        (CapStage::ReadEffective, CapEvent::Changed(r)) => CapStage::Failed(r),
        _ => stage,
    }
}

/// The stage after a sequence of events.
pub open spec fn after(stage: CapStage, events: Seq<CapEvent>) -> CapStage
    decreases events.len(),
{
    if events.len() == 0 {
        stage
    } else {
        next_stage(after(stage, events.drop_last()), events.last())
    }
}

/// The events of a run in which the effective set has these words, and `n` drops
/// from the bounding set have succeeded.
pub open spec fn drops(low: u32, high: u32, last: u32, n: nat) -> Seq<CapEvent> {
    seq![
        CapEvent::Changed(SysResult::Done),
        CapEvent::Effective { low, high },
        CapEvent::Last(last),
    ] + Seq::new(n, |i: int| CapEvent::Changed(SysResult::Done))
}

/// A process that may change the bounding set drops every capability from it, one
/// after the other, from the first to the last, and then clears its other sets.
pub proof fn bounding_set_is_emptied(low: u32, high: u32, last: u32, n: nat)
    requires
        in_set(seq![low, high], CAP_SETPCAP),
        n <= last + 1,
    ensures
        n <= last ==> after(CapStage::ClearAmbient, drops(low, high, last, n)) == (CapStage::DropBounding {
            cap: n as u32,
            last,
        }),
        n == last + 1 ==> after(CapStage::ClearAmbient, drops(low, high, last, n)) == CapStage::ClearSets,
    decreases n,
{
    let events = drops(low, high, last, n);
    if n == 0 {
        let one = events.drop_last().drop_last();
        assert(one.drop_last() =~= Seq::<CapEvent>::empty());
        assert(after(CapStage::ClearAmbient, one.drop_last()) == CapStage::ClearAmbient);
        assert(after(CapStage::ClearAmbient, one) == CapStage::ReadEffective);
        assert(after(CapStage::ClearAmbient, events.drop_last()) == CapStage::ReadLast);
    } else {
        bounding_set_is_emptied(low, high, last, (n - 1) as nat);
        assert(events.drop_last() =~= drops(low, high, last, (n - 1) as nat));
        assert(events.last() == CapEvent::Changed(SysResult::Done));
    }
}

/// Whether the effective, permitted and inheritable sets are cleared by event `k`.
pub open spec fn clears_sets(events: Seq<CapEvent>, k: int) -> bool {
    &&& 0 <= k < events.len()
    &&& after(CapStage::ClearAmbient, events.take(k)) == CapStage::ClearSets
    &&& events[k] == CapEvent::Changed(SysResult::Done)
}

/// However it went, it is done only once the effective, permitted and inheritable
/// sets have been cleared.
pub proof fn done_means_sets_are_cleared(events: Seq<CapEvent>)
    requires
        after(CapStage::ClearAmbient, events) == CapStage::Done,
    ensures
        exists|k: int| clears_sets(events, k),
    decreases events.len(),
{
    let front = events.drop_last();
    let n = events.len() - 1;
    assert(front =~= events.take(n));
    if after(CapStage::ClearAmbient, front) == CapStage::Done {
        done_means_sets_are_cleared(front);
        let k = choose|k: int| clears_sets(front, k);
        assert(front.take(k) =~= events.take(k));
        assert(clears_sets(events, k));
    } else {
        assert(clears_sets(events, n));
    }
}

/// A failure is final.
pub proof fn failure_is_final(stage: CapStage, events: Seq<CapEvent>, more: Seq<CapEvent>)
    requires
        after(stage, events) is Failed,
    ensures
        after(stage, events + more) is Failed,
    decreases more.len(),
{
    if more.len() == 0 {
        assert(events + more =~= events);
    } else {
        assert((events + more).drop_last() =~= events + more.drop_last());
        failure_is_final(stage, events, more.drop_last());
    }
}

/// The two words of a set are the lower and the upper half of 64 bits, one for each
/// capability.
pub proof fn capabilities_are_bits(low: u32, high: u32, cap: u32)
    ensures
        cap >= 64 ==> !in_set(seq![low, high], cap),
        cap < 64 ==> (in_set(seq![low, high], cap) <==> (((high as u64) << 32u64) | (low as u64))
            & (1u64 << (cap as u64)) != 0),
{
    if cap < 32 {
        assert(cap as int / 32 == 0);
        assert((low & (1u32 << (cap % 32)) != 0) <==> ((((high as u64) << 32u64) | (low as u64))
            & (1u64 << (cap as u64)) != 0)) by (bit_vector)
            requires
                cap < 32,
        ;
    } else if cap < 64 {
        assert(cap as int / 32 == 1);
        assert((high & (1u32 << (cap % 32)) != 0) <==> ((((high as u64) << 32u64) | (low as u64))
            & (1u64 << (cap as u64)) != 0)) by (bit_vector)
            requires
                32 <= cap < 64,
        ;
    }
}

/// How capabilities are given up, step by step. A kernel without an ambient set is
/// fine. With capability 8 in the effective set every capability up to the last is
/// dropped from the bounding set, in order, until the kernel forbids it; without it
/// none is. Then the other sets are cleared. Whatever else goes wrong ends it.
pub proof fn capabilities_are_given_up_step_by_step(
    r: SysResult,
    low: u32,
    high: u32,
    cap: u32,
    last: u32,
)
    ensures
        next_stage(CapStage::ClearAmbient, CapEvent::Changed(r)) == (match r {
            SysResult::Done => CapStage::ReadEffective,
            SysResult::Unsupported => CapStage::ReadEffective,
            SysResult::Forbidden => CapStage::Failed(r),
            SysResult::Failed(_) => CapStage::Failed(r),
        }),
        next_stage(CapStage::ReadEffective, CapEvent::Effective { low, high }) == (if low & 0x100
            != 0 {
            CapStage::ReadLast
        } else {
            CapStage::ClearSets
        }),
        next_stage(CapStage::ReadLast, CapEvent::Last(last)) == (CapStage::DropBounding {
            cap: 0,
            last,
        }),
        next_stage(CapStage::DropBounding { cap, last }, CapEvent::Changed(r)) == (match r {
            SysResult::Done => if cap < last {
                CapStage::DropBounding { cap: (cap + 1) as u32, last }
            } else {
                CapStage::ClearSets
            },
            SysResult::Forbidden => CapStage::ClearSets,
            SysResult::Unsupported => CapStage::Failed(r),
            SysResult::Failed(_) => CapStage::Failed(r),
        }),
        next_stage(CapStage::ClearSets, CapEvent::Changed(r)) == (if r == SysResult::Done {
            CapStage::Done
        } else {
            CapStage::Failed(r)
        }),
{
    assert(1u32 << (8u32 % 32) == 0x100) by (bit_vector);
    assert(8 as int / 32 == 0);
}

/// The last capability is the number that the kernel's text holds, with white space
/// around it or not, and 63 where there is no text or no number in it.
pub proof fn the_last_capability_is_read(before: Seq<char>, body: Seq<char>, after: Seq<char>)
    requires
        blank(before),
        blank(after),
        body.len() > 0 ==> !white_space(body[0]) && !white_space(body.last()),
    ensures
        parsed_u32(body) matches Some(n) ==> last_cap(Some(before + body + after)) == n,
        parsed_u32(body) is None ==> last_cap(Some(before + body + after)) == 63,
        last_cap(None) == 63,
{
    trimming_takes_off_white_space(before, body, after);
}

} // verus!
