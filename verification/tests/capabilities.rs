use restricted_exec::caps::{
    clear_capsets, drop_caps, have_cap_in_effective, read_last_cap, CapData, CapEvent, CapStage,
};
use restricted_exec::fds::{
    after_close_range, after_limit, close_fds, close_fds_before_exec, FdEvent, FdStage,
};
use restricted_exec::syscall::{classify, sys_result, SysResult};

const DONE: CapEvent = CapEvent::Changed(SysResult::Done);
const SETPCAP: CapEvent = CapEvent::Effective { low: 0x100, high: 0 };

fn run(events: &[CapEvent]) -> CapStage {
    let mut stage = CapStage::ClearAmbient;
    for e in events {
        stage = drop_caps(stage, *e);
    }
    stage
}

#[test]
fn capabilities_are_bits_of_two_words() {
    assert!(have_cap_in_effective(0x100, 0, 8));
    assert!(!have_cap_in_effective(0x100, 0, 9));
    assert!(have_cap_in_effective(0, 0x100, 40));
    assert!(!have_cap_in_effective(0x100, 0, 40));
    assert!(have_cap_in_effective(0, 0x8000_0000, 63));
    assert!(!have_cap_in_effective(u32::MAX, u32::MAX, 64));
    assert!(!have_cap_in_effective(u32::MAX, u32::MAX, u32::MAX));
}

#[test]
fn cleared_sets_hold_nothing() {
    let none = CapData { effective: 0, permitted: 0, inheritable: 0 };
    assert_eq!(clear_capsets(), [none, none]);
    for cap in 0..70 {
        assert!(!have_cap_in_effective(0, 0, cap));
    }
}

#[test]
fn the_last_capability_is_read_or_guessed() {
    assert_eq!(read_last_cap(&Some("40\n".to_string())), 40);
    assert_eq!(read_last_cap(&Some(" +41 ".to_string())), 41);
    assert_eq!(read_last_cap(&Some("forty".to_string())), 63);
    assert_eq!(read_last_cap(&Some("".to_string())), 63);
    assert_eq!(read_last_cap(&Some("4294967296".to_string())), 63);
    assert_eq!(read_last_cap(&None), 63);
}

#[test]
fn the_bounding_set_is_dropped_before_the_others_are_cleared() {
    assert_eq!(run(&[]), CapStage::ClearAmbient);
    assert_eq!(run(&[DONE]), CapStage::ReadEffective);
    assert_eq!(run(&[DONE, SETPCAP]), CapStage::ReadLast);
    let last = CapEvent::Last(2);
    assert_eq!(run(&[DONE, SETPCAP, last]), CapStage::DropBounding { cap: 0, last: 2 });
    assert_eq!(run(&[DONE, SETPCAP, last, DONE]), CapStage::DropBounding { cap: 1, last: 2 });
    assert_eq!(run(&[DONE, SETPCAP, last, DONE, DONE]), CapStage::DropBounding { cap: 2, last: 2 });
    assert_eq!(run(&[DONE, SETPCAP, last, DONE, DONE, DONE]), CapStage::ClearSets);
    assert_eq!(run(&[DONE, SETPCAP, last, DONE, DONE, DONE, DONE]), CapStage::Done);
}

#[test]
fn without_the_capability_the_bounding_set_is_left() {
    let without = CapEvent::Effective { low: !0x100, high: u32::MAX };
    assert_eq!(run(&[DONE, without]), CapStage::ClearSets);
    assert_eq!(run(&[DONE, without, DONE]), CapStage::Done);
}

#[test]
fn a_forbidden_drop_stops_the_drops_only() {
    let forbidden = CapEvent::Changed(SysResult::Forbidden);
    let events = [DONE, SETPCAP, CapEvent::Last(40), DONE, forbidden];
    assert_eq!(run(&events), CapStage::ClearSets);
}

#[test]
fn a_kernel_without_ambient_set_is_fine() {
    assert_eq!(run(&[CapEvent::Changed(SysResult::Unsupported)]), CapStage::ReadEffective);
}

#[test]
fn other_failures_end_it() {
    let failed = SysResult::Failed(22);
    let event = CapEvent::Changed(failed);
    assert_eq!(run(&[event]), CapStage::Failed(failed));
    assert_eq!(run(&[event, DONE, SETPCAP, DONE]), CapStage::Failed(failed));
    assert_eq!(run(&[DONE, event]), CapStage::Failed(failed));
    assert_eq!(run(&[DONE, SETPCAP, CapEvent::Last(1), event]), CapStage::Failed(failed));
    let without = CapEvent::Effective { low: 0, high: 0 };
    assert_eq!(run(&[DONE, without, event]), CapStage::Failed(failed));
    let forbidden = CapEvent::Changed(SysResult::Forbidden);
    assert_eq!(run(&[forbidden]), CapStage::Failed(SysResult::Forbidden));
    let missing = CapEvent::Changed(SysResult::Unsupported);
    let events = [DONE, SETPCAP, CapEvent::Last(1), missing];
    assert_eq!(run(&events), CapStage::Failed(SysResult::Unsupported));
}

#[test]
fn standard_descriptors_stay_open() {
    assert_eq!(close_fds_before_exec(), FdStage::CloseRange { first: 3, last: u32::MAX, flags: 2 });
    assert_eq!(after_close_range(SysResult::Done), FdStage::Done);
}

#[test]
fn old_kernels_close_descriptors_one_by_one() {
    assert_eq!(after_close_range(SysResult::Unsupported), FdStage::ReadLimit);
    assert_eq!(after_limit(Ok(Some(1024))), FdStage::CloseEach { from: 3, to: 1024 });
    assert_eq!(after_limit(Ok(None)), FdStage::CloseEach { from: 3, to: 1_048_576 });
    assert_eq!(after_limit(Ok(Some(2))), FdStage::CloseEach { from: 3, to: 2 });
}

#[test]
fn limits_wrap_as_casts_do() {
    for n in [0u64, 1, 0x7fff_ffff, 0x8000_0000, 0xffff_ffff, 0x1_0000_0000, u64::MAX] {
        assert_eq!(after_limit(Ok(Some(n))), FdStage::CloseEach { from: 3, to: n as i32 });
    }
}

#[test]
fn descriptor_failures_are_reported() {
    let failed = SysResult::Failed(9);
    assert_eq!(after_close_range(failed), FdStage::Failed(failed));
    assert_eq!(after_close_range(SysResult::Forbidden), FdStage::Failed(SysResult::Forbidden));
    assert_eq!(after_limit(Err(failed)), FdStage::Failed(failed));
}

#[test]
fn descriptors_are_closed_in_a_table_of_its_own() {
    match close_fds_before_exec() {
        FdStage::CloseRange { flags, .. } => assert_eq!(flags, libc::CLOSE_RANGE_UNSHARE),
        other => panic!("{:?}", other),
    }
}

#[test]
fn error_numbers_tell_what_a_call_came_to() {
    assert_eq!(sys_result(0, libc::EPERM), SysResult::Done);
    assert_eq!(sys_result(-1, libc::ENOSYS), SysResult::Unsupported);
    assert_eq!(sys_result(-1, libc::EPERM), SysResult::Forbidden);
    assert_eq!(sys_result(-1, libc::EINVAL), SysResult::Failed(22));
    assert_eq!(sys_result(-1, 0), SysResult::Failed(0));
}

#[test]
fn the_number_of_a_missing_call_is_the_machine_s() {
    assert_eq!(classify(-1, 38, 38), SysResult::Unsupported);
    assert_eq!(classify(-1, 38, 89), SysResult::Failed(38));
    assert_eq!(classify(-1, 89, 89), SysResult::Unsupported);
    assert_eq!(classify(0, 89, 89), SysResult::Done);
    assert_eq!(classify(-1, 1, 90), SysResult::Forbidden);
}

#[test]
fn descriptor_events_lead_on() {
    let first = close_fds_before_exec();
    assert_eq!(close_fds(first, FdEvent::Changed(SysResult::Done)), FdStage::Done);
    let failed = FdEvent::Changed(SysResult::Failed(9));
    assert_eq!(close_fds(first, failed), FdStage::Failed(SysResult::Failed(9)));
    assert_eq!(close_fds(FdStage::ReadLimit, failed), FdStage::Failed(SysResult::Failed(9)));
    let each = FdStage::CloseEach { from: 3, to: 1_048_576 };
    assert_eq!(close_fds(FdStage::ReadLimit, FdEvent::Limit(None)), each);
    assert_eq!(close_fds(each, failed), FdStage::Done);
    assert_eq!(close_fds(FdStage::Done, failed), FdStage::Done);
    assert_eq!(close_fds(first, FdEvent::Limit(None)), first);
}
