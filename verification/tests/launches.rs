use restricted_exec::allow::Probe;
use restricted_exec::caps::{CapEvent, CapStage};
use restricted_exec::fds::{FdEvent, FdStage};
use restricted_exec::launch::{landlock_requested, level_name, Args, Launch, LogLevel, Reading, Stage};
use restricted_exec::ruleset::{Enforcement, NetOptions, RulesetCall};
use restricted_exec::syscall::SysResult;
use restricted_exec::user::UserInfo;

fn plain() -> Args {
    Args {
        user: None,
        ro: vec![],
        rox: vec![],
        rw: vec![],
        rwx: vec![],
        default_libs: false,
        resolve_libs: false,
        allow_nss: false,
        net: NetOptions {
            connect_ports: vec![],
            bind_ports: vec![],
            deny_connect: false,
            deny_bind: false,
            scope_abstract_unix_socket: false,
        },
        drop_caps: false,
        seccomp_filter: vec![],
        seccomp_allow: vec![],
        allow_new_privs: false,
        log_level: LogLevel::Warn,
        cmd: vec![b"ls".to_vec()],
    }
}

fn everything() -> Args {
    Args {
        user: Some("nobody".to_string()),
        ro: vec![b"/etc".to_vec()],
        rox: vec![b"/usr/bin".to_vec()],
        rw: vec![b"/tmp".to_vec()],
        rwx: vec![b"/opt".to_vec()],
        default_libs: true,
        resolve_libs: true,
        allow_nss: true,
        drop_caps: true,
        seccomp_filter: vec!["@default".to_string()],
        ..plain()
    }
}

fn resolve_ls(launch: &mut Launch) {
    launch.command_resolved(b"/usr/bin/ls", &None);
}

fn nobody() -> UserInfo {
    UserInfo { name: b"nobody".to_vec(), uid: 65534, gid: 65534, groups: vec![65534] }
}

fn all_there(launch: &Launch, found: &Vec<Vec<u8>>) -> Vec<Probe> {
    launch
        .requests(found)
        .iter()
        .map(|r| Probe { exists: true, canonical: Some(r.path.clone()) })
        .collect()
}

/// Clears all capability sets of a process that may not change the bounding set.
fn drop_all_caps(launch: &mut Launch) {
    launch.caps_event(CapEvent::Changed(SysResult::Done));
    launch.caps_event(CapEvent::Effective { low: 0, high: 0 });
    launch.caps_event(CapEvent::Changed(SysResult::Done));
}

/// Takes every step with success, up to executing, and tells the steps.
fn run(args: Args) -> (Launch, Vec<Stage>) {
    let mut launch = Launch::new(args);
    let mut stages = vec![];
    loop {
        stages.push(launch.stage());
        match launch.stage() {
            Stage::ResolveUser => launch.user_resolved(nobody()),
            Stage::ResolveCommand => resolve_ls(&mut launch),
            Stage::AllowPaths
            | Stage::AllowInterpreter
            | Stage::AllowDefaultLibs
            | Stage::AllowLoader
            | Stage::AllowLibraries
            | Stage::AllowNss => {
                let probes = all_there(&launch, &vec![]);
                assert!(launch.grant(&vec![], &probes).is_ok());
            },
            Stage::EnforceLandlock => launch.enforced(Enforcement::Fully),
            Stage::DropCaps => drop_all_caps(&mut launch),
            Stage::CloseFds => launch.fds_event(FdEvent::Changed(SysResult::Done)),
            Stage::Exec | Stage::Failed => return (launch, stages),
            _ => launch.advance(true),
        }
    }
}

#[test]
fn a_plain_launch_takes_few_steps() {
    let (launch, stages) = run(plain());
    assert_eq!(
        stages,
        [Stage::ResolveCommand, Stage::NoNewPrivs, Stage::CloseFds, Stage::Exec]
    );
    assert_eq!(launch.allow().len(), 0);
    assert!(launch.user().is_none());
    assert_eq!(launch.command().unwrap().path, b"/usr/bin/ls".to_vec());
    assert_eq!(launch.args().cmd, vec![b"ls".to_vec()]);
}

#[test]
fn a_full_launch_takes_every_step_in_order() {
    let (launch, stages) = run(everything());
    assert_eq!(
        stages,
        [
            Stage::ResolveUser,
            Stage::ResolveCommand,
            Stage::AllowPaths,
            Stage::AllowInterpreter,
            Stage::AllowDefaultLibs,
            Stage::AllowLoader,
            Stage::AllowLibraries,
            Stage::AllowNss,
            Stage::EnforceLandlock,
            Stage::NoNewPrivs,
            Stage::DropCaps,
            Stage::InstallSeccomp,
            Stage::SetGroups,
            Stage::SetGids,
            Stage::SetUids,
            Stage::CloseFds,
            Stage::Exec,
        ]
    );
    assert_eq!(launch.user().unwrap().uid, 65534);
}

#[test]
fn new_privileges_are_ruled_out_unless_asked_for() {
    let (_, stages) = run(Args { allow_new_privs: true, ..plain() });
    assert_eq!(stages, [Stage::ResolveCommand, Stage::CloseFds, Stage::Exec]);
}

#[test]
fn landlock_is_used_as_soon_as_anything_takes_it() {
    assert!(!landlock_requested(&plain()));
    assert!(!landlock_requested(&Args { drop_caps: true, allow_new_privs: true, ..plain() }));
    assert!(landlock_requested(&Args { ro: vec![b"/".to_vec()], ..plain() }));
    assert!(landlock_requested(&Args { rox: vec![b"/".to_vec()], ..plain() }));
    assert!(landlock_requested(&Args { rw: vec![b"/".to_vec()], ..plain() }));
    assert!(landlock_requested(&Args { rwx: vec![b"/".to_vec()], ..plain() }));
    assert!(landlock_requested(&Args { default_libs: true, ..plain() }));
    assert!(landlock_requested(&Args { resolve_libs: true, ..plain() }));
    assert!(landlock_requested(&Args { allow_nss: true, ..plain() }));
    let net = |connect: Vec<u16>, bind: Vec<u16>, dc: bool, db: bool, scope: bool| NetOptions {
        connect_ports: connect,
        bind_ports: bind,
        deny_connect: dc,
        deny_bind: db,
        scope_abstract_unix_socket: scope,
    };
    for net in [
        net(vec![443], vec![], false, false, false),
        net(vec![], vec![80], false, false, false),
        net(vec![], vec![], true, false, false),
        net(vec![], vec![], false, true, false),
        net(vec![], vec![], false, false, true),
    ] {
        assert!(landlock_requested(&Args { net, ..plain() }));
    }
}

#[test]
fn paths_are_requested_with_the_rights_of_their_options() {
    let mut launch = Launch::new(Args { user: None, ..everything() });
    resolve_ls(&mut launch);
    assert_eq!(launch.stage(), Stage::AllowPaths);
    let have: Vec<(Vec<u8>, u64, bool)> =
        launch.requests(&vec![]).into_iter().map(|r| (r.path, r.access, r.must_exist)).collect();
    let want = vec![
        (b"/etc".to_vec(), 0xc, true),
        (b"/usr/bin".to_vec(), 0xd, true),
        (b"/tmp".to_vec(), 0xfffe, true),
        (b"/opt".to_vec(), 0xffff, true),
        (b"/usr/bin/ls".to_vec(), 0x5, true),
    ];
    assert_eq!(have, want);
}

#[test]
fn the_command_stays_allowed_to_the_end() {
    let (launch, _) = run(everything());
    let list = launch.allow();
    let at = (0..list.len()).find(|i| list.path(*i) == b"/usr/bin/ls").unwrap();
    assert_eq!(list.rights(at) & 0x5, 0x5);
}

#[test]
fn what_a_step_finds_is_requested() {
    let mut launch = Launch::new(Args { user: None, default_libs: false, ..everything() });
    resolve_ls(&mut launch);
    let probes = all_there(&launch, &vec![]);
    launch.grant(&vec![], &probes).unwrap();
    let found = vec![b"/bin/sh".to_vec()];
    assert_eq!(launch.stage(), Stage::AllowInterpreter);
    let r = launch.requests(&found);
    assert_eq!(r.len(), 1);
    assert_eq!((r[0].path.as_slice(), r[0].access, r[0].must_exist), (&b"/bin/sh"[..], 0x5, true));
    let probes = all_there(&launch, &found);
    launch.grant(&found, &probes).unwrap();
    assert_eq!(launch.stage(), Stage::AllowLoader);
    assert_eq!(launch.requests(&found)[0].access, 0x5);
    let probes = all_there(&launch, &found);
    launch.grant(&found, &probes).unwrap();
    assert_eq!(launch.stage(), Stage::AllowLibraries);
    let found = vec![b"/lib/libc.so.6".to_vec()];
    let r = launch.requests(&found);
    assert_eq!(r.len(), 10);
    assert_eq!(r[0].path, b"/etc/ld.so.cache".to_vec());
    assert_eq!((r[3].path.as_slice(), r[3].access, r[3].must_exist), (&b"/lib/libc.so.6"[..], 0x4, true));
    assert_eq!((r[4].path.as_slice(), r[4].access, r[4].must_exist), (&b"/lib"[..], 0xd, false));
    let probes = all_there(&launch, &found);
    launch.grant(&found, &probes).unwrap();
    assert_eq!(launch.stage(), Stage::AllowNss);
    let found = vec![b"/lib/libnss_files.so.2".to_vec()];
    let r = launch.requests(&found);
    assert_eq!(r.len(), 15);
    assert_eq!(r[0].path, b"/etc/nsswitch.conf".to_vec());
    assert_eq!((r[14].access, r[14].must_exist), (0x4, true));
}

#[test]
fn common_libraries_are_requested_where_asked_for() {
    let mut launch = Launch::new(Args { default_libs: true, ..plain() });
    resolve_ls(&mut launch);
    for _ in 0..2 {
        let probes = all_there(&launch, &vec![]);
        launch.grant(&vec![], &probes).unwrap();
    }
    assert_eq!(launch.stage(), Stage::AllowDefaultLibs);
    let r = launch.requests(&vec![]);
    assert_eq!(r.len(), 9);
    assert_eq!((r[0].path.as_slice(), r[0].access), (&b"/lib"[..], 0xd));
    assert_eq!((r[8].path.as_slice(), r[8].access), (&b"/etc/ld.so.conf.d"[..], 0xc));
}

#[test]
fn a_missing_path_ends_the_launch() {
    let mut launch = Launch::new(Args { ro: vec![b"/gone".to_vec()], ..plain() });
    resolve_ls(&mut launch);
    let probes = vec![
        Probe { exists: false, canonical: None },
        Probe { exists: true, canonical: None },
    ];
    let e = launch.grant(&vec![], &probes).unwrap_err();
    assert_eq!(e.path, b"/gone".to_vec());
    assert_eq!(launch.stage(), Stage::Failed);
    launch.advance(true);
    assert_eq!(launch.stage(), Stage::Failed);
}

#[test]
fn the_allowlist_becomes_a_ruleset() {
    let mut launch = Launch::new(Args { rw: vec![b"/tmp".to_vec()], ..plain() });
    resolve_ls(&mut launch);
    for _ in 0..2 {
        let probes = all_there(&launch, &vec![]);
        launch.grant(&vec![], &probes).unwrap();
    }
    assert_eq!(launch.stage(), Stage::EnforceLandlock);
    assert_eq!(
        launch.ruleset(),
        [
            RulesetCall::HandleFs(0xffff),
            RulesetCall::Create,
            RulesetCall::AllowPath(0),
            RulesetCall::AllowPath(1),
            RulesetCall::RestrictSelf,
        ]
    );
    launch.enforced(Enforcement::Partially);
    assert_eq!(launch.stage(), Stage::NoNewPrivs);
}

#[test]
fn an_allowlist_that_is_not_in_force_ends_the_launch() {
    let net = NetOptions { deny_connect: true, ..plain().net };
    let mut launch = Launch::new(Args { net, ..plain() });
    resolve_ls(&mut launch);
    for _ in 0..2 {
        let probes = all_there(&launch, &vec![]);
        launch.grant(&vec![], &probes).unwrap();
    }
    launch.enforced(Enforcement::Not);
    assert_eq!(launch.stage(), Stage::Failed);
}

#[test]
fn any_failed_step_ends_the_launch() {
    let mut launch = Launch::new(everything());
    launch.advance(false);
    assert_eq!(launch.stage(), Stage::Failed);
    let mut launch = Launch::new(Args { drop_caps: true, ..plain() });
    resolve_ls(&mut launch);
    launch.advance(true);
    assert_eq!(launch.stage(), Stage::DropCaps);
    launch.advance(false);
    assert_eq!(launch.stage(), Stage::Failed);
}

#[test]
fn a_command_that_did_not_run_is_a_failure() {
    let (mut launch, _) = run(plain());
    assert_eq!(launch.stage(), Stage::Exec);
    launch.advance(true);
    assert_eq!(launch.stage(), Stage::Failed);
}

#[test]
fn log_levels_have_names() {
    assert_eq!(level_name(LogLevel::Warn), "warn");
    assert_eq!(level_name(LogLevel::Info), "info");
    assert_eq!(level_name(LogLevel::Debug), "debug");
}

#[test]
fn a_launch_has_no_more_steps_than_there_are() {
    let (mut launch, stages) = run(everything());
    assert_eq!(stages.len(), 17);
    for _ in 0..3 {
        launch.advance(true);
        assert_eq!(launch.stage(), Stage::Failed);
    }
}

/// A launch of a script that is about to allow its interpreter.
fn at_interpreter() -> Launch {
    let mut launch = Launch::new(Args { user: None, ..everything() });
    resolve_ls(&mut launch);
    let probes = all_there(&launch, &vec![]);
    launch.grant(&vec![], &probes).unwrap();
    launch
}

#[test]
fn the_interpreter_of_a_script_is_found_and_allowed() {
    let mut launch = at_interpreter();
    let found = launch.find(&Reading::Contents(b"#!/bin/sh -e\n".to_vec()));
    assert_eq!(found, vec![b"/bin/sh".to_vec()]);
    let probes = vec![Probe { exists: true, canonical: Some(b"/usr/bin/dash".to_vec()) }];
    launch.grant(&found, &probes).unwrap();
    let list = launch.allow();
    let at = (0..list.len()).find(|i| list.path(*i) == b"/usr/bin/dash").unwrap();
    assert_eq!(list.rights(at), 0x5);
}

#[test]
fn a_program_has_no_interpreter_to_allow() {
    let launch = at_interpreter();
    assert!(launch.find(&Reading::Contents(b"\x7fELF".to_vec())).is_empty());
    assert!(launch.find(&Reading::Nothing).is_empty());
}

#[test]
fn scripts_are_traced_through_their_interpreter() {
    let launch = at_interpreter();
    let traced = launch.trace_command(b"#!/bin/sh\n");
    assert_eq!(traced.path, b"/bin/sh".to_vec());
    assert_eq!(traced.argv, vec![b"/bin/sh".to_vec(), b"/usr/bin/ls".to_vec()]);
    assert_eq!(launch.trace_command(b"").path, b"/usr/bin/ls".to_vec());
}

#[test]
fn each_step_finds_what_it_is_about() {
    let mut launch = at_interpreter();
    let there = |p: &str| Probe { exists: true, canonical: Some(p.as_bytes().to_vec()) };
    let libraries = Reading::Libraries {
        reported: vec![b"/lib/b.so".to_vec(), b"/lib/gone.so".to_vec(), b"/lib/a.so".to_vec()],
        probes: vec![
            there("/usr/lib/b.so"),
            Probe { exists: false, canonical: None },
            there("/usr/lib/a.so"),
        ],
    };
    let mut names = vec![vec![]; 8];
    names[1] = vec![b"libnss_db.so".to_vec(), b"libc.so.6".to_vec()];
    names[0] = vec![b"libnss_dns.so.2".to_vec()];
    let listings = Reading::Listings(names);
    assert!(launch.find(&libraries).is_empty());
    while launch.stage() != Stage::AllowLibraries {
        let probes = all_there(&launch, &vec![]);
        launch.grant(&vec![], &probes).unwrap();
    }
    assert_eq!(
        launch.find(&libraries),
        vec![b"/usr/lib/a.so".to_vec(), b"/usr/lib/b.so".to_vec()]
    );
    let probes = all_there(&launch, &vec![]);
    launch.grant(&vec![], &probes).unwrap();
    assert_eq!(launch.stage(), Stage::AllowNss);
    assert_eq!(
        launch.find(&listings),
        vec![b"/lib/libnss_dns.so.2".to_vec(), b"/lib64/libnss_db.so".to_vec()]
    );
}

#[test]
fn the_command_that_was_asked_for_is_run() {
    let cmd = vec![b"ls".to_vec(), b"-l".to_vec()];
    let mut launch = Launch::new(Args { cmd, ..plain() });
    launch.command_resolved(b"/bin/ls", &Some(b"/usr/bin/ls".to_vec()));
    let command = launch.command().unwrap();
    assert_eq!(command.path, b"/usr/bin/ls".to_vec());
    assert_eq!(command.argv, vec![b"/usr/bin/ls".to_vec(), b"-l".to_vec()]);
}

#[test]
fn capabilities_are_dropped_to_the_end() {
    let mut launch = Launch::new(Args { drop_caps: true, ..plain() });
    resolve_ls(&mut launch);
    launch.advance(true);
    assert_eq!(launch.caps(), CapStage::ClearAmbient);
    launch.caps_event(CapEvent::Changed(SysResult::Unsupported));
    assert_eq!((launch.stage(), launch.caps()), (Stage::DropCaps, CapStage::ReadEffective));
    launch.caps_event(CapEvent::Effective { low: 0x100, high: 0 });
    launch.caps_event(CapEvent::Last(0));
    launch.caps_event(CapEvent::Changed(SysResult::Done));
    assert_eq!((launch.stage(), launch.caps()), (Stage::DropCaps, CapStage::ClearSets));
    launch.caps_event(CapEvent::Changed(SysResult::Done));
    assert_eq!((launch.stage(), launch.caps()), (Stage::CloseFds, CapStage::Done));
}

#[test]
fn capabilities_that_cannot_be_dropped_end_the_launch() {
    let mut launch = Launch::new(Args { drop_caps: true, ..plain() });
    resolve_ls(&mut launch);
    launch.advance(true);
    launch.caps_event(CapEvent::Changed(SysResult::Failed(22)));
    assert_eq!(launch.caps(), CapStage::Failed(SysResult::Failed(22)));
    assert_eq!(launch.stage(), Stage::Failed);
}

#[test]
fn descriptors_are_closed_to_the_end() {
    let mut launch = Launch::new(plain());
    resolve_ls(&mut launch);
    launch.advance(true);
    assert_eq!(launch.fds(), FdStage::CloseRange { first: 3, last: u32::MAX, flags: 2 });
    launch.fds_event(FdEvent::Changed(SysResult::Unsupported));
    assert_eq!((launch.stage(), launch.fds()), (Stage::CloseFds, FdStage::ReadLimit));
    launch.fds_event(FdEvent::Limit(Some(64)));
    assert_eq!(launch.fds(), FdStage::CloseEach { from: 3, to: 64 });
    launch.fds_event(FdEvent::Changed(SysResult::Done));
    assert_eq!((launch.stage(), launch.fds()), (Stage::Exec, FdStage::Done));
}

#[test]
fn descriptors_that_cannot_be_closed_end_the_launch() {
    let mut launch = Launch::new(plain());
    resolve_ls(&mut launch);
    launch.advance(true);
    launch.fds_event(FdEvent::Changed(SysResult::Forbidden));
    assert_eq!(launch.stage(), Stage::Failed);
}
