use restricted_exec::access::{access_ro, access_rw, access_rwx};
use restricted_exec::allow::{merge_allow, AllowList};
use restricted_exec::ruleset::{
    build_path_rule, enforce_landlock, NetOptions, NoRights, RulesetCall,
};

fn no_net() -> NetOptions {
    NetOptions {
        connect_ports: vec![],
        bind_ports: vec![],
        deny_connect: false,
        deny_bind: false,
        scope_abstract_unix_socket: false,
    }
}

fn two_paths() -> AllowList {
    let mut list = AllowList::new();
    merge_allow(&mut list, b"/tmp".to_vec(), access_rw());
    merge_allow(&mut list, b"/etc".to_vec(), access_ro());
    list
}

#[test]
fn paths_are_handled_and_then_allowed() {
    let calls = enforce_landlock(&two_paths(), &no_net());
    assert_eq!(
        calls,
        [
            RulesetCall::HandleFs(0xffff),
            RulesetCall::Create,
            RulesetCall::AllowPath(0),
            RulesetCall::AllowPath(1),
            RulesetCall::RestrictSelf,
        ]
    );
}

#[test]
fn handled_rights_are_all_rights_of_the_landlock_crate() {
    let all = <landlock::AccessFs as landlock::Access>::from_all(landlock::ABI::V6);
    let calls = enforce_landlock(&two_paths(), &no_net());
    assert_eq!(calls[0], RulesetCall::HandleFs(all.bits()));
}

#[test]
fn without_paths_the_file_system_is_left_alone() {
    let net = NetOptions { deny_connect: true, deny_bind: true, ..no_net() };
    let calls = enforce_landlock(&AllowList::new(), &net);
    assert_eq!(
        calls,
        [RulesetCall::HandleNet(0x3), RulesetCall::Create, RulesetCall::RestrictSelf]
    );
}

#[test]
fn listed_ports_are_allowed_and_all_others_denied() {
    let net = NetOptions { connect_ports: vec![443, 22], bind_ports: vec![8080], ..no_net() };
    let calls = enforce_landlock(&AllowList::new(), &net);
    assert_eq!(
        calls,
        [
            RulesetCall::HandleNet(0x3),
            RulesetCall::Create,
            RulesetCall::AllowConnect(443),
            RulesetCall::AllowConnect(22),
            RulesetCall::AllowBind(8080),
            RulesetCall::RestrictSelf,
        ]
    );
}

#[test]
fn only_what_is_spoken_of_is_denied() {
    let net = NetOptions { deny_connect: true, ..no_net() };
    assert_eq!(enforce_landlock(&AllowList::new(), &net)[0], RulesetCall::HandleNet(0x2));
    let net = NetOptions { bind_ports: vec![0], ..no_net() };
    assert_eq!(enforce_landlock(&AllowList::new(), &net)[0], RulesetCall::HandleNet(0x1));
}

#[test]
fn network_rights_are_those_of_the_landlock_crate() {
    let net = NetOptions { deny_connect: true, ..no_net() };
    let connect = landlock::AccessNet::ConnectTcp as u64;
    assert_eq!(enforce_landlock(&AllowList::new(), &net)[0], RulesetCall::HandleNet(connect));
    let net = NetOptions { deny_bind: true, ..no_net() };
    let bind = landlock::AccessNet::BindTcp as u64;
    assert_eq!(enforce_landlock(&AllowList::new(), &net)[0], RulesetCall::HandleNet(bind));
}

#[test]
fn sockets_are_scoped_on_request() {
    let net = NetOptions { scope_abstract_unix_socket: true, ..no_net() };
    let calls = enforce_landlock(&two_paths(), &net);
    assert_eq!(calls[1], RulesetCall::ScopeAbstractUnixSocket);
    assert_eq!(calls[2], RulesetCall::Create);
}

#[test]
fn files_get_only_rights_that_apply_to_files() {
    assert_eq!(build_path_rule(access_rwx(), false), Ok(0xc007));
    assert_eq!(build_path_rule(access_ro(), false), Ok(0x4));
    assert_eq!(build_path_rule(access_ro(), true), Ok(0xc));
    let file = landlock::AccessFs::from_file(landlock::ABI::V6);
    assert_eq!(build_path_rule(u64::MAX, false), Ok(file.bits()));
}

#[test]
fn a_rule_without_rights_is_an_error() {
    assert_eq!(build_path_rule(0x8, false), Err(NoRights));
    assert_eq!(build_path_rule(0, true), Err(NoRights));
    assert_eq!(build_path_rule(0x8, true), Ok(0x8));
}

#[test]
fn denied_connecting_grants_no_listed_port() {
    let net = NetOptions { connect_ports: vec![443], deny_connect: true, ..no_net() };
    let calls = enforce_landlock(&AllowList::new(), &net);
    assert_eq!(
        calls,
        [RulesetCall::HandleNet(0x2), RulesetCall::Create, RulesetCall::RestrictSelf]
    );
}

#[test]
fn denied_binding_grants_no_listed_port() {
    let net = NetOptions {
        connect_ports: vec![443],
        bind_ports: vec![8080, 0],
        deny_bind: true,
        ..no_net()
    };
    let calls = enforce_landlock(&AllowList::new(), &net);
    assert_eq!(
        calls,
        [
            RulesetCall::HandleNet(0x3),
            RulesetCall::Create,
            RulesetCall::AllowConnect(443),
            RulesetCall::RestrictSelf,
        ]
    );
}
