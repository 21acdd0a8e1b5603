use restricted_exec::text::{is_white_space, parse_u32};
use restricted_exec::user::{
    drop_privileges, found_user, passwd_by_name, passwd_by_uid, pw_buf_size, resolve_user,
    sort_groups, supplementary_groups, GroupQuery, GroupStep, Ids, PasswdEntry, UserError, UserInfo,
    UserQuery,
};

fn nobody() -> Option<PasswdEntry> {
    Some(PasswdEntry { name: b"nobody".to_vec(), uid: 65534, gid: 65533 })
}

fn query(capacity: usize) -> GroupQuery {
    GroupQuery { name: b"nobody".to_vec(), uid: 65534, gid: 65533, capacity }
}

#[test]
fn only_root_changes_identity() {
    assert_eq!(resolve_user(1000, "nobody").unwrap_err(), UserError::NotRoot(1000));
    assert_eq!(resolve_user(1000, "a\0").unwrap_err(), UserError::NotRoot(1000));
}

#[test]
fn numbers_are_user_ids_and_all_else_names() {
    assert!(matches!(resolve_user(0, "65534"), Ok(UserQuery::ByUid(65534))));
    assert!(matches!(resolve_user(0, "+7"), Ok(UserQuery::ByUid(7))));
    assert!(matches!(resolve_user(0, "007"), Ok(UserQuery::ByUid(7))));
    for name in ["nobody", "4294967296", "-1", "+", "", "1 ", "0x10"] {
        match resolve_user(0, name) {
            Ok(UserQuery::ByName(n)) => assert_eq!(n, name.as_bytes()),
            other => panic!("{:?}", other),
        }
    }
}

#[test]
fn a_name_with_nul_is_an_error() {
    assert_eq!(resolve_user(0, "no\0body").unwrap_err(), UserError::NulInName);
}

#[test]
fn numbers_are_read_as_std_reads_them() {
    for s in ["0", "4294967295", "4294967296", "+12", "++1", "-0", "", "+", "1a", "\u{661}", "00000000001"] {
        assert_eq!(parse_u32(s), s.parse::<u32>().ok());
    }
}

#[test]
fn white_space_is_that_of_std() {
    let mut code: u32 = 0;
    while code <= 0x10ffff {
        if let Some(c) = char::from_u32(code) {
            assert_eq!(is_white_space(c), c.is_whitespace());
        }
        code += 1;
    }
}

#[test]
fn a_buffer_size_is_found_where_none_is_suggested() {
    assert_eq!(pw_buf_size(-1), 16384);
    assert_eq!(pw_buf_size(0), 16384);
    assert_eq!(pw_buf_size(1024), 1024);
}

#[test]
fn lookups_report_errors_and_missing_users() {
    assert_eq!(passwd_by_name(0, &nobody()), Ok((65534, 65533)));
    assert_eq!(passwd_by_name(5, &nobody()), Err(UserError::Lookup(5)));
    assert_eq!(passwd_by_name(0, &None), Err(UserError::NoSuchUser));
    assert_eq!(passwd_by_uid(0, &nobody()), Ok((b"nobody".to_vec(), 65533)));
    assert_eq!(passwd_by_uid(5, &None), Err(UserError::Lookup(5)));
    assert_eq!(passwd_by_uid(0, &None), Err(UserError::NoSuchUser));
}

#[test]
fn a_user_keeps_what_they_were_asked_for_by() {
    let g = found_user(UserQuery::ByUid(7), 0, &nobody()).unwrap();
    assert_eq!((g.name, g.uid, g.gid, g.capacity), (b"nobody".to_vec(), 7, 65533, 16));
    let g = found_user(UserQuery::ByName(b"alias".to_vec()), 0, &nobody()).unwrap();
    assert_eq!((g.name, g.uid, g.gid, g.capacity), (b"alias".to_vec(), 65534, 65533, 16));
    assert_eq!(found_user(UserQuery::ByUid(7), 0, &None).unwrap_err(), UserError::NoSuchUser);
    let e = found_user(UserQuery::ByName(b"x".to_vec()), 2, &None).unwrap_err();
    assert_eq!(e, UserError::Lookup(2));
}

#[test]
fn groups_are_sorted_each_once() {
    assert_eq!(sort_groups(&vec![5, 1, 5, 3, 1, 9], 5), [1, 3, 5]);
    assert!(sort_groups(&vec![4], 0).is_empty());
    match supplementary_groups(query(4), 0, 3, &vec![65533, 10, 10, 99]) {
        Ok(GroupStep::Done(u)) => {
            assert_eq!((u.name, u.uid, u.gid), (b"nobody".to_vec(), 65534, 65533));
            assert_eq!(u.groups, [10, 65533]);
        },
        other => panic!("{:?}", other),
    }
}

#[test]
fn counts_beyond_the_room_take_all_groups() {
    match supplementary_groups(query(2), 0, 9, &vec![2, 1]) {
        Ok(GroupStep::Done(u)) => assert_eq!(u.groups, [1, 2]),
        other => panic!("{:?}", other),
    }
}

#[test]
fn too_little_room_asks_again() {
    match supplementary_groups(query(16), -1, 40, &vec![0; 16]) {
        Ok(GroupStep::Retry(q)) => {
            assert_eq!(q.capacity, 40);
            assert_eq!((q.name, q.uid, q.gid), (b"nobody".to_vec(), 65534, 65533));
        },
        other => panic!("{:?}", other),
    }
}

#[test]
fn groups_that_cannot_be_read_are_an_error() {
    let e = supplementary_groups(query(16), -1, 0, &vec![0; 16]).unwrap_err();
    assert_eq!(e, UserError::Groups);
}

#[test]
fn sorting_does_not_depend_on_the_order_of_the_groups() {
    assert_eq!(sort_groups(&vec![3, 1, 2], 3), sort_groups(&vec![2, 2, 3, 1], 4));
}

#[test]
fn all_ids_become_those_of_the_user() {
    let user = UserInfo { name: b"u".to_vec(), uid: 1000, gid: 100, groups: vec![10, 100] };
    let identity = drop_privileges(&user);
    assert_eq!(identity.groups, [10, 100]);
    assert_eq!(identity.gids, Ids { real: 100, effective: 100, saved: 100 });
    assert_eq!(identity.uids, Ids { real: 1000, effective: 1000, saved: 1000 });
}
