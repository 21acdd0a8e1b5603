use restricted_exec::seccomp::{
    blocked_syscalls, expand_seccomp_items, is_conditional, seccomp_rules, Condition, Rule,
};

fn items(v: &[&str]) -> Vec<String> {
    v.iter().map(|s| s.to_string()).collect()
}

fn denied(rules: &[Rule], call: usize, arg: u64) -> bool {
    rules.iter().any(|r| {
        r.call == call
            && match r.condition {
                Condition::Always => true,
                Condition::MaskedEqual { mask, value, .. } => arg & mask == value,
                Condition::NotEqual { value, .. } => arg != value,
            }
    })
}

#[test]
fn names_stand_for_themselves() {
    assert_eq!(expand_seccomp_items(&items(&["keyctl", "mount", "keyctl"])).unwrap(), ["keyctl", "mount"]);
    assert!(expand_seccomp_items(&items(&[])).unwrap().is_empty());
    assert_eq!(expand_seccomp_items(&items(&[""])).unwrap(), [""]);
}

#[test]
fn lists_stand_for_their_calls() {
    let mount = expand_seccomp_items(&items(&["@mount"])).unwrap();
    assert_eq!(
        mount,
        [
            "mount", "umount", "umount2", "pivot_root", "open_tree", "move_mount", "fsopen",
            "fsconfig", "fsmount", "mount_setattr", "unshare", "setns", "clone",
        ]
    );
    let default = expand_seccomp_items(&items(&["@default"])).unwrap();
    assert_eq!(default.len(), 50);
    for name in ["init_module", "get_kernel_syms", "mount", "ptrace", "reboot", "clone", "personality"] {
        assert!(default.contains(&name.to_string()));
    }
}

#[test]
fn lists_and_names_go_together() {
    let all = expand_seccomp_items(&items(&["@mount", "@default", "mount", "read"])).unwrap();
    let mut once = all.clone();
    once.sort();
    once.dedup();
    assert_eq!(once.len(), all.len());
    assert!(all.contains(&"fsopen".to_string()));
    assert!(all.contains(&"read".to_string()));
}

#[test]
fn unknown_lists_are_errors() {
    assert_eq!(expand_seccomp_items(&items(&["read", "@net", "@x"])).unwrap_err().name, "net");
    assert_eq!(expand_seccomp_items(&items(&["@"])).unwrap_err().name, "");
    assert_eq!(expand_seccomp_items(&items(&["@Mount"])).unwrap_err().name, "Mount");
    assert_eq!(blocked_syscalls(&items(&["@a"]), &items(&["@b"])).unwrap_err().name, "a");
    assert_eq!(blocked_syscalls(&items(&["@mount"]), &items(&["@b"])).unwrap_err().name, "b");
}

#[test]
fn allowing_mount_leaves_the_rest_of_the_mount_list_blocked() {
    let blocked = blocked_syscalls(&items(&["@mount"]), &items(&["mount"])).unwrap();
    assert_eq!(blocked.len(), 12);
    assert!(!blocked.contains(&"mount".to_string()));
    for name in ["umount", "umount2", "pivot_root", "open_tree", "setns", "clone"] {
        assert!(blocked.contains(&name.to_string()));
    }
}

#[test]
fn lists_can_be_allowed() {
    let blocked = blocked_syscalls(&items(&["@default"]), &items(&["@mount", "nonsense"])).unwrap();
    for name in ["mount", "umount2", "unshare", "setns", "clone"] {
        assert!(!blocked.contains(&name.to_string()));
    }
    assert!(blocked.contains(&"ptrace".to_string()));
    assert!(blocked.contains(&"personality".to_string()));
}

#[test]
fn ordinary_calls_are_denied_always() {
    let rules = seccomp_rules(&items(&["mount", "gone", "ptrace"]), &vec![true, false, true]);
    let want = |call: usize| Rule { call, condition: Condition::Always, errno: 1 };
    assert_eq!(rules, [want(0), want(2)]);
}

#[test]
fn clone_is_denied_with_a_namespace_flag() {
    let rules = seccomp_rules(&items(&["clone"]), &vec![true]);
    assert_eq!(rules.len(), 7);
    let flags: [u64; 7] = [
        libc::CLONE_NEWNS as u64,
        libc::CLONE_NEWUTS as u64,
        libc::CLONE_NEWIPC as u64,
        libc::CLONE_NEWUSER as u64,
        libc::CLONE_NEWPID as u64,
        libc::CLONE_NEWNET as u64,
        libc::CLONE_NEWCGROUP as u64,
    ];
    for (rule, flag) in rules.iter().zip(flags) {
        assert_eq!(rule.condition, Condition::MaskedEqual { arg: 0, mask: flag, value: flag });
        assert_eq!(rule.errno, libc::EPERM);
        assert!(denied(&rules, 0, flag));
        assert!(denied(&rules, 0, flag | 0x11));
    }
    assert_eq!(flags[0], 0x20000);
    let thread = (libc::CLONE_VM | libc::CLONE_FS | libc::CLONE_FILES | libc::CLONE_THREAD) as u64;
    assert!(!denied(&rules, 0, thread));
    assert!(!denied(&rules, 0, 0));
}

#[test]
fn personality_is_denied_but_for_zero() {
    let rules = seccomp_rules(&items(&["read", "personality"]), &vec![false, true]);
    let condition = Condition::NotEqual { arg: 0, value: 0 };
    assert_eq!(rules, [Rule { call: 1, condition, errno: libc::EPERM }]);
    assert!(denied(&rules, 1, 8));
    assert!(!denied(&rules, 1, 0));
}

#[test]
fn calls_that_the_machine_lacks_get_no_rule() {
    assert!(seccomp_rules(&items(&["clone", "personality", "x"]), &vec![false; 3]).is_empty());
}

#[test]
fn clone_and_personality_are_conditional() {
    assert!(is_conditional(&"clone".to_string()));
    assert!(is_conditional(&"personality".to_string()));
    assert!(!is_conditional(&"clone3".to_string()));
}
