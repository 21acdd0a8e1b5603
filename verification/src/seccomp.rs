//! Which system calls are blocked, and by which rules.

use crate::syscall::{eperm, NOT_PERMITTED};
use crate::text::{chars_of, same_text};
use vstd::prelude::*;

verus! {

/// The contents of a list of strings.
pub open spec fn texts(v: Seq<String>) -> Seq<Seq<char>> {
    v.map_values(|s: String| s@)
}

/// The contents of a list of names.
pub open spec fn names(v: Seq<&'static str>) -> Seq<Seq<char>> {
    v.map_values(|s: &'static str| s@)
}

/// The calls behind `@default`: those that reach into the kernel, into other
/// processes, or out of a container. `clone` and `personality` are blocked for
/// some arguments only.
pub open spec fn default_list() -> Seq<&'static str> {
    seq![
        "acct",
        "add_key",
        "bpf",
        "clock_adjtime",
        "clock_settime",
        "create_module",
        "delete_module",
        "finit_module",
        "get_kernel_syms",
        "get_mempolicy",
        "init_module",
        "ioperm",
        "iopl",
        "kcmp",
        "kexec_file_load",
        "kexec_load",
        "keyctl",
        "lookup_dcookie",
        "mbind",
        "mount",
        "move_pages",
        "nfsservctl",
        "open_by_handle_at",
        "perf_event_open",
        "pivot_root",
        "process_vm_readv",
        "process_vm_writev",
        "ptrace",
        "query_module",
        "quotactl",
        "reboot",
        "request_key",
        "set_mempolicy",
        "setns",
        "settimeofday",
        "stime",
        "swapon",
        "swapoff",
        "sysfs",
        "_sysctl",
        "umount",
        "umount2",
        "unshare",
        "uselib",
        "userfaultfd",
        "ustat",
        "vm86",
        "vm86old",
        "clone",
        "personality",
    ]
}

/// The calls behind `@mount`: mounting, the newer mount interface, and the
/// namespace calls that help with it.
pub open spec fn mount_list() -> Seq<&'static str> {
    seq![
        "mount",
        "umount",
        "umount2",
        "pivot_root",
        "open_tree",
        "move_mount",
        "fsopen",
        "fsconfig",
        "fsmount",
        "mount_setattr",
        "unshare",
        "setns",
        "clone",
    ]
}

/// The calls behind `@default`.
fn seccomp_list_default() -> (r: [&'static str; 50])
    ensures
        r@ == default_list(),
{
    [
        "acct",
        "add_key",
        "bpf",
        "clock_adjtime",
        "clock_settime",
        "create_module",
        "delete_module",
        "finit_module",
        "get_kernel_syms",
        "get_mempolicy",
        "init_module",
        "ioperm",
        "iopl",
        "kcmp",
        "kexec_file_load",
        "kexec_load",
        "keyctl",
        "lookup_dcookie",
        "mbind",
        "mount",
        "move_pages",
        "nfsservctl",
        "open_by_handle_at",
        "perf_event_open",
        "pivot_root",
        "process_vm_readv",
        "process_vm_writev",
        "ptrace",
        "query_module",
        "quotactl",
        "reboot",
        "request_key",
        "set_mempolicy",
        "setns",
        "settimeofday",
        "stime",
        "swapon",
        "swapoff",
        "sysfs",
        "_sysctl",
        "umount",
        "umount2",
        "unshare",
        "uselib",
        "userfaultfd",
        "ustat",
        "vm86",
        "vm86old",
        "clone",
        "personality",
    ]
}

/// The calls behind `@mount`.
fn seccomp_list_mount() -> (r: [&'static str; 13])
    ensures
        r@ == mount_list(),
{
    [
        "mount",
        "umount",
        "umount2",
        "pivot_root",
        "open_tree",
        "move_mount",
        "fsopen",
        "fsconfig",
        "fsmount",
        "mount_setattr",
        "unshare",
        "setns",
        "clone",
    ]
}

/// Whether an item stands for a list.
pub open spec fn is_list(item: Seq<char>) -> bool {
    item.len() > 0 && item[0] == '@'
}

/// The list of a name.
pub open spec fn list_named(name: Seq<char>) -> Option<Seq<Seq<char>>> {
    if name == "default"@ {
        Some(names(default_list()))
    } else if name == "mount"@ {
        Some(names(mount_list()))
    } else {
        None
    }
}

/// Whether an item can be expanded: it is a call, or a list that exists.
pub open spec fn known_item(item: Seq<char>) -> bool {
    is_list(item) ==> list_named(item.drop_first()) is Some
}

/// Whether an item stands for a call: by its name, or through a list.
pub open spec fn item_holds(item: Seq<char>, call: Seq<char>) -> bool {
    if is_list(item) {
        list_named(item.drop_first()) matches Some(l) && l.contains(call)
    } else {
        call == item
    }
}

/// Whether one of the items stands for a call.
pub open spec fn items_hold(items: Seq<Seq<char>>, call: Seq<char>) -> bool {
    exists|i: int| 0 <= i < items.len() && item_holds(#[trigger] items[i], call)
}

/// A list that does not exist, by its name.
#[derive(Debug)]
pub struct UnknownList {
    pub name: String,
}

/// Whether `e` is about the first item that cannot be expanded.
pub open spec fn first_unknown(items: Seq<Seq<char>>, name: Seq<char>) -> bool {
    exists|i: int|
        #![trigger items[i]]
        0 <= i < items.len() && !known_item(items[i]) && name == items[i].drop_first() && forall|
            k: int,
        |
            0 <= k < i ==> known_item(#[trigger] items[k])
}

/// Whether all items can be expanded.
pub open spec fn all_known(items: Seq<Seq<char>>) -> bool {
    forall|i: int| 0 <= i < items.len() ==> known_item(#[trigger] items[i])
}

/// Whether a list holds a name.
fn holds(list: &Vec<String>, name: &String) -> (r: bool)
    ensures
        r == texts(list@).contains(name@),
{
    let mut i: usize = 0;
    while i < list.len()
        invariant
            i <= list@.len(),
            forall|k: int| 0 <= k < i ==> texts(list@)[k] != name@,
        decreases list@.len() - i,
    {
        if list[i] == *name {
            assert(texts(list@)[i as int] == name@);
            return true;
        }
        i = i + 1;
    }
    false
}

/// Adds a name to a list that does not hold it yet.
fn insert_name(list: &mut Vec<String>, name: String)
    requires
        texts(old(list)@).no_duplicates(),
    ensures
        texts(final(list)@).no_duplicates(),
        forall|x: Seq<char>| #[trigger]
            texts(final(list)@).contains(x) <==> texts(old(list)@).contains(x) || x == name@,
{
    let ghost before = texts(list@);
    if !holds(list, &name) {
        let ghost n = name@;
        list.push(name);
        assert(texts(list@) =~= before.push(n));
        assert forall|x: Seq<char>| #[trigger] texts(list@).contains(x) <==> before.contains(x) || x
            == n by {
            if before.contains(x) {
                let k = choose|k: int| 0 <= k < before.len() && before[k] == x;
                assert(texts(list@)[k] == x);
            }
            if x == n {
                assert(texts(list@)[before.len() as int] == x);
            }
        }
    }
}

/// Adds the names of a list.
fn insert_all(list: &mut Vec<String>, more: &[&'static str])
    requires
        texts(old(list)@).no_duplicates(),
    ensures
        texts(final(list)@).no_duplicates(),
        forall|x: Seq<char>| #[trigger]
            texts(final(list)@).contains(x) <==> texts(old(list)@).contains(x) || names(
                more@,
            ).contains(x),
{
    let ghost before = texts(list@);
    let ghost all = names(more@);
    let mut i: usize = 0;
    while i < more.len()
        invariant
            i <= more@.len(),
            all == names(more@),
            texts(list@).no_duplicates(),
            forall|x: Seq<char>| #[trigger]
                texts(list@).contains(x) <==> before.contains(x) || all.take(i as int).contains(x),
        decreases more@.len() - i,
    {
        let ghost seen = all.take(i as int);
        let ghost now = all.take(i + 1);
        insert_name(list, more[i].to_owned());
        assert(now =~= seen.push(all[i as int]));
        assert forall|x: Seq<char>| #[trigger] now.contains(x) <==> seen.contains(x) || x
            == all[i as int] by {
            if seen.contains(x) {
                let k = choose|k: int| 0 <= k < seen.len() && seen[k] == x;
                assert(now[k] == x);
            }
            if x == all[i as int] {
                assert(now[i as int] == x);
            }
        }
        i = i + 1;
    }
    assert(all.take(i as int) =~= all);
}

/// Expands items to calls: a name stands for itself, `@default` and `@mount` for
/// the calls of those lists. Every call comes once.
pub fn expand_seccomp_items(items: &Vec<String>) -> (r: Result<Vec<String>, UnknownList>)
    ensures
        match r {
            Ok(v) => {
                &&& all_known(texts(items@))
                &&& texts(v@).no_duplicates()
                &&& forall|x: Seq<char>| #[trigger]
                    texts(v@).contains(x) <==> items_hold(texts(items@), x)
            },
            Err(e) => first_unknown(texts(items@), e.name@),
        },
{
    let ghost all = texts(items@);
    let mut out: Vec<String> = Vec::new();
    let mut i: usize = 0;
    assert(texts(out@) =~= Seq::<Seq<char>>::empty());
    while i < items.len()
        invariant
            i <= items@.len(),
            all == texts(items@),
            forall|k: int| 0 <= k < i ==> known_item(#[trigger] all[k]),
            texts(out@).no_duplicates(),
            forall|x: Seq<char>| #[trigger]
                texts(out@).contains(x) <==> items_hold(all.take(i as int), x),
        decreases items@.len() - i,
    {
        let item = &items[i];
        let ghost seen = all.take(i as int);
        let ghost now = all.take(i + 1);
        assert(all[i as int] == item@);
        let chars = chars_of(item.as_str());
        if chars.len() > 0 && chars[0] == '@' {
            let name = item.as_str().substring_char(1, chars.len()).to_owned();
            assert(name@ =~= item@.drop_first());
            if same_text(&name, "default") {
                insert_all(&mut out, &seccomp_list_default());
            } else if same_text(&name, "mount") {
                insert_all(&mut out, &seccomp_list_mount());
            } else {
                return Err(UnknownList { name });
            }
        } else {
            insert_name(&mut out, item.clone());
        }
        assert forall|x: Seq<char>| #[trigger] items_hold(now, x) <==> items_hold(seen, x)
            || item_holds(item@, x) by {
            if items_hold(seen, x) {
                let k = choose|k: int| 0 <= k < seen.len() && item_holds(#[trigger] seen[k], x);
                assert(now[k] == seen[k]);
            }
            if item_holds(item@, x) {
                assert(now[i as int] == item@);
            }
            if items_hold(now, x) {
                let k = choose|k: int| 0 <= k < now.len() && item_holds(#[trigger] now[k], x);
                if k < i {
                    assert(seen[k] == now[k]);
                }
            }
        }
        i = i + 1;
    }
    assert(all.take(i as int) =~= all);
    Ok(out)
}

/// Whether a call is blocked: a filter item stands for it, and no allow item does.
pub open spec fn blocked(
    filter_items: Seq<Seq<char>>,
    allow_items: Seq<Seq<char>>,
    call: Seq<char>,
) -> bool {
    items_hold(filter_items, call) && !items_hold(allow_items, call)
}

/// The calls that are blocked: those that the filter items stand for, without
/// those that the allow items stand for. Every call comes once.
pub fn blocked_syscalls(filter_items: &Vec<String>, allow_items: &Vec<String>) -> (r: Result<
    Vec<String>,
    UnknownList,
>)
    ensures
        match r {
            Ok(v) => {
                &&& all_known(texts(filter_items@))
                &&& all_known(texts(allow_items@))
                &&& texts(v@).no_duplicates()
                &&& forall|x: Seq<char>| #[trigger]
                    texts(v@).contains(x) <==> blocked(
                        texts(filter_items@),
                        texts(allow_items@),
                        x,
                    )
            },
            Err(e) => if all_known(texts(filter_items@)) {
                first_unknown(texts(allow_items@), e.name@)
            } else {
                first_unknown(texts(filter_items@), e.name@)
            },
        },
{
    let filtered = match expand_seccomp_items(filter_items) {
        Ok(v) => v,
        Err(e) => {
            return Err(e);
        },
    };
    let allowed = match expand_seccomp_items(allow_items) {
        Ok(v) => v,
        Err(e) => {
            return Err(e);
        },
    };
    let ghost all = texts(filtered@);
    let mut blocked: Vec<String> = Vec::new();
    let mut i: usize = 0;
    assert(texts(blocked@) =~= Seq::<Seq<char>>::empty());
    while i < filtered.len()
        invariant
            i <= filtered@.len(),
            all == texts(filtered@),
            texts(blocked@).no_duplicates(),
            forall|x: Seq<char>| #[trigger]
                texts(blocked@).contains(x) <==> all.take(i as int).contains(x) && !texts(
                    allowed@,
                ).contains(x),
        decreases filtered@.len() - i,
    {
        let ghost seen = all.take(i as int);
        let ghost now = all.take(i + 1);
        let ghost name = all[i as int];
        if !holds(&allowed, &filtered[i]) {
            insert_name(&mut blocked, filtered[i].clone());
        }
        assert(now =~= seen.push(name));
        assert forall|x: Seq<char>| #[trigger] now.contains(x) <==> seen.contains(x) || x == name by {
            if seen.contains(x) {
                let k = choose|k: int| 0 <= k < seen.len() && seen[k] == x;
                assert(now[k] == x);
            }
            if x == name {
                assert(now[i as int] == x);
            }
        }
        i = i + 1;
    }
    assert(all.take(i as int) =~= all);
    Ok(blocked)
}

/// When a rule applies to a call.
#[derive(Debug, Clone, Copy, PartialEq, Eq, Structural)]
pub enum Condition {
    /// To every call.
    Always,
    /// When the argument at this position, under the mask, is the value.
    MaskedEqual { arg: u32, mask: u64, value: u64 },
    /// When the argument at this position is not the value.
    NotEqual { arg: u32, value: u64 },
}

/// A rule: the call, by its position in a list, is answered with an error number
/// when the condition holds.
#[derive(Debug, Clone, Copy, PartialEq, Eq, Structural)]
pub struct Rule {
    pub call: usize,
    pub condition: Condition,
    pub errno: i32,
}

/// The flags that make `clone` open a new namespace: mount, UTS, IPC, user, PID,
/// network and cgroup.
pub open spec fn namespace_flags() -> Seq<u64> {
    seq![0x20000, 0x4000000, 0x8000000, 0x10000000, 0x20000000, 0x40000000, 0x2000000]
}

/// The namespace flags of `libc`: `CLONE_NEWNS`, `CLONE_NEWUTS`, `CLONE_NEWIPC`,
/// `CLONE_NEWUSER`, `CLONE_NEWPID`, `CLONE_NEWNET` and `CLONE_NEWCGROUP`, which
/// have the values of the Linux interface.
#[verifier::external_body]
fn clone_flags() -> (r: [u64; 7])
    ensures
        r@ == namespace_flags(),
{
    [
        libc::CLONE_NEWNS as u64,
        libc::CLONE_NEWUTS as u64,
        libc::CLONE_NEWIPC as u64,
        libc::CLONE_NEWUSER as u64,
        libc::CLONE_NEWPID as u64,
        libc::CLONE_NEWNET as u64,
        libc::CLONE_NEWCGROUP as u64,
    ]
}

/// The rule that denies a call under a condition.
pub open spec fn deny(call: int, condition: Condition) -> Rule {
    Rule { call: call as usize, condition, errno: NOT_PERMITTED }
}

/// The rules for `clone`: it is denied as soon as any namespace flag is set, so
/// that plain processes and threads can still be made.
pub open spec fn clone_rules(call: int) -> Seq<Rule> {
    namespace_flags().map_values(
        |flag: u64| deny(call, Condition::MaskedEqual { arg: 0, mask: flag, value: flag }),
    )
}

/// The rule for `personality`: only the value 0 is let through.
pub open spec fn personality_rules(call: int) -> Seq<Rule> {
    seq![deny(call, Condition::NotEqual { arg: 0, value: 0 })]
}

/// The rules for a call.
pub open spec fn call_rules(name: Seq<char>, call: int) -> Seq<Rule> {
    if name == "clone"@ {
        clone_rules(call)
    } else if name == "personality"@ {
        personality_rules(call)
    } else {
        seq![deny(call, Condition::Always)]
    }
}

/// The rules for a list of calls. A call that this machine does not have gets
/// none.
pub open spec fn all_rules(calls: Seq<Seq<char>>, known: Seq<bool>) -> Seq<Rule>
    decreases calls.len(),
{
    if calls.len() == 0 {
        Seq::empty()
    } else {
        let front = all_rules(calls.drop_last(), known.drop_last());
        if known.last() {
            front + call_rules(calls.last(), calls.len() - 1)
        } else {
            front
        }
    }
}

/// Adds the rules for `clone`.
fn install_clone_namespace_block(rules: &mut Vec<Rule>, call: usize)
    ensures
        final(rules)@ == old(rules)@ + clone_rules(call as int),
{
    let flags = clone_flags();
    let ghost before = rules@;
    let ghost want = clone_rules(call as int);
    let mut i: usize = 0;
    assert(rules@ =~= before + want.take(0));
    while i < 7
        invariant
            i <= 7,
            flags@ == namespace_flags(),
            want == clone_rules(call as int),
            rules@ == before + want.take(i as int),
        decreases 7 - i,
    {
        let flag = flags[i];
        let condition = Condition::MaskedEqual { arg: 0, mask: flag, value: flag };
        rules.push(Rule { call, condition, errno: eperm() });
        assert(want.take(i + 1) =~= want.take(i as int).push(want[i as int]));
        assert(rules@ =~= before + want.take(i + 1));
        i = i + 1;
    }
    assert(want.take(7) =~= want);
}

/// Adds the rule for `personality`.
fn install_personality_block(rules: &mut Vec<Rule>, call: usize)
    ensures
        final(rules)@ == old(rules)@ + personality_rules(call as int),
{
    let ghost before = rules@;
    rules.push(Rule { call, condition: Condition::NotEqual { arg: 0, value: 0 }, errno: eperm() });
    assert(rules@ =~= before + personality_rules(call as int));
}

/// Whether a call is blocked for some arguments only.
pub fn is_conditional(name: &String) -> (r: bool)
    ensures
        r == (name@ == "clone"@ || name@ == "personality"@),
{
    same_text(name, "clone") || same_text(name, "personality")
}

/// The rules that block a list of calls, given which of them this machine has.
pub fn seccomp_rules(blocked: &Vec<String>, known: &Vec<bool>) -> (r: Vec<Rule>)
    requires
        blocked@.len() == known@.len(),
    ensures
        r@ == all_rules(texts(blocked@), known@),
{
    let ghost all = texts(blocked@);
    let mut rules: Vec<Rule> = Vec::new();
    let mut i: usize = 0;
    while i < blocked.len()
        invariant
            i <= blocked@.len(),
            blocked@.len() == known@.len(),
            all == texts(blocked@),
            rules@ == all_rules(all.take(i as int), known@.take(i as int)),
        decreases blocked@.len() - i,
    {
        assert(all.take(i + 1).drop_last() =~= all.take(i as int));
        assert(known@.take(i + 1).drop_last() =~= known@.take(i as int));
        assert(all.take(i + 1).last() == blocked@[i as int]@);
        if known[i] {
            let name = &blocked[i];
            if same_text(name, "clone") {
                install_clone_namespace_block(&mut rules, i);
            } else if same_text(name, "personality") {
                install_personality_block(&mut rules, i);
            } else {
                let ghost before = rules@;
                rules.push(Rule { call: i, condition: Condition::Always, errno: eperm() });
                assert(rules@ =~= before + seq![deny(i as int, Condition::Always)]);
            }
            proof {
                reveal_strlit("clone");
                reveal_strlit("personality");
                assert("clone"@.len() != "personality"@.len());
            }
        }
        i = i + 1;
    }
    assert(all.take(i as int) =~= all);
    assert(known@.take(i as int) =~= known@);
    rules
}

/// Whether a condition holds of the arguments of a call.
pub open spec fn condition_holds(condition: Condition, args: Seq<u64>) -> bool {
    match condition {
        Condition::Always => true,
        Condition::MaskedEqual { arg, mask, value } => args[arg as int] & mask == value,
        Condition::NotEqual { arg, value } => args[arg as int] != value,
    }
}

/// Whether some rule denies call `call` with these arguments.
pub open spec fn denied(rules: Seq<Rule>, call: int, args: Seq<u64>) -> bool {
    exists|i: int|
        0 <= i < rules.len() && (#[trigger] rules[i]).call == call && condition_holds(
            rules[i].condition,
            args,
        )
}

/// What it takes for a blocked call to be denied: for `clone` a namespace flag,
/// for `personality` a value other than 0, for any other call nothing.
pub open spec fn denial(name: Seq<char>, args: Seq<u64>) -> bool {
    if name == "clone"@ {
        args[0] & 0x7e020000 != 0
    } else if name == "personality"@ {
        args[0] != 0
    } else {
        true
    }
}

proof fn lemma_namespace_flags(x: u64)
    ensures
        x & 0x7e020000 != 0 <==> {
            ||| x & 0x20000 == 0x20000
            ||| x & 0x4000000 == 0x4000000
            ||| x & 0x8000000 == 0x8000000
            ||| x & 0x10000000 == 0x10000000
            ||| x & 0x20000000 == 0x20000000
            ||| x & 0x40000000 == 0x40000000
            ||| x & 0x2000000 == 0x2000000
        },
{
    assert(x & 0x7e020000 != 0 <==> (x & 0x20000 == 0x20000 || x & 0x4000000 == 0x4000000 || x
        & 0x8000000 == 0x8000000 || x & 0x10000000 == 0x10000000 || x & 0x20000000 == 0x20000000
        || x & 0x40000000 == 0x40000000 || x & 0x2000000 == 0x2000000)) by (bit_vector);
}

proof fn lemma_call_rules(name: Seq<char>, call: int, args: Seq<u64>)
    requires
        0 <= call <= usize::MAX,
    ensures
        denied(call_rules(name, call), call, args) <==> denial(name, args),
        forall|i: int| 0 <= i < call_rules(name, call).len() ==> (#[trigger] call_rules(name, call)[i])
            .call == call,
        forall|i: int| 0 <= i < call_rules(name, call).len() ==> (#[trigger] call_rules(name, call)[i])
            .errno == NOT_PERMITTED,
{
    let rules = call_rules(name, call);
    if name == "clone"@ {
        lemma_namespace_flags(args[0]);
        let flags = namespace_flags();
        assert forall|i: int| 0 <= i < 7 implies condition_holds(
            (#[trigger] rules[i]).condition,
            args,
        ) == (args[0] & flags[i] == flags[i]) by {}
        assert(flags.len() == 7);
        if denial(name, args) {
            assert(condition_holds(rules[0].condition, args) || condition_holds(
                rules[1].condition,
                args,
            ) || condition_holds(rules[2].condition, args) || condition_holds(
                rules[3].condition,
                args,
            ) || condition_holds(rules[4].condition, args) || condition_holds(
                rules[5].condition,
                args,
            ) || condition_holds(rules[6].condition, args));
        }
    } else {
        assert(rules[0].call == call);
    }
}

/// A blocked call that this machine has is denied exactly when its arguments ask
/// for it: `clone` with a namespace flag, `personality` with a value other than
/// 0, any other call always. A call that the machine does not have gets no rule.
/// Every denial is answered with the error for what is not permitted.
pub proof fn blocked_calls_are_denied(
    calls: Seq<Seq<char>>,
    known: Seq<bool>,
    call: int,
    args: Seq<u64>,
)
    requires
        calls.len() == known.len(),
        calls.len() <= usize::MAX,
        0 <= call < calls.len(),
    ensures
        denied(all_rules(calls, known), call, args) <==> known[call] && denial(calls[call], args),
        forall|i: int|
            0 <= i < all_rules(calls, known).len() ==> (#[trigger] all_rules(calls, known)[i]).call
                < calls.len() && all_rules(calls, known)[i].errno == NOT_PERMITTED,
    decreases calls.len(),
{
    let rules = all_rules(calls, known);
    let n = calls.len() - 1;
    let front_calls = calls.drop_last();
    let front = all_rules(front_calls, known.drop_last());
    let tail = if known.last() {
        call_rules(calls.last(), n)
    } else {
        Seq::empty()
    };
    assert(rules =~= front + tail);
    lemma_call_rules(calls.last(), n, args);
    if n > 0 {
        let c: int = if call < n { call } else { 0 };
        blocked_calls_are_denied(front_calls, known.drop_last(), c, args);
    }
    assert forall|i: int| 0 <= i < rules.len() implies (#[trigger] rules[i]).call < calls.len()
        && rules[i].errno == NOT_PERMITTED by {
        if i < front.len() {
            assert(rules[i] == front[i]);
        } else {
            assert(rules[i] == tail[i - front.len()]);
        }
    }
    if call < n {
        if denied(front, call, args) {
            let i = choose|i: int|
                0 <= i < front.len() && (#[trigger] front[i]).call == call && condition_holds(
                    front[i].condition,
                    args,
                );
            assert(rules[i] == front[i]);
        }
        if denied(rules, call, args) {
            let i = choose|i: int|
                0 <= i < rules.len() && (#[trigger] rules[i]).call == call && condition_holds(
                    rules[i].condition,
                    args,
                );
            if i < front.len() {
                assert(front[i] == rules[i]);
            } else {
                assert(rules[i] == tail[i - front.len()]);
            }
        }
    } else {
        if known[call] && denial(calls[call], args) {
            let i = choose|i: int|
                0 <= i < tail.len() && (#[trigger] tail[i]).call == call && condition_holds(
                    tail[i].condition,
                    args,
                );
            assert(rules[front.len() + i] == tail[i]);
        }
        if denied(rules, call, args) {
            let i = choose|i: int|
                0 <= i < rules.len() && (#[trigger] rules[i]).call == call && condition_holds(
                    rules[i].condition,
                    args,
                );
            if i < front.len() {
                assert(rules[i] == front[i]);
                assert(front[i].call < front_calls.len());
            } else {
                assert(rules[i] == tail[i - front.len()]);
                assert(denied(tail, call, args));
            }
        }
    }
}

/// Allowing a call unblocks that call and nothing else, whether it was filtered by
/// its name or through a list.
pub proof fn allowing_unblocks_only_what_it_names(
    filter_items: Seq<Seq<char>>,
    allow_items: Seq<Seq<char>>,
    allowed: Seq<char>,
    call: Seq<char>,
)
    requires
        !is_list(allowed),
    ensures
        blocked(filter_items, allow_items.push(allowed), call) <==> blocked(
            filter_items,
            allow_items,
            call,
        ) && call != allowed,
{
    let more = allow_items.push(allowed);
    assert(more[allow_items.len() as int] == allowed);
    if items_hold(allow_items, call) {
        let i = choose|i: int|
            0 <= i < allow_items.len() && item_holds(#[trigger] allow_items[i], call);
        assert(more[i] == allow_items[i]);
    }
    if call == allowed {
        assert(item_holds(more[allow_items.len() as int], call));
    }
    if items_hold(more, call) {
        let i = choose|i: int| 0 <= i < more.len() && item_holds(#[trigger] more[i], call);
        if i < allow_items.len() {
            assert(allow_items[i] == more[i]);
        }
    }
}

/// `@default` blocks exactly these calls: those that reach into the kernel, into
/// other processes, or out of a container.
pub proof fn the_default_list_blocks_these_calls(call: Seq<char>)
    ensures
        blocked(seq!["@default"@], Seq::empty(), call) <==> {
            ||| call == "acct"@
            ||| call == "add_key"@
            ||| call == "bpf"@
            ||| call == "clock_adjtime"@
            ||| call == "clock_settime"@
            ||| call == "create_module"@
            ||| call == "delete_module"@
            ||| call == "finit_module"@
            ||| call == "get_kernel_syms"@
            ||| call == "get_mempolicy"@
            ||| call == "init_module"@
            ||| call == "ioperm"@
            ||| call == "iopl"@
            ||| call == "kcmp"@
            ||| call == "kexec_file_load"@
            ||| call == "kexec_load"@
            ||| call == "keyctl"@
            ||| call == "lookup_dcookie"@
            ||| call == "mbind"@
            ||| call == "mount"@
            ||| call == "move_pages"@
            ||| call == "nfsservctl"@
            ||| call == "open_by_handle_at"@
            ||| call == "perf_event_open"@
            ||| call == "pivot_root"@
            ||| call == "process_vm_readv"@
            ||| call == "process_vm_writev"@
            ||| call == "ptrace"@
            ||| call == "query_module"@
            ||| call == "quotactl"@
            ||| call == "reboot"@
            ||| call == "request_key"@
            ||| call == "set_mempolicy"@
            ||| call == "setns"@
            ||| call == "settimeofday"@
            ||| call == "stime"@
            ||| call == "swapon"@
            ||| call == "swapoff"@
            ||| call == "sysfs"@
            ||| call == "_sysctl"@
            ||| call == "umount"@
            ||| call == "umount2"@
            ||| call == "unshare"@
            ||| call == "uselib"@
            ||| call == "userfaultfd"@
            ||| call == "ustat"@
            ||| call == "vm86"@
            ||| call == "vm86old"@
            ||| call == "clone"@
            ||| call == "personality"@
        },
{
    let items = seq!["@default"@];
    let item = "@default"@;
    let list = names(default_list());
    reveal_strlit("@default");
    reveal_strlit("default");
    reveal_strlit("mount");
    assert(item.drop_first() =~= "default"@);
    assert("default"@.len() != "mount"@.len());
    assert(items[0] == item);
    assert(list_named("default"@) == Some(list));
    assert(items_hold(items, call) <==> list.contains(call)) by {
        if list.contains(call) {
            assert(item_holds(items[0], call));
        }
        if items_hold(items, call) {
            let i = choose|i: int| 0 <= i < items.len() && item_holds(#[trigger] items[i], call);
            assert(items[i] == item);
        }
    }
    assert(!items_hold(Seq::empty(), call));
    assert(list.len() == 50);
    assert(list[0] == "acct"@);
    assert(list[1] == "add_key"@);
    assert(list[2] == "bpf"@);
    assert(list[3] == "clock_adjtime"@);
    assert(list[4] == "clock_settime"@);
    assert(list[5] == "create_module"@);
    assert(list[6] == "delete_module"@);
    assert(list[7] == "finit_module"@);
    assert(list[8] == "get_kernel_syms"@);
    assert(list[9] == "get_mempolicy"@);
    assert(list[10] == "init_module"@);
    assert(list[11] == "ioperm"@);
    assert(list[12] == "iopl"@);
    assert(list[13] == "kcmp"@);
    assert(list[14] == "kexec_file_load"@);
    assert(list[15] == "kexec_load"@);
    assert(list[16] == "keyctl"@);
    assert(list[17] == "lookup_dcookie"@);
    assert(list[18] == "mbind"@);
    assert(list[19] == "mount"@);
    assert(list[20] == "move_pages"@);
    assert(list[21] == "nfsservctl"@);
    assert(list[22] == "open_by_handle_at"@);
    assert(list[23] == "perf_event_open"@);
    assert(list[24] == "pivot_root"@);
    assert(list[25] == "process_vm_readv"@);
    assert(list[26] == "process_vm_writev"@);
    assert(list[27] == "ptrace"@);
    assert(list[28] == "query_module"@);
    assert(list[29] == "quotactl"@);
    assert(list[30] == "reboot"@);
    assert(list[31] == "request_key"@);
    assert(list[32] == "set_mempolicy"@);
    assert(list[33] == "setns"@);
    assert(list[34] == "settimeofday"@);
    assert(list[35] == "stime"@);
    assert(list[36] == "swapon"@);
    assert(list[37] == "swapoff"@);
    assert(list[38] == "sysfs"@);
    assert(list[39] == "_sysctl"@);
    assert(list[40] == "umount"@);
    assert(list[41] == "umount2"@);
    assert(list[42] == "unshare"@);
    assert(list[43] == "uselib"@);
    assert(list[44] == "userfaultfd"@);
    assert(list[45] == "ustat"@);
    assert(list[46] == "vm86"@);
    assert(list[47] == "vm86old"@);
    assert(list[48] == "clone"@);
    assert(list[49] == "personality"@);
}

/// `@mount` blocks exactly these calls: mounting, the newer mount interface, and the
/// namespace calls that help with it.
pub proof fn the_mount_list_blocks_these_calls(call: Seq<char>)
    ensures
        blocked(seq!["@mount"@], Seq::empty(), call) <==> {
            ||| call == "mount"@
            ||| call == "umount"@
            ||| call == "umount2"@
            ||| call == "pivot_root"@
            ||| call == "open_tree"@
            ||| call == "move_mount"@
            ||| call == "fsopen"@
            ||| call == "fsconfig"@
            ||| call == "fsmount"@
            ||| call == "mount_setattr"@
            ||| call == "unshare"@
            ||| call == "setns"@
            ||| call == "clone"@
        },
{
    let items = seq!["@mount"@];
    let item = "@mount"@;
    let list = names(mount_list());
    reveal_strlit("@mount");
    reveal_strlit("default");
    reveal_strlit("mount");
    assert(item.drop_first() =~= "mount"@);
    assert("default"@.len() != "mount"@.len());
    assert(items[0] == item);
    assert(list_named("mount"@) == Some(list));
    assert(items_hold(items, call) <==> list.contains(call)) by {
        if list.contains(call) {
            assert(item_holds(items[0], call));
        }
        if items_hold(items, call) {
            let i = choose|i: int| 0 <= i < items.len() && item_holds(#[trigger] items[i], call);
            assert(items[i] == item);
        }
    }
    assert(!items_hold(Seq::empty(), call));
    assert(list.len() == 13);
    assert(list[0] == "mount"@);
    assert(list[1] == "umount"@);
    assert(list[2] == "umount2"@);
    assert(list[3] == "pivot_root"@);
    assert(list[4] == "open_tree"@);
    assert(list[5] == "move_mount"@);
    assert(list[6] == "fsopen"@);
    assert(list[7] == "fsconfig"@);
    assert(list[8] == "fsmount"@);
    assert(list[9] == "mount_setattr"@);
    assert(list[10] == "unshare"@);
    assert(list[11] == "setns"@);
    assert(list[12] == "clone"@);
}

/// No list blocks what every program needs: reading, writing, memory, and executing.
pub proof fn ordinary_calls_are_not_blocked(call: Seq<char>)
    requires
        call == "read"@ || call == "write"@ || call == "brk"@ || call == "mmap"@ || call
            == "execve"@,
    ensures
        !blocked(seq!["@default"@], Seq::empty(), call),
        !blocked(seq!["@mount"@], Seq::empty(), call),
{
    the_default_list_blocks_these_calls(call);
    the_mount_list_blocks_these_calls(call);
    reveal_strlit("_sysctl");
    reveal_strlit("acct");
    reveal_strlit("add_key");
    reveal_strlit("bpf");
    reveal_strlit("clock_adjtime");
    reveal_strlit("clock_settime");
    reveal_strlit("clone");
    reveal_strlit("create_module");
    reveal_strlit("delete_module");
    reveal_strlit("finit_module");
    reveal_strlit("fsconfig");
    reveal_strlit("fsmount");
    reveal_strlit("fsopen");
    reveal_strlit("get_kernel_syms");
    reveal_strlit("get_mempolicy");
    reveal_strlit("init_module");
    reveal_strlit("ioperm");
    reveal_strlit("iopl");
    reveal_strlit("kcmp");
    reveal_strlit("kexec_file_load");
    reveal_strlit("kexec_load");
    reveal_strlit("keyctl");
    reveal_strlit("lookup_dcookie");
    reveal_strlit("mbind");
    reveal_strlit("mount");
    reveal_strlit("mount_setattr");
    reveal_strlit("move_mount");
    reveal_strlit("move_pages");
    reveal_strlit("nfsservctl");
    reveal_strlit("open_by_handle_at");
    reveal_strlit("open_tree");
    reveal_strlit("perf_event_open");
    reveal_strlit("personality");
    reveal_strlit("pivot_root");
    reveal_strlit("process_vm_readv");
    reveal_strlit("process_vm_writev");
    reveal_strlit("ptrace");
    reveal_strlit("query_module");
    reveal_strlit("quotactl");
    reveal_strlit("reboot");
    reveal_strlit("request_key");
    reveal_strlit("set_mempolicy");
    reveal_strlit("setns");
    reveal_strlit("settimeofday");
    reveal_strlit("stime");
    reveal_strlit("swapoff");
    reveal_strlit("swapon");
    reveal_strlit("sysfs");
    reveal_strlit("umount");
    reveal_strlit("umount2");
    reveal_strlit("unshare");
    reveal_strlit("uselib");
    reveal_strlit("userfaultfd");
    reveal_strlit("ustat");
    reveal_strlit("vm86");
    reveal_strlit("vm86old");
    reveal_strlit("read");
    reveal_strlit("write");
    reveal_strlit("brk");
    reveal_strlit("mmap");
    reveal_strlit("execve");
    assert(3 <= call.len() <= 6);
    assert("acct"@[0] != "read"@[0]);
    assert("acct"@[0] != "mmap"@[0]);
    assert(call != "acct"@);
    assert("bpf"@[1] != "brk"@[1]);
    assert(call != "bpf"@);
    assert("clone"@[0] != "write"@[0]);
    assert(call != "clone"@);
    assert("fsopen"@[0] != "execve"@[0]);
    assert(call != "fsopen"@);
    assert("ioperm"@[0] != "execve"@[0]);
    assert(call != "ioperm"@);
    assert("iopl"@[0] != "read"@[0]);
    assert("iopl"@[0] != "mmap"@[0]);
    assert(call != "iopl"@);
    assert("kcmp"@[0] != "read"@[0]);
    assert("kcmp"@[0] != "mmap"@[0]);
    assert(call != "kcmp"@);
    assert("keyctl"@[0] != "execve"@[0]);
    assert(call != "keyctl"@);
    assert("mbind"@[0] != "write"@[0]);
    assert(call != "mbind"@);
    assert("mount"@[0] != "write"@[0]);
    assert(call != "mount"@);
    assert("ptrace"@[0] != "execve"@[0]);
    assert(call != "ptrace"@);
    assert("reboot"@[0] != "execve"@[0]);
    assert(call != "reboot"@);
    assert("setns"@[0] != "write"@[0]);
    assert(call != "setns"@);
    assert("stime"@[0] != "write"@[0]);
    assert(call != "stime"@);
    assert("swapon"@[0] != "execve"@[0]);
    assert(call != "swapon"@);
    assert("sysfs"@[0] != "write"@[0]);
    assert(call != "sysfs"@);
    assert("umount"@[0] != "execve"@[0]);
    assert(call != "umount"@);
    assert("uselib"@[0] != "execve"@[0]);
    assert(call != "uselib"@);
    assert("ustat"@[0] != "write"@[0]);
    assert(call != "ustat"@);
    assert("vm86"@[0] != "read"@[0]);
    assert("vm86"@[0] != "mmap"@[0]);
    assert(call != "vm86"@);
    assert("_sysctl"@.len() == 7);
    assert("add_key"@.len() == 7);
    assert("clock_adjtime"@.len() == 13);
    assert("clock_settime"@.len() == 13);
    assert("create_module"@.len() == 13);
    assert("delete_module"@.len() == 13);
    assert("finit_module"@.len() == 12);
    assert("fsconfig"@.len() == 8);
    assert("fsmount"@.len() == 7);
    assert("get_kernel_syms"@.len() == 15);
    assert("get_mempolicy"@.len() == 13);
    assert("init_module"@.len() == 11);
    assert("kexec_file_load"@.len() == 15);
    assert("kexec_load"@.len() == 10);
    assert("lookup_dcookie"@.len() == 14);
    assert("mount_setattr"@.len() == 13);
    assert("move_mount"@.len() == 10);
    assert("move_pages"@.len() == 10);
    assert("nfsservctl"@.len() == 10);
    assert("open_by_handle_at"@.len() == 17);
    assert("open_tree"@.len() == 9);
    assert("perf_event_open"@.len() == 15);
    assert("personality"@.len() == 11);
    assert("pivot_root"@.len() == 10);
    assert("process_vm_readv"@.len() == 16);
    assert("process_vm_writev"@.len() == 17);
    assert("query_module"@.len() == 12);
    assert("quotactl"@.len() == 8);
    assert("request_key"@.len() == 11);
    assert("set_mempolicy"@.len() == 13);
    assert("settimeofday"@.len() == 12);
    assert("swapoff"@.len() == 7);
    assert("umount2"@.len() == 7);
    assert("unshare"@.len() == 7);
    assert("userfaultfd"@.len() == 11);
    assert("vm86old"@.len() == 7);
}

/// A name blocks the call of that name and no other.
pub proof fn names_block_themselves(name: Seq<char>, call: Seq<char>)
    requires
        name.len() == 0 || name[0] != '@',
    ensures
        known_item(name),
        blocked(seq![name], Seq::empty(), call) <==> call == name,
{
    let items = seq![name];
    assert(items[0] == name);
    assert(!items_hold(Seq::empty(), call));
    if call == name {
        assert(item_holds(items[0], call));
    }
}

/// The lists that exist are `@default` and `@mount`. Any other name after `@` is
/// unknown.
pub proof fn two_lists_exist(name: Seq<char>)
    ensures
        known_item(seq!['@'] + name) <==> name == "default"@ || name == "mount"@,
{
    assert((seq!['@'] + name).drop_first() =~= name);
}

proof fn lemma_items_concat(a: Seq<Seq<char>>, b: Seq<Seq<char>>, call: Seq<char>)
    ensures
        items_hold(a + b, call) <==> items_hold(a, call) || items_hold(b, call),
{
    let all = a + b;
    if items_hold(a, call) {
        let i = choose|i: int| 0 <= i < a.len() && item_holds(#[trigger] a[i], call);
        assert(all[i] == a[i]);
    }
    if items_hold(b, call) {
        let i = choose|i: int| 0 <= i < b.len() && item_holds(#[trigger] b[i], call);
        assert(all[a.len() + i] == b[i]);
    }
    if items_hold(all, call) {
        let i = choose|i: int| 0 <= i < all.len() && item_holds(#[trigger] all[i], call);
        if i < a.len() {
            assert(a[i] == all[i]);
        } else {
            assert(b[i - a.len()] == all[i]);
        }
    }
}

/// Filter items add up, allow items take away: a call is blocked by two lots of
/// filter items if either blocks it, and under two lots of allow items only if it is
/// under both. Allowing what is filtered leaves nothing blocked.
pub proof fn items_add_up_and_take_away(
    filter: Seq<Seq<char>>,
    more: Seq<Seq<char>>,
    allow: Seq<Seq<char>>,
    rest: Seq<Seq<char>>,
    call: Seq<char>,
)
    ensures
        blocked(filter + more, allow, call) <==> blocked(filter, allow, call) || blocked(
            more,
            allow,
            call,
        ),
        blocked(filter, allow + rest, call) <==> blocked(filter, allow, call) && blocked(
            filter,
            rest,
            call,
        ),
        !blocked(filter, filter, call),
        !blocked(Seq::empty(), allow, call),
{
    lemma_items_concat(filter, more, call);
    lemma_items_concat(allow, rest, call);
    assert(!items_hold(Seq::empty(), call));
}

/// What a call that the machine has gets, rule by rule: `clone` is denied for each of
/// the seven namespace flags in its first argument, `personality` for a first
/// argument other than zero, and any other call always, each with error number 1.
pub proof fn known_calls_get_their_rules(
    calls: Seq<Seq<char>>,
    known: Seq<bool>,
    call: usize,
)
    requires
        calls.len() == known.len(),
        calls.len() <= usize::MAX,
        call < calls.len(),
        known[call as int],
    ensures
        calls[call as int] == "clone"@ ==> forall|flag: u64|
            flag == 0x20000 || flag == 0x4000000 || flag == 0x8000000 || flag == 0x10000000 || flag
                == 0x20000000 || flag == 0x40000000 || flag == 0x2000000 ==> #[trigger] all_rules(
                calls,
                known,
            ).contains(
                (Rule {
                    call,
                    condition: Condition::MaskedEqual { arg: 0, mask: flag, value: flag },
                    errno: 1,
                }),
            ),
        calls[call as int] == "personality"@ ==> all_rules(calls, known).contains(
            (Rule { call, condition: Condition::NotEqual { arg: 0, value: 0 }, errno: 1 }),
        ),
        calls[call as int] != "clone"@ && calls[call as int] != "personality"@ ==> all_rules(
            calls,
            known,
        ).contains((Rule { call, condition: Condition::Always, errno: 1 })),
{
    let name = calls[call as int];
    let own = call_rules(name, call as int);
    reveal_strlit("clone");
    reveal_strlit("personality");
    assert("clone"@.len() != "personality"@.len());
    assert forall|r: Rule| #[trigger] own.contains(r) implies all_rules(calls, known).contains(
        r,
    ) by {
        lemma_rules_hold(calls, known, call as int, r);
    }
    if name == "clone"@ {
        let flags = namespace_flags();
        assert forall|flag: u64|
            flag == 0x20000 || flag == 0x4000000 || flag == 0x8000000 || flag == 0x10000000 || flag
                == 0x20000000 || flag == 0x40000000 || flag
                == 0x2000000 implies #[trigger] all_rules(calls, known).contains(
            (Rule {
                call,
                condition: Condition::MaskedEqual { arg: 0, mask: flag, value: flag },
                errno: 1,
            }),
        ) by {
            let i: int = if flag == 0x20000 {
                0
            } else if flag == 0x4000000 {
                1
            } else if flag == 0x8000000 {
                2
            } else if flag == 0x10000000 {
                3
            } else if flag == 0x20000000 {
                4
            } else if flag == 0x40000000 {
                5
            } else {
                6
            };
            assert(flags[i] == flag);
            let r = deny(
                call as int,
                Condition::MaskedEqual { arg: 0, mask: flag, value: flag },
            );
            assert(own[i] == r);
            assert(own.contains(r));
        }
    } else if name == "personality"@ {
        let r = deny(call as int, Condition::NotEqual { arg: 0, value: 0 });
        assert(own[0] == r);
        assert(own.contains(r));
    } else {
        let r = deny(call as int, Condition::Always);
        assert(own[0] == r);
        assert(own.contains(r));
    }
}

proof fn lemma_rules_hold(calls: Seq<Seq<char>>, known: Seq<bool>, call: int, r: Rule)
    requires
        calls.len() == known.len(),
        0 <= call < calls.len(),
        known[call],
        call_rules(calls[call], call).contains(r),
    ensures
        all_rules(calls, known).contains(r),
    decreases calls.len(),
{
    let n = calls.len() - 1;
    let front = all_rules(calls.drop_last(), known.drop_last());
    let all = all_rules(calls, known);
    if call < n {
        lemma_rules_hold(calls.drop_last(), known.drop_last(), call, r);
        let i = choose|i: int| 0 <= i < front.len() && front[i] == r;
        assert(all[i] == r);
    } else {
        let own = call_rules(calls[n], n);
        let i = choose|i: int| 0 <= i < own.len() && own[i] == r;
        assert(all[front.len() + i] == r);
    }
}

/// A blocked call that the machine has is denied exactly when it should be, whatever
/// else is blocked: `clone` when it would open a namespace of any kind, `personality`
/// when it would change anything, and any other call always.
pub proof fn calls_are_denied_when_they_should_be(
    calls: Seq<Seq<char>>,
    known: Seq<bool>,
    call: int,
    args: Seq<u64>,
)
    requires
        calls.len() == known.len(),
        calls.len() <= usize::MAX,
        0 <= call < calls.len(),
    ensures
        !known[call] ==> !denied(all_rules(calls, known), call, args),
        known[call] && calls[call] == "clone"@ ==> (denied(all_rules(calls, known), call, args)
            <==> {
            ||| args[0] & 0x20000 != 0
            ||| args[0] & 0x4000000 != 0
            ||| args[0] & 0x8000000 != 0
            ||| args[0] & 0x10000000 != 0
            ||| args[0] & 0x20000000 != 0
            ||| args[0] & 0x40000000 != 0
            ||| args[0] & 0x2000000 != 0
        }),
        known[call] && calls[call] == "personality"@ ==> (denied(
            all_rules(calls, known),
            call,
            args,
        ) <==> args[0] != 0),
        known[call] && calls[call] != "clone"@ && calls[call] != "personality"@ ==> denied(
            all_rules(calls, known),
            call,
            args,
        ),
{
    blocked_calls_are_denied(calls, known, call, args);
    reveal_strlit("clone");
    reveal_strlit("personality");
    assert("clone"@.len() != "personality"@.len());
    let x = args[0];
    assert(x & 0x7e020000 != 0 <==> (x & 0x20000 != 0 || x & 0x4000000 != 0 || x & 0x8000000 != 0
        || x & 0x10000000 != 0 || x & 0x20000000 != 0 || x & 0x40000000 != 0 || x & 0x2000000
        != 0)) by (bit_vector);
}

/// The list that is reported as unknown is the first one, by its name without the
/// sign in front.
pub proof fn the_first_unknown_list_is_reported(
    before: Seq<Seq<char>>,
    name: Seq<char>,
    after: Seq<Seq<char>>,
    reported: Seq<char>,
)
    requires
        all_known(before),
        name != "default"@,
        name != "mount"@,
    ensures
        first_unknown(before.push(seq!['@'] + name) + after, reported) <==> reported == name,
        !all_known(before.push(seq!['@'] + name) + after),
{
    let item = seq!['@'] + name;
    let items = before.push(item) + after;
    let n = before.len() as int;
    two_lists_exist(name);
    assert(items[n] == item);
    assert(item.drop_first() =~= name);
    assert forall|k: int| 0 <= k < n implies known_item(#[trigger] items[k]) by {
        assert(items[k] == before[k]);
    }
    if first_unknown(items, reported) {
        let i = choose|i: int|
            #![trigger items[i]]
            0 <= i < items.len() && !known_item(items[i]) && reported == items[i].drop_first()
                && forall|k: int| 0 <= k < i ==> known_item(#[trigger] items[k]);
        if n < i {
            assert(known_item(items[n]));
        }
    }
}

} // verus!
