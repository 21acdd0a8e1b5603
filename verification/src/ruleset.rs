//! The calls that put a Landlock ruleset in force.

use crate::access::{
    access_fs_from_all, access_fs_from_file, access_net, all_bits, covers, file_bits, net_bit,
    path_options_are_nested, ro_bits, rox_bits, rw_bits, rwx_bits, write_bits, NetRight,
    ABI_CEILING,
};
use crate::allow::AllowList;
use vstd::prelude::*;

verus! {

/// One call towards a ruleset in force.
#[derive(Debug, Clone, Copy, PartialEq, Eq, Structural)]
pub enum RulesetCall {
    /// Deny these file system rights wherever no rule grants them.
    HandleFs(u64),
    /// Deny these network rights wherever no rule grants them.
    HandleNet(u64),
    /// Deny abstract UNIX sockets from outside.
    ScopeAbstractUnixSocket,
    /// Make the ruleset, with what is to be denied.
    Create,
    /// Grant what the entry of the allowlist at this position grants.
    AllowPath(usize),
    /// Grant connecting to a TCP port.
    AllowConnect(u16),
    /// Grant binding a TCP port.
    AllowBind(u16),
    /// Put the ruleset in force.
    RestrictSelf,
}

/// What is asked for beside the allowlist.
#[derive(Debug)]
pub struct NetOptions {
    pub connect_ports: Vec<u16>,
    pub bind_ports: Vec<u16>,
    pub deny_connect: bool,
    pub deny_bind: bool,
    pub scope_abstract_unix_socket: bool,
}

impl NetOptions {
    /// Whether a network right is denied on all ports.
    pub open spec fn denies(&self, right: NetRight) -> bool {
        match right {
            NetRight::ConnectTcp => self.deny_connect,
            NetRight::BindTcp => self.deny_bind,
        }
    }

    /// The ports that are listed for a network right.
    pub open spec fn ports(&self, right: NetRight) -> Seq<u16> {
        match right {
            NetRight::ConnectTcp => self.connect_ports@,
            NetRight::BindTcp => self.bind_ports@,
        }
    }

    /// Whether a network right is to be denied where no rule grants it.
    pub open spec fn handles(&self, right: NetRight) -> bool {
        self.denies(right) || self.ports(right).len() > 0
    }

    /// The ports on which a network right is granted: those that are listed, and
    /// none if it is denied on all ports.
    pub open spec fn granted_ports(&self, right: NetRight) -> Seq<u16> {
        if self.denies(right) {
            Seq::empty()
        } else {
            self.ports(right)
        }
    }
}

/// The network rights to deny.
pub open spec fn net_bits(connect: bool, bind: bool) -> u64 {
    if connect && bind {
        0x3
    } else if connect {
        0x2
    } else if bind {
        0x1
    } else {
        0x0
    }
}

/// The calls before the ruleset is made: what is to be denied. The file system
/// is denied only if something on it is granted, the network only if something is
/// said of it.
pub open spec fn handle_calls(entries: nat, net: NetOptions) -> Seq<RulesetCall> {
    let fs = if entries > 0 {
        seq![RulesetCall::HandleFs(all_bits(ABI_CEILING))]
    } else {
        Seq::empty()
    };
    let connect = net.handles(NetRight::ConnectTcp);
    let bind = net.handles(NetRight::BindTcp);
    let tcp = if connect || bind {
        seq![RulesetCall::HandleNet(net_bits(connect, bind))]
    } else {
        Seq::empty()
    };
    let scope = if net.scope_abstract_unix_socket {
        seq![RulesetCall::ScopeAbstractUnixSocket]
    } else {
        Seq::empty()
    };
    fs + tcp + scope
}

/// A rule for every entry of the allowlist.
pub open spec fn path_calls(entries: nat) -> Seq<RulesetCall> {
    Seq::new(entries, |i: int| RulesetCall::AllowPath(i as usize))
}

/// The call that grants a network right on a port.
pub open spec fn port_grant(right: NetRight, port: u16) -> RulesetCall {
    match right {
        NetRight::ConnectTcp => RulesetCall::AllowConnect(port),
        NetRight::BindTcp => RulesetCall::AllowBind(port),
    }
}

/// A rule for every port on which a network right is granted.
pub open spec fn port_calls(right: NetRight, ports: Seq<u16>) -> Seq<RulesetCall> {
    ports.map_values(|port: u16| port_grant(right, port))
}

/// The calls after the ruleset is made: what is granted.
pub open spec fn rule_calls(entries: nat, net: NetOptions) -> Seq<RulesetCall> {
    path_calls(entries) + port_calls(
        NetRight::ConnectTcp,
        net.granted_ports(NetRight::ConnectTcp),
    ) + port_calls(NetRight::BindTcp, net.granted_ports(NetRight::BindTcp))
}

/// All calls, in order.
pub open spec fn ruleset_calls(entries: nat, net: NetOptions) -> Seq<RulesetCall> {
    handle_calls(entries, net).push(RulesetCall::Create) + rule_calls(entries, net).push(
        RulesetCall::RestrictSelf,
    )
}

/// The network rights to deny.
fn handled_net(connect: bool, bind: bool) -> (r: u64)
    ensures
        r == net_bits(connect, bind),
{
    assert(0u64 | 0x2u64 == 0x2u64 && 0u64 | 0x1u64 == 0x1u64 && 0x2u64 | 0x1u64 == 0x3u64)
        by (bit_vector);
    let mut bits: u64 = 0;
    if connect {
        bits = bits | access_net(NetRight::ConnectTcp);
    }
    if bind {
        bits = bits | access_net(NetRight::BindTcp);
    }
    bits
}

/// Lists what is to be denied.
fn list_handles(entries: usize, net: &NetOptions) -> (r: Vec<RulesetCall>)
    ensures
        r@ == handle_calls(entries as nat, *net),
{
    let mut calls: Vec<RulesetCall> = Vec::new();
    if entries > 0 {
        calls.push(RulesetCall::HandleFs(access_fs_from_all(ABI_CEILING)));
    }
    let connect: bool = net.deny_connect || net.connect_ports.len() > 0;
    let bind: bool = net.deny_bind || net.bind_ports.len() > 0;
    if connect || bind {
        calls.push(RulesetCall::HandleNet(handled_net(connect, bind)));
    }
    if net.scope_abstract_unix_socket {
        calls.push(RulesetCall::ScopeAbstractUnixSocket);
    }
    assert(calls@ =~= handle_calls(entries as nat, *net));
    calls
}

/// Adds a rule for every entry of the allowlist.
fn push_path_rules(calls: &mut Vec<RulesetCall>, entries: usize)
    ensures
        final(calls)@ == old(calls)@ + path_calls(entries as nat),
{
    let ghost head = calls@;
    let ghost want = path_calls(entries as nat);
    let mut i: usize = 0;
    assert(calls@ =~= head + want.take(0));
    while i < entries
        invariant
            i <= entries,
            want == path_calls(entries as nat),
            calls@ == head + want.take(i as int),
        decreases entries - i,
    {
        calls.push(RulesetCall::AllowPath(i));
        assert(want.take(i + 1) =~= want.take(i as int).push(want[i as int]));
        assert(calls@ =~= head + want.take(i + 1));
        i = i + 1;
    }
    assert(want.take(i as int) =~= want);
}

/// Adds a rule for every port of a list.
fn push_port_rules(calls: &mut Vec<RulesetCall>, right: NetRight, ports: &Vec<u16>)
    ensures
        final(calls)@ == old(calls)@ + port_calls(right, ports@),
{
    let ghost head = calls@;
    let ghost want = port_calls(right, ports@);
    let mut i: usize = 0;
    assert(calls@ =~= head + want.take(0));
    while i < ports.len()
        invariant
            i <= ports@.len(),
            want == port_calls(right, ports@),
            calls@ == head + want.take(i as int),
        decreases ports@.len() - i,
    {
        let port = ports[i];
        calls.push(
            match right {
                NetRight::ConnectTcp => RulesetCall::AllowConnect(port),
                NetRight::BindTcp => RulesetCall::AllowBind(port),
            },
        );
        assert(want.take(i + 1) =~= want.take(i as int).push(want[i as int]));
        assert(calls@ =~= head + want.take(i + 1));
        i = i + 1;
    }
    assert(want.take(i as int) =~= want);
}

/// Lists the calls that put an allowlist and network options in force. A network
/// right that is denied on all ports is granted on none, listed or not.
pub fn enforce_landlock(allow_fs: &AllowList, net: &NetOptions) -> (r: Vec<RulesetCall>)
    requires
        allow_fs.wf(),
    ensures
        r@ == ruleset_calls(allow_fs.entries().len(), *net),
{
    let entries: usize = allow_fs.len();
    let mut calls = list_handles(entries, net);
    calls.push(RulesetCall::Create);
    push_path_rules(&mut calls, entries);
    if !net.deny_connect {
        push_port_rules(&mut calls, NetRight::ConnectTcp, &net.connect_ports);
    }
    if !net.deny_bind {
        push_port_rules(&mut calls, NetRight::BindTcp, &net.bind_ports);
    }
    calls.push(RulesetCall::RestrictSelf);
    assert(calls@ =~= ruleset_calls(entries as nat, *net));
    calls
}

/// No right can be granted on a path.
#[derive(Debug, Clone, Copy, PartialEq, Eq, Structural)]
pub struct NoRights;

/// The rights that a rule for a path grants: on something that is not a
/// directory, only the rights that apply to it.
pub open spec fn path_rule_bits(access: u64, is_dir: bool) -> u64 {
    if is_dir {
        access
    } else {
        access & file_bits(ABI_CEILING)
    }
}

/// Decides the rights that a rule for a path grants. A rule that grants nothing is
/// an error.
pub fn build_path_rule(access: u64, is_dir: bool) -> (r: Result<u64, NoRights>)
    ensures
        match r {
            Ok(bits) => bits == path_rule_bits(access, is_dir) && bits != 0,
            Err(_) => path_rule_bits(access, is_dir) == 0,
        },
{
    let mut allowed: u64 = access;
    if !is_dir {
        allowed = allowed & access_fs_from_file(ABI_CEILING);
    }
    if allowed == 0 {
        Err(NoRights)
    } else {
        Ok(allowed)
    }
}

/// How far the kernel put a ruleset in force.
#[derive(Debug, Clone, Copy, PartialEq, Eq, Structural)]
pub enum Enforcement {
    Fully,
    Partially,
    Not,
}

/// Whether calls let a network right be used on a port: it is not denied, or it is
/// granted there.
pub open spec fn port_open(calls: Seq<RulesetCall>, right: NetRight, port: u16) -> bool {
    ||| forall|i: int|
        0 <= i < calls.len() && (#[trigger] calls[i]) is HandleNet ==> calls[i]->HandleNet_0
            & net_bit(right) == 0
    ||| calls.contains(port_grant(right, port))
}

proof fn lemma_net_bits(connect: bool, bind: bool)
    ensures
        net_bits(connect, bind) & net_bit(NetRight::ConnectTcp) == 0 <==> !connect,
        net_bits(connect, bind) & net_bit(NetRight::BindTcp) == 0 <==> !bind,
{
    assert(0x3u64 & 0x2u64 != 0 && 0x3u64 & 0x1u64 != 0 && 0x2u64 & 0x2u64 != 0 && 0x2u64 & 0x1u64
        == 0 && 0x1u64 & 0x1u64 != 0 && 0x1u64 & 0x2u64 == 0 && 0x0u64 & 0x1u64 == 0 && 0x0u64
        & 0x2u64 == 0) by (bit_vector);
}

proof fn lemma_handle_net(entries: nat, net: NetOptions, bits: u64)
    requires
        bits == net_bits(net.handles(NetRight::ConnectTcp), net.handles(NetRight::BindTcp)),
    ensures
        forall|i: int|
            0 <= i < ruleset_calls(entries, net).len() && (#[trigger] ruleset_calls(
                entries,
                net,
            )[i]) is HandleNet ==> ruleset_calls(entries, net)[i]->HandleNet_0 == bits,
        net.handles(NetRight::ConnectTcp) || net.handles(NetRight::BindTcp) ==> ruleset_calls(
            entries,
            net,
        ).contains(RulesetCall::HandleNet(bits)),
{
    let calls = ruleset_calls(entries, net);
    let head = handle_calls(entries, net).push(RulesetCall::Create);
    let tail = rule_calls(entries, net).push(RulesetCall::RestrictSelf);
    assert forall|i: int|
        0 <= i < calls.len() && (#[trigger] calls[i]) is HandleNet implies calls[i]->HandleNet_0
        == bits by {
        if i >= head.len() {
            assert(calls[i] == tail[i - head.len()]);
        } else {
            assert(calls[i] == head[i]);
        }
    }
    if net.handles(NetRight::ConnectTcp) || net.handles(NetRight::BindTcp) {
        let at: int = if entries > 0 { 1 } else { 0 };
        assert(head[at] == RulesetCall::HandleNet(bits));
        assert(calls[at] == head[at]);
    }
}

/// A network right can be used on all ports if nothing is said of it, else on
/// exactly the ports on which it is granted.
proof fn lemma_port_open(entries: nat, net: NetOptions, right: NetRight, port: u16)
    ensures
        port_open(ruleset_calls(entries, net), right, port) <==> !net.handles(right)
            || net.granted_ports(right).contains(port),
{
    let calls = ruleset_calls(entries, net);
    let grant = port_grant(right, port);
    let granted = net.granted_ports(right);
    let connect = net.handles(NetRight::ConnectTcp);
    let bind = net.handles(NetRight::BindTcp);
    let bits = net_bits(connect, bind);
    lemma_handle_net(entries, net, bits);
    lemma_net_bits(connect, bind);
    let head = handle_calls(entries, net).push(RulesetCall::Create);
    let tail = rule_calls(entries, net).push(RulesetCall::RestrictSelf);
    let before: nat = match right {
        NetRight::ConnectTcp => entries,
        NetRight::BindTcp => entries + net.granted_ports(NetRight::ConnectTcp).len(),
    };
    if granted.contains(port) {
        let k = choose|k: int| 0 <= k < granted.len() && granted[k] == port;
        assert(tail[before + k] == grant);
        assert(calls[head.len() + before + k] == grant);
    }
    if calls.contains(grant) {
        let i = choose|i: int| 0 <= i < calls.len() && calls[i] == grant;
        if i < head.len() {
            assert(calls[i] == head[i]);
        } else {
            assert(calls[i] == tail[i - head.len()]);
            assert(granted[i - head.len() - before] == port);
        }
    }
    if net.handles(right) {
        let i = choose|i: int| 0 <= i < calls.len() && calls[i] == RulesetCall::HandleNet(bits);
        assert(calls[i] == RulesetCall::HandleNet(bits));
    }
}

/// Connecting is open to all ports if nothing is said of it, to none if it is
/// denied, whatever is listed, else to exactly the ports that are listed.
pub proof fn connecting_is_open_to_listed_ports(entries: nat, net: NetOptions, port: u16)
    ensures
        port_open(ruleset_calls(entries, net), NetRight::ConnectTcp, port) <==> {
            ||| !net.deny_connect && net.connect_ports@.len() == 0
            ||| !net.deny_connect && net.connect_ports@.contains(port)
        },
{
    lemma_port_open(entries, net, NetRight::ConnectTcp, port);
}

/// Binding is open to all ports if nothing is said of it, to none if it is denied,
/// whatever is listed, else to exactly the ports that are listed.
pub proof fn binding_is_open_to_listed_ports(entries: nat, net: NetOptions, port: u16)
    ensures
        port_open(ruleset_calls(entries, net), NetRight::BindTcp, port) <==> {
            ||| !net.deny_bind && net.bind_ports@.len() == 0
            ||| !net.deny_bind && net.bind_ports@.contains(port)
        },
{
    lemma_port_open(entries, net, NetRight::BindTcp, port);
}

/// The rule for a directory grants every right of its entry. On anything else it
/// grants exactly those that apply to a file: executing, writing, reading,
/// truncating and device control.
pub proof fn directories_keep_all_their_rights(access: u64, bit: u64)
    ensures
        path_rule_bits(access, true) == access,
        path_rule_bits(access, false) & bit == bit <==> access & bit == bit && 0xc007 & bit == bit,
        path_rule_bits(access, false) | access == access,
        covers(path_rule_bits(rw_bits(), true), write_bits(ABI_CEILING)),
        covers(path_rule_bits(rwx_bits(), true), all_bits(ABI_CEILING)),
        covers(path_rule_bits(ro_bits(), true), ro_bits()),
        covers(path_rule_bits(rox_bits(), true), rox_bits()),
{
    path_options_are_nested();
    assert((access & 0xc007) & bit == bit <==> (access & bit == bit && 0xc007 & bit == bit))
        by (bit_vector);
    assert((access & 0xc007) | access == access) by (bit_vector);
    assert(0xffffu64 & 0xffff == 0xffff && 0xcu64 & 0xc == 0xc && 0xdu64 & 0xd == 0xd)
        by (bit_vector);
}

/// The calls come in the only order that works: first all that is to be denied, then
/// the ruleset is made, then all that is granted, and last it is put in force.
pub proof fn calls_come_in_order(entries: nat, net: NetOptions, i: int, j: int)
    requires
        0 <= i < ruleset_calls(entries, net).len(),
        0 <= j < ruleset_calls(entries, net).len(),
        ruleset_calls(entries, net)[j] == RulesetCall::Create,
    ensures
        ({
            let call = ruleset_calls(entries, net)[i];
            &&& call is HandleFs || call is HandleNet || call == RulesetCall::ScopeAbstractUnixSocket
                <==> i < j
            &&& call is AllowPath || call is AllowConnect || call is AllowBind <==> j < i
                < ruleset_calls(entries, net).len() - 1
            &&& call == RulesetCall::RestrictSelf <==> i == ruleset_calls(entries, net).len() - 1
            &&& call == RulesetCall::Create <==> i == j
        }),
{
    lemma_kinds(entries, net, i);
    lemma_kinds(entries, net, j);
}

proof fn lemma_kinds(entries: nat, net: NetOptions, i: int)
    requires
        0 <= i < ruleset_calls(entries, net).len(),
    ensures
        ({
            let call = ruleset_calls(entries, net)[i];
            let h = handle_calls(entries, net).len();
            let n = ruleset_calls(entries, net).len();
            &&& n == h + 2 + rule_calls(entries, net).len()
            &&& i < h ==> call is HandleFs || call is HandleNet || call
                == RulesetCall::ScopeAbstractUnixSocket
            &&& i == h ==> call == RulesetCall::Create
            &&& h < i < n - 1 ==> call is AllowPath || call is AllowConnect || call is AllowBind
            &&& i == n - 1 ==> call == RulesetCall::RestrictSelf
        }),
{
    let head = handle_calls(entries, net);
    let rules = rule_calls(entries, net);
    let h = head.len() as int;
    let calls = ruleset_calls(entries, net);
    assert(calls.len() == h + 1 + rules.len() + 1);
    if i < h {
        assert(calls[i] == head[i]);
    } else if i > h && i < calls.len() - 1 {
        assert(calls[i] == rules[i - h - 1]);
    }
}

/// The ruleset is made exactly once.
pub proof fn the_ruleset_is_made(entries: nat, net: NetOptions)
    ensures
        ruleset_calls(entries, net).contains(RulesetCall::Create),
        ruleset_calls(entries, net).last() == RulesetCall::RestrictSelf,
{
    let h = handle_calls(entries, net).len() as int;
    lemma_kinds(entries, net, h);
    assert(ruleset_calls(entries, net)[h] == RulesetCall::Create);
}

/// As soon as a path is allowed, every right on the file system is denied where it is
/// not granted, and every entry of the allowlist is granted, and no more. Abstract
/// sockets are scoped exactly if that is asked for.
pub proof fn every_entry_is_granted(entries: nat, net: NetOptions, i: usize)
    requires
        entries <= usize::MAX,
    ensures
        entries > 0 <==> ruleset_calls(entries, net).contains(RulesetCall::HandleFs(0xffff)),
        i < entries <==> ruleset_calls(entries, net).contains(RulesetCall::AllowPath(i)),
        net.scope_abstract_unix_socket <==> ruleset_calls(entries, net).contains(
            RulesetCall::ScopeAbstractUnixSocket,
        ),
{
    let calls = ruleset_calls(entries, net);
    let head = handle_calls(entries, net);
    let rules = rule_calls(entries, net);
    let h = head.len() as int;
    if entries > 0 {
        assert(calls[0] == head[0]);
        assert(calls[0] == RulesetCall::HandleFs(0xffff));
    }
    if i < entries {
        assert(path_calls(entries)[i as int] == RulesetCall::AllowPath(i));
        assert(rules[i as int] == RulesetCall::AllowPath(i));
        assert(calls[h + 1 + i] == rules[i as int]);
    }
    if net.scope_abstract_unix_socket {
        assert(head[h - 1] == RulesetCall::ScopeAbstractUnixSocket);
        assert(calls[h - 1] == head[h - 1]);
    }
    assert forall|k: int| 0 <= k < calls.len() implies {
        &&& (#[trigger] calls[k]) == RulesetCall::HandleFs(0xffff) ==> entries > 0
        &&& calls[k] == RulesetCall::AllowPath(i) ==> i < entries
        &&& calls[k] == RulesetCall::ScopeAbstractUnixSocket ==> net.scope_abstract_unix_socket
    } by {
        lemma_kinds(entries, net, k);
        if k < h {
            assert(calls[k] == head[k]);
        } else if h < k && k < calls.len() - 1 {
            let m = k - h - 1;
            assert(calls[k] == rules[m]);
            if m < entries {
                assert(rules[m] == RulesetCall::AllowPath(m as usize));
            }
        }
    }
}

} // verus!
