//! Resolving the user that a command is run as.

use crate::bytes::copy;
use crate::command::{c_string, no_nul};
use crate::text::{parse_u32, parsed_u32};
use vstd::prelude::*;
use vstd::utf8::encode_utf8;

verus! {

/// How many groups are asked for at first.
pub const FIRST_GROUPS: usize = 16;

/// The buffer size for a password entry where the system names none.
pub const DEFAULT_PASSWD_BUFFER: usize = 16384;

/// Why a user cannot be resolved.
#[derive(Debug, Clone, Copy, PartialEq, Eq, Structural)]
pub enum UserError {
    /// Only root may change identity. Holds the effective user id.
    NotRoot(u32),
    /// A name with a NUL byte in it is no user.
    NulInName,
    /// The password database could not be read. Holds the error number.
    Lookup(i32),
    /// The password database has no such user.
    NoSuchUser,
    /// The groups could not be read.
    Groups,
}

/// How a user is looked up, as a mathematical value.
pub enum UserQueryView {
    ByUid(u32),
    ByName(Seq<u8>),
}

/// How a user is looked up.
#[derive(Debug)]
pub enum UserQuery {
    ByUid(u32),
    ByName(Vec<u8>),
}

impl View for UserQuery {
    type V = UserQueryView;

    open spec fn view(&self) -> UserQueryView {
        match *self {
            UserQuery::ByUid(uid) => UserQueryView::ByUid(uid),
            UserQuery::ByName(name) => UserQueryView::ByName(name@),
        }
    }
}

/// Decides how the user that `spec` names is looked up: by number if it is one,
/// else by name. Only root gets that far.
pub fn resolve_user(euid: u32, spec: &str) -> (r: Result<UserQuery, UserError>)
    ensures
        match r {
            Ok(q) => euid == 0 && match parsed_u32(spec@) {
                Some(uid) => q@ == UserQueryView::ByUid(uid),
                None => no_nul(encode_utf8(spec@)) && q@ == UserQueryView::ByName(
                    encode_utf8(spec@),
                ),
            },
            Err(e) => if euid != 0 {
                e == UserError::NotRoot(euid)
            } else {
                e == UserError::NulInName && parsed_u32(spec@) is None && !no_nul(
                    encode_utf8(spec@),
                )
            },
        },
{
    if euid != 0 {
        return Err(UserError::NotRoot(euid));
    }
    match parse_u32(spec) {
        Some(uid) => Ok(UserQuery::ByUid(uid)),
        None => {
            let name = spec.as_bytes_vec();
            match c_string(&name) {
                Some(_) => Ok(UserQuery::ByName(name)),
                None => Err(UserError::NulInName),
            }
        },
    }
}

/// The size of the buffer for a password entry, given what the system suggests:
/// nothing positive means that it suggests none.
pub fn pw_buf_size(suggested: isize) -> (r: usize)
    ensures
        r == (if suggested <= 0 {
            DEFAULT_PASSWD_BUFFER as int
        } else {
            suggested as int
        }),
{
    if suggested <= 0 {
        DEFAULT_PASSWD_BUFFER
    } else {
        suggested as usize
    }
}

/// An entry of the password database.
#[derive(Debug)]
pub struct PasswdEntry {
    pub name: Vec<u8>,
    pub uid: u32,
    pub gid: u32,
}

/// What a lookup in the password database came to, given the error number, zero
/// for none, and the entry, if one was found.
pub open spec fn lookup_error(rc: i32, found: bool) -> Option<UserError> {
    if rc != 0 {
        Some(UserError::Lookup(rc))
    } else if !found {
        Some(UserError::NoSuchUser)
    } else {
        None
    }
}

/// The ids of a user that was looked up by name.
pub fn passwd_by_name(rc: i32, entry: &Option<PasswdEntry>) -> (r: Result<(u32, u32), UserError>)
    ensures
        match r {
            Ok(ids) => lookup_error(rc, entry is Some) is None && ids == (
                entry->0.uid,
                entry->0.gid,
            ),
            Err(e) => lookup_error(rc, entry is Some) == Some(e),
        },
{
    if rc != 0 {
        return Err(UserError::Lookup(rc));
    }
    match entry {
        Some(e) => Ok((e.uid, e.gid)),
        None => Err(UserError::NoSuchUser),
    }
}

/// The name and the group of a user that was looked up by number.
pub fn passwd_by_uid(rc: i32, entry: &Option<PasswdEntry>) -> (r: Result<
    (Vec<u8>, u32),
    UserError,
>)
    ensures
        match r {
            Ok((name, gid)) => lookup_error(rc, entry is Some) is None && name@ == entry->0.name@
                && gid == entry->0.gid,
            Err(e) => lookup_error(rc, entry is Some) == Some(e),
        },
{
    if rc != 0 {
        return Err(UserError::Lookup(rc));
    }
    match entry {
        Some(e) => Ok((copy(&e.name), e.gid)),
        None => Err(UserError::NoSuchUser),
    }
}

/// A user whose groups are being looked up, with room for some of them.
#[derive(Debug)]
pub struct GroupQuery {
    pub name: Vec<u8>,
    pub uid: u32,
    pub gid: u32,
    pub capacity: usize,
}

/// Takes a user from the password database on to the groups. A user who was asked
/// for by number keeps that number, one who was asked for by name that name.
pub fn found_user(query: UserQuery, rc: i32, entry: &Option<PasswdEntry>) -> (r: Result<
    GroupQuery,
    UserError,
>)
    ensures
        match r {
            Ok(g) => {
                &&& lookup_error(rc, entry is Some) is None
                &&& g.gid == entry->0.gid
                &&& g.capacity == FIRST_GROUPS
                &&& match query@ {
                    UserQueryView::ByUid(uid) => g.uid == uid && g.name@ == entry->0.name@,
                    UserQueryView::ByName(name) => g.uid == entry->0.uid && g.name@ == name,
                }
            },
            Err(e) => lookup_error(rc, entry is Some) == Some(e),
        },
{
    match query {
        UserQuery::ByUid(uid) => {
            let (name, gid) = match passwd_by_uid(rc, entry) {
                Ok(found) => found,
                Err(e) => {
                    return Err(e);
                },
            };
            Ok(GroupQuery { name, uid, gid, capacity: FIRST_GROUPS })
        },
        UserQuery::ByName(name) => {
            let (uid, gid) = match passwd_by_name(rc, entry) {
                Ok(found) => found,
                Err(e) => {
                    return Err(e);
                },
            };
            Ok(GroupQuery { name, uid, gid, capacity: FIRST_GROUPS })
        },
    }
}

/// Who a command is run as.
#[derive(Debug)]
pub struct UserInfo {
    pub name: Vec<u8>,
    pub uid: u32,
    pub gid: u32,
    pub groups: Vec<u32>,
}

/// Whether a user is the one that `spec` names, by number or by name, with their
/// groups in order.
pub open spec fn named_by(spec: Seq<char>, user: UserInfo) -> bool {
    &&& match parsed_u32(spec) {
        Some(uid) => user.uid == uid,
        None => user.name@ == encode_utf8(spec),
    }
    &&& increasing(user.groups@)
}

/// The real, the effective and the saved id that a process takes on.
#[derive(Debug, Clone, Copy, PartialEq, Eq, Structural)]
pub struct Ids {
    pub real: u32,
    pub effective: u32,
    pub saved: u32,
}

/// Three times the same id, which leaves no other to go back to.
pub open spec fn only(id: u32) -> Ids {
    Ids { real: id, effective: id, saved: id }
}

/// What a process changes to become a user: its groups, then its group ids, then
/// its user ids.
#[derive(Debug)]
pub struct Identity {
    pub groups: Vec<u32>,
    pub gids: Ids,
    pub uids: Ids,
}

/// What a process changes to become a user, for good.
pub fn drop_privileges(user: &UserInfo) -> (r: Identity)
    ensures
        r.groups@ == user.groups@,
        r.gids == only(user.gid),
        r.uids == only(user.uid),
{
    let mut groups: Vec<u32> = Vec::new();
    let mut i: usize = 0;
    while i < user.groups.len()
        invariant
            i <= user.groups@.len(),
            groups@ == user.groups@.take(i as int),
        decreases user.groups@.len() - i,
    {
        groups.push(user.groups[i]);
        assert(user.groups@.take(i + 1) =~= user.groups@.take(i as int).push(
            user.groups@[i as int],
        ));
        i = i + 1;
    }
    assert(user.groups@.take(i as int) =~= user.groups@);
    Identity {
        groups,
        gids: Ids { real: user.gid, effective: user.gid, saved: user.gid },
        uids: Ids { real: user.uid, effective: user.uid, saved: user.uid },
    }
}

/// What comes after a look at the groups.
#[derive(Debug)]
pub enum GroupStep {
    /// Look again, with room for as many groups as there are.
    Retry(GroupQuery),
    /// All groups are known.
    Done(UserInfo),
}

/// Whether numbers stand in strictly ascending order.
pub open spec fn increasing(s: Seq<u32>) -> bool {
    forall|i: int, j: int| 0 <= i < j < s.len() ==> #[trigger] s[i] < #[trigger] s[j]
}

/// Whether `out` is the numbers of `s` in ascending order, each once.
pub open spec fn distinct_sorted(s: Seq<u32>, out: Seq<u32>) -> bool {
    &&& increasing(out)
    &&& forall|x: u32| #[trigger] out.contains(x) <==> s.contains(x)
}

/// Sorts numbers and drops repetitions.
pub fn sort_groups(s: &Vec<u32>, len: usize) -> (r: Vec<u32>)
    requires
        len <= s@.len(),
    ensures
        distinct_sorted(s@.take(len as int), r@),
{
    let mut r: Vec<u32> = Vec::new();
    let mut i: usize = 0;
    while i < len
        invariant
            i <= len <= s@.len(),
            distinct_sorted(s@.take(i as int), r@),
        decreases len - i,
    {
        let x = s[i];
        let ghost before = r@;
        let mut at: usize = 0;
        while at < r.len() && r[at] < x
            invariant
                at <= r@.len(),
                r@ == before,
                forall|k: int| 0 <= k < at ==> #[trigger] before[k] < x,
            decreases r@.len() - at,
        {
            at = at + 1;
        }
        let ghost seen = s@.take(i as int);
        let ghost now = s@.take(i + 1);
        assert(now =~= seen.push(x));
        assert forall|y: u32| #[trigger] now.contains(y) <==> seen.contains(y) || y == x by {
            if seen.contains(y) {
                let k = choose|k: int| 0 <= k < seen.len() && seen[k] == y;
                assert(now[k] == y);
            }
            if y == x {
                assert(now[i as int] == y);
            }
        }
        if at < r.len() && r[at] == x {
            assert(before[at as int] == x);
            assert(before.contains(x));
        } else {
            r.insert(at, x);
            proof {
                let more = before.insert(at as int, x);
                assert forall|y: u32| #[trigger] more.contains(y) <==> before.contains(y) || y == x by {
                    if before.contains(y) {
                        let k = choose|k: int| 0 <= k < before.len() && before[k] == y;
                        let m: int = if k < at { k } else { k + 1 };
                        assert(more[m] == y);
                    }
                    if y == x {
                        assert(more[at as int] == y);
                    }
                    if more.contains(y) && y != x {
                        let m = choose|m: int| 0 <= m < more.len() && more[m] == y;
                        let k: int = if m < at { m } else { m - 1 };
                        assert(before[k] == y);
                    }
                }
                assert forall|p: int, q: int| 0 <= p < q < more.len() implies #[trigger] more[p]
                    < #[trigger] more[q] by {
                    if at < before.len() {
                        assert(x < before[at as int]);
                    }
                    if p == at {
                        assert(more[q] == before[q - 1]);
                        if q - 1 > at {
                            assert(before[at as int] < before[q - 1]);
                        }
                    } else if q == at {
                        assert(more[p] == before[p]);
                    } else {
                        let p2: int = if p < at { p } else { p - 1 };
                        let q2: int = if q < at { q } else { q - 1 };
                        assert(before[p2] < before[q2]);
                    }
                }
            }
        }
        i = i + 1;
    }
    r
}

/// How many of the `filled` numbers count, when the system says that it wrote
/// `n`.
pub open spec fn group_count(n: i32, filled: nat) -> nat {
    if 0 <= n <= filled {
        n as nat
    } else {
        filled
    }
}

/// Takes in an answer of the system on the groups of a user: its return code,
/// how many groups it says there are, and the groups it wrote. A negative return
/// code means that there was too little room. All groups are known otherwise:
/// they are sorted, each once.
pub fn supplementary_groups(query: GroupQuery, rc: i32, n: i32, groups: &Vec<u32>) -> (r: Result<
    GroupStep,
    UserError,
>)
    ensures
        match r {
            Ok(GroupStep::Done(u)) => {
                &&& rc >= 0
                &&& u.name@ == query.name@
                &&& u.uid == query.uid
                &&& u.gid == query.gid
                &&& distinct_sorted(
                    groups@.take(group_count(n, groups@.len()) as int),
                    u.groups@,
                )
            },
            Ok(GroupStep::Retry(q)) => {
                &&& rc < 0
                &&& n > 0
                &&& q.name@ == query.name@
                &&& q.uid == query.uid
                &&& q.gid == query.gid
                &&& q.capacity == n
            },
            Err(e) => rc < 0 && n <= 0 && e == UserError::Groups,
        },
{
    if rc >= 0 {
        let count: usize = if n >= 0 && n as usize <= groups.len() {
            n as usize
        } else {
            groups.len()
        };
        let groups = sort_groups(groups, count);
        return Ok(
            GroupStep::Done(
                UserInfo { name: query.name, uid: query.uid, gid: query.gid, groups },
            ),
        );
    }
    if n <= 0 {
        return Err(UserError::Groups);
    }
    Ok(
        GroupStep::Retry(
            GroupQuery {
                name: query.name,
                uid: query.uid,
                gid: query.gid,
                capacity: n as usize,
            },
        ),
    )
}

/// The groups of a user have one sorted form: two lists in ascending order with
/// the same numbers are the same.
pub proof fn sorted_groups_are_unique(s: Seq<u32>, a: Seq<u32>, b: Seq<u32>)
    requires
        distinct_sorted(s, a),
        distinct_sorted(s, b),
    ensures
        a == b,
{
    lemma_increasing_unique(a, b);
}

proof fn lemma_increasing_unique(a: Seq<u32>, b: Seq<u32>)
    requires
        increasing(a),
        increasing(b),
        forall|x: u32| a.contains(x) <==> b.contains(x),
    ensures
        a == b,
    decreases a.len(),
{
    if a.len() == 0 {
        if b.len() > 0 {
            assert(b.contains(b[0]));
        }
        assert(a =~= b);
    } else {
        let m = a.last();
        assert(a.contains(m));
        let k = choose|k: int| 0 <= k < b.len() && b[k] == m;
        assert(b.contains(b.last()));
        let j = choose|j: int| 0 <= j < a.len() && a[j] == b.last();
        assert(m == b.last());
        let (fa, fb) = (a.drop_last(), b.drop_last());
        assert forall|x: u32| fa.contains(x) <==> fb.contains(x) by {
            if fa.contains(x) {
                let i = choose|i: int| 0 <= i < fa.len() && fa[i] == x;
                assert(a[i] == x && x < m);
                assert(a.contains(x));
                let q = choose|q: int| 0 <= q < b.len() && b[q] == x;
                assert(fb[q] == x);
            }
            if fb.contains(x) {
                let i = choose|i: int| 0 <= i < fb.len() && fb[i] == x;
                assert(b[i] == x && x < m);
                assert(b.contains(x));
                let q = choose|q: int| 0 <= q < a.len() && a[q] == x;
                assert(fa[q] == x);
            }
        }
        lemma_increasing_unique(fa, fb);
        assert(a =~= fa.push(m));
        assert(b =~= fb.push(m));
    }
}

/// A user is looked up by number exactly if the text is one, and has that number;
/// else by name, and has that name.
pub proof fn users_are_the_ones_asked_for(spec: Seq<char>, user: UserInfo)
    requires
        named_by(spec, user),
    ensures
        parsed_u32(spec) matches Some(uid) ==> user.uid == uid,
        parsed_u32(spec) is None ==> user.name@ == encode_utf8(spec),
        forall|i: int, j: int|
            0 <= i < j < user.groups@.len() ==> #[trigger] user.groups@[i]
                < #[trigger] user.groups@[j],
{
}

/// A lookup fails with the error number it gave, or because it found nobody, and
/// else succeeds.
pub proof fn lookups_fail_for_a_reason(rc: i32, found: bool)
    ensures
        rc != 0 ==> lookup_error(rc, found) == Some(UserError::Lookup(rc)),
        rc == 0 && !found ==> lookup_error(rc, found) == Some(UserError::NoSuchUser),
        rc == 0 && found ==> lookup_error(rc, found) is None,
{
}

/// Sorting groups keeps every group and adds none, and puts smaller numbers first,
/// each once.
pub proof fn no_group_is_lost(s: Seq<u32>, out: Seq<u32>, x: u32, i: int, j: int)
    requires
        distinct_sorted(s, out),
    ensures
        s.contains(x) <==> out.contains(x),
        0 <= i < j < out.len() ==> out[i] < out[j],
{
}

/// As many groups count as the system says that it wrote, and all that there is
/// room for where that cannot be.
pub proof fn written_groups_count(n: i32, filled: nat)
    ensures
        0 <= n <= filled ==> group_count(n, filled) == n,
        n < 0 || n > filled ==> group_count(n, filled) == filled,
{
}

/// Whoever takes on an id has no other left: the real, the effective and the saved id
/// are all that one.
pub proof fn no_other_id_is_left(id: u32)
    ensures
        only(id).real == id,
        only(id).effective == id,
        only(id).saved == id,
{
}

} // verus!
