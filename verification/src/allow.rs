//! The allowlist: which paths a sandboxed command may reach, and how.

use crate::access::covers;
use crate::bytes::{copy, views};
use crate::order::same_path;
use crate::path::{cleaned, components_of, normalize_path, normalized, opt_view, Comp};
use crate::pathset::{ascending, ascending_paths_are_distinct, lemma_insert_ascending, locate};
use vstd::prelude::*;

verus! {

/// Paths with the spelling they are listed under and the rights granted on them.
pub type Grants = Map<Seq<Comp>, (Seq<u8>, u64)>;

/// Whether a path is listed at position `i`.
pub open spec fn entry_is(entries: Seq<(Seq<u8>, u64)>, key: Seq<Comp>, i: int) -> bool {
    0 <= i < entries.len() && components_of(entries[i].0) == key
}

/// What a list of entries grants.
pub open spec fn grants_of(entries: Seq<(Seq<u8>, u64)>) -> Grants {
    Map::new(
        |key: Seq<Comp>| exists|i: int| entry_is(entries, key, i),
        |key: Seq<Comp>| entries[choose|i: int| entry_is(entries, key, i)],
    )
}

/// The paths of a list of entries.
pub open spec fn entry_paths(entries: Seq<(Seq<u8>, u64)>) -> Seq<Seq<u8>> {
    entries.map_values(|e: (Seq<u8>, u64)| e.0)
}

/// Grants with `access` added on path `p`. A path that is listed already keeps
/// its spelling and its rights, and gains the new ones.
pub open spec fn merged(grants: Grants, p: Seq<u8>, access: u64) -> Grants {
    let key = components_of(p);
    if grants.dom().contains(key) {
        grants.insert(key, (grants[key].0, grants[key].1 | access))
    } else {
        grants.insert(key, (p, access))
    }
}

/// The rights granted on the path with these components.
pub open spec fn rights_at(grants: Grants, key: Seq<Comp>) -> u64 {
    if grants.dom().contains(key) {
        grants[key].1
    } else {
        0
    }
}

/// In an ascending list the grants at an entry's path are that entry's.
pub proof fn lemma_grants_at(entries: Seq<(Seq<u8>, u64)>, i: int)
    requires
        ascending(entry_paths(entries)),
        0 <= i < entries.len(),
    ensures
        grants_of(entries).dom().contains(components_of(entries[i].0)),
        grants_of(entries)[components_of(entries[i].0)] == entries[i],
{
    let key = components_of(entries[i].0);
    assert(entry_is(entries, key, i));
    let j = choose|j: int| entry_is(entries, key, j);
    let paths = entry_paths(entries);
    assert(same_path(paths[i], paths[j]));
    ascending_paths_are_distinct(paths, i, j);
}

proof fn lemma_grants_update(entries: Seq<(Seq<u8>, u64)>, at: int, access: u64)
    requires
        ascending(entry_paths(entries)),
        0 <= at < entries.len(),
    ensures
        entry_paths(entries.update(at, (entries[at].0, entries[at].1 | access))) == entry_paths(
            entries,
        ),
        grants_of(entries.update(at, (entries[at].0, entries[at].1 | access))) == merged(
            grants_of(entries),
            entries[at].0,
            access,
        ),
{
    let more = entries.update(at, (entries[at].0, entries[at].1 | access));
    assert(entry_paths(more) =~= entry_paths(entries));
    lemma_grants_at(entries, at);
    let want = merged(grants_of(entries), entries[at].0, access);
    let have = grants_of(more);
    assert forall|key: Seq<Comp>| have.dom().contains(key) == want.dom().contains(key) by {
        if have.dom().contains(key) {
            let i = choose|i: int| entry_is(more, key, i);
            assert(entry_is(entries, key, i));
        }
        if grants_of(entries).dom().contains(key) {
            let i = choose|i: int| entry_is(entries, key, i);
            assert(entry_is(more, key, i));
        }
    }
    assert forall|key: Seq<Comp>| have.dom().contains(key) implies have[key] == want[key] by {
        let i = choose|i: int| entry_is(more, key, i);
        lemma_grants_at(more, i);
        lemma_grants_at(entries, i);
        if i != at {
            if key == components_of(entries[at].0) {
                assert(same_path(entry_paths(entries)[i], entry_paths(entries)[at]));
                ascending_paths_are_distinct(entry_paths(entries), i, at);
            }
        }
    }
    assert(have =~= want);
}

proof fn lemma_grants_insert(entries: Seq<(Seq<u8>, u64)>, at: int, p: Seq<u8>, access: u64)
    requires
        ascending(entry_paths(entries)),
        ascending(entry_paths(entries.insert(at, (p, access)))),
        0 <= at <= entries.len(),
    ensures
        grants_of(entries.insert(at, (p, access))) == merged(grants_of(entries), p, access),
{
    let more = entries.insert(at, (p, access));
    let key_p = components_of(p);
    lemma_grants_at(more, at);
    if grants_of(entries).dom().contains(key_p) {
        let i = choose|i: int| entry_is(entries, key_p, i);
        let m: int = if i < at { i } else { i + 1 };
        assert(more[m] == entries[i]);
        assert(same_path(entry_paths(more)[m], entry_paths(more)[at]));
        ascending_paths_are_distinct(entry_paths(more), m, at);
    }
    let want = merged(grants_of(entries), p, access);
    let have = grants_of(more);
    assert forall|key: Seq<Comp>| have.dom().contains(key) == want.dom().contains(key) by {
        if have.dom().contains(key) {
            let m = choose|m: int| entry_is(more, key, m);
            if m != at {
                let i: int = if m < at { m } else { m - 1 };
                assert(entry_is(entries, key, i));
            }
        }
        if grants_of(entries).dom().contains(key) {
            let i = choose|i: int| entry_is(entries, key, i);
            let m: int = if i < at { i } else { i + 1 };
            assert(entry_is(more, key, m));
        }
    }
    assert forall|key: Seq<Comp>| have.dom().contains(key) implies have[key] == want[key] by {
        let m = choose|m: int| entry_is(more, key, m);
        lemma_grants_at(more, m);
        if m != at {
            let i: int = if m < at { m } else { m - 1 };
            assert(entries[i] == more[m]);
            lemma_grants_at(entries, i);
        }
    }
    assert(have =~= want);
}

/// Paths with the rights granted on them, in path order, each path once.
#[derive(Debug)]
pub struct AllowList {
    paths: Vec<Vec<u8>>,
    rights: Vec<u64>,
}

impl View for AllowList {
    type V = Grants;

    open spec fn view(&self) -> Grants {
        grants_of(self.entries())
    }
}

impl AllowList {
    /// The entries in the order in which they are listed.
    pub closed spec fn entries(&self) -> Seq<(Seq<u8>, u64)> {
        Seq::new(self.paths@.len(), |i: int| (self.paths@[i]@, self.rights@[i]))
    }

    /// Every path has its rights, and the paths ascend.
    pub closed spec fn wf(&self) -> bool {
        &&& self.paths@.len() == self.rights@.len()
        &&& ascending(views(self.paths@))
    }

    /// A list that grants nothing.
    pub fn new() -> (r: AllowList)
        ensures
            r.wf(),
            r@ == Map::<Seq<Comp>, (Seq<u8>, u64)>::empty(),
            r.entries().len() == 0,
    {
        let r = AllowList { paths: Vec::new(), rights: Vec::new() };
        assert(r@ =~= Map::<Seq<Comp>, (Seq<u8>, u64)>::empty());
        r
    }

    /// How many paths are listed.
    pub fn len(&self) -> (n: usize)
        requires
            self.wf(),
        ensures
            n == self.entries().len(),
    {
        self.paths.len()
    }

    /// The path at position `i`.
    pub fn path(&self, i: usize) -> (p: &Vec<u8>)
        requires
            self.wf(),
            i < self.entries().len(),
        ensures
            p@ == self.entries()[i as int].0,
    {
        &self.paths[i]
    }

    /// The rights at position `i`.
    pub fn rights(&self, i: usize) -> (a: u64)
        requires
            self.wf(),
            i < self.entries().len(),
        ensures
            a == self.entries()[i as int].1,
    {
        self.rights[i]
    }

    /// The list spells out exactly what it grants, in ascending path order.
    pub proof fn entries_are_the_grants(&self)
        requires
            self.wf(),
        ensures
            ascending(entry_paths(self.entries())),
            forall|i: int|
                0 <= i < self.entries().len() ==> self@.dom().contains(
                    components_of((#[trigger] self.entries()[i]).0),
                ) && self@[components_of(self.entries()[i].0)] == self.entries()[i],
            forall|key: Seq<Comp>|
                #[trigger] self@.dom().contains(key) ==> exists|i: int|
                    entry_is(self.entries(), key, i),
    {
        assert(entry_paths(self.entries()) =~= views(self.paths@));
        assert forall|i: int| 0 <= i < self.entries().len() implies self@.dom().contains(
            components_of((#[trigger] self.entries()[i]).0),
        ) && self@[components_of(self.entries()[i].0)] == self.entries()[i] by {
            lemma_grants_at(self.entries(), i);
        }
    }
}

/// Adds rights on a path. A path that is listed already keeps the rights it has.
pub fn merge_allow(map: &mut AllowList, path: Vec<u8>, access: u64)
    requires
        old(map).wf(),
    ensures
        final(map).wf(),
        final(map)@ == merged(old(map)@, path@, access),
{
    let ghost before = map.entries();
    let ghost names = views(map.paths@);
    let ghost p = path@;
    assert(entry_paths(before) =~= names);
    let (found, at) = locate(&map.paths, &path);
    if found {
        let bits: u64 = map.rights[at] | access;
        map.rights.set(at, bits);
        proof {
            assert(map.entries() =~= before.update(at as int, (before[at as int].0, bits)));
            lemma_grants_update(before, at as int, access);
            assert(components_of(before[at as int].0) == components_of(p));
            lemma_grants_at(before, at as int);
            assert(map@ =~= merged(grants_of(before), p, access));
        }
    } else {
        map.paths.insert(at, path);
        map.rights.insert(at, access);
        proof {
            assert(map.entries() =~= before.insert(at as int, (p, access)));
            assert(views(map.paths@) =~= names.insert(at as int, p));
            lemma_insert_ascending(names, p, at as int);
            assert(entry_paths(map.entries()) =~= views(map.paths@));
            lemma_grants_insert(before, at as int, p, access);
        }
    }
}

/// A wish to have rights on a path, as a mathematical value.
pub struct RequestView {
    pub path: Seq<u8>,
    pub access: u64,
    pub must_exist: bool,
}

/// A wish to have rights on a path. Where the path does not exist, the wish is an
/// error if the path must exist, and is passed over if not.
#[derive(Debug)]
pub struct Request {
    pub path: Vec<u8>,
    pub access: u64,
    pub must_exist: bool,
}

impl View for Request {
    type V = RequestView;

    open spec fn view(&self) -> RequestView {
        RequestView { path: self.path@, access: self.access, must_exist: self.must_exist }
    }
}

/// The contents of a list of requests.
pub open spec fn request_views(v: Seq<Request>) -> Seq<RequestView> {
    v.map_values(|r: Request| r@)
}

/// What the file system says of a path, as a mathematical value.
pub struct ProbeView {
    pub exists: bool,
    pub canonical: Option<Seq<u8>>,
}

/// What the file system says of a path: whether it exists, and its canonical form
/// if that can be had.
#[derive(Debug)]
pub struct Probe {
    pub exists: bool,
    pub canonical: Option<Vec<u8>>,
}

impl View for Probe {
    type V = ProbeView;

    open spec fn view(&self) -> ProbeView {
        ProbeView { exists: self.exists, canonical: opt_view(self.canonical) }
    }
}

/// The contents of a list of probes.
pub open spec fn probe_views(v: Seq<Probe>) -> Seq<ProbeView> {
    v.map_values(|p: Probe| p@)
}

/// A path that must exist does not.
#[derive(Debug)]
pub struct MissingPath {
    pub path: Vec<u8>,
}

/// Whether a request cannot be met.
pub open spec fn refused(request: RequestView, probe: ProbeView) -> bool {
    request.must_exist && !probe.exists
}

/// The path that a request is about.
pub open spec fn target(request: RequestView, probe: ProbeView) -> Seq<u8> {
    normalized(request.path, probe.exists, probe.canonical)
}

/// Grants after one request that can be met.
pub open spec fn granted(grants: Grants, request: RequestView, probe: ProbeView) -> Grants {
    if probe.exists {
        merged(grants, target(request, probe), request.access)
    } else {
        grants
    }
}

/// Grants after a list of requests that can be met.
pub open spec fn granted_all(
    grants: Grants,
    requests: Seq<RequestView>,
    probes: Seq<ProbeView>,
) -> Grants
    decreases requests.len(),
{
    if requests.len() == 0 {
        grants
    } else {
        granted(
            granted_all(grants, requests.drop_last(), probes.drop_last()),
            requests.last(),
            probes.last(),
        )
    }
}

/// Whether request `i` is the first that cannot be met.
pub open spec fn first_refused(
    requests: Seq<RequestView>,
    probes: Seq<ProbeView>,
    i: int,
) -> bool {
    &&& 0 <= i < requests.len()
    &&& refused(requests[i], probes[i])
    &&& forall|k: int| 0 <= k < i ==> !refused(#[trigger] requests[k], probes[k])
}

/// Meets one request. The path is listed under its normal form. A missing path
/// that must exist is an error, any other missing path is passed over.
pub fn add_allow_path(map: &mut AllowList, request: &Request, probe: &Probe) -> (r: Result<
    (),
    MissingPath,
>)
    requires
        old(map).wf(),
    ensures
        final(map).wf(),
        r is Err <==> refused(request@, probe@),
        r matches Err(e) ==> e.path@ == request.path@ && final(map)@ == old(map)@,
        r is Ok ==> final(map)@ == granted(old(map)@, request@, probe@),
{
    if !probe.exists {
        if request.must_exist {
            return Err(MissingPath { path: copy(&request.path) });
        }
        return Ok(());
    }
    let p = normalize_path(&request.path, probe.exists, &probe.canonical);
    merge_allow(map, p, request.access);
    Ok(())
}

/// Meets requests in order, up to the first that cannot be met.
pub fn allow_all(map: &mut AllowList, requests: &Vec<Request>, probes: &Vec<Probe>) -> (r: Result<
    (),
    MissingPath,
>)
    requires
        old(map).wf(),
        requests@.len() == probes@.len(),
    ensures
        final(map).wf(),
        r is Ok <==> forall|k: int|
            0 <= k < requests@.len() ==> !refused(
                #[trigger] request_views(requests@)[k],
                probe_views(probes@)[k],
            ),
        r is Ok ==> final(map)@ == granted_all(
            old(map)@,
            request_views(requests@),
            probe_views(probes@),
        ),
        r matches Err(e) ==> exists|i: int|
            #![trigger requests@[i]]
            first_refused(request_views(requests@), probe_views(probes@), i) && e.path@
                == requests@[i].path@ && final(map)@ == granted_all(
                old(map)@,
                request_views(requests@).take(i),
                probe_views(probes@).take(i),
            ),
{
    let ghost rs = request_views(requests@);
    let ghost ps = probe_views(probes@);
    let ghost start = map@;
    let mut i: usize = 0;
    while i < requests.len()
        invariant
            i <= requests@.len(),
            requests@.len() == probes@.len(),
            rs == request_views(requests@),
            ps == probe_views(probes@),
            start == old(map)@,
            map.wf(),
            forall|k: int| 0 <= k < i ==> !refused(#[trigger] rs[k], ps[k]),
            map@ == granted_all(start, rs.take(i as int), ps.take(i as int)),
        decreases requests@.len() - i,
    {
        assert(rs[i as int] == requests@[i as int]@);
        assert(ps[i as int] == probes@[i as int]@);
        match add_allow_path(map, &requests[i], &probes[i]) {
            Ok(()) => {},
            Err(e) => {
                assert(first_refused(rs, ps, i as int));
                return Err(e);
            },
        }
        assert(rs.take(i + 1).drop_last() =~= rs.take(i as int));
        assert(ps.take(i + 1).drop_last() =~= ps.take(i as int));
        i = i + 1;
    }
    assert(rs.take(i as int) =~= rs);
    assert(ps.take(i as int) =~= ps);
    Ok(())
}

/// All rights that the requests ask for on the path with these components.
pub open spec fn requested(
    requests: Seq<RequestView>,
    probes: Seq<ProbeView>,
    key: Seq<Comp>,
) -> u64
    decreases requests.len(),
{
    if requests.len() == 0 {
        0
    } else {
        let front = requested(requests.drop_last(), probes.drop_last(), key);
        if asks_for(requests.last(), probes.last(), key) {
            front | requests.last().access
        } else {
            front
        }
    }
}

/// Whether a request is about an existing path with these components.
pub open spec fn asks_for(request: RequestView, probe: ProbeView, key: Seq<Comp>) -> bool {
    probe.exists && components_of(target(request, probe)) == key
}

proof fn lemma_or(a: u64, b: u64, c: u64)
    ensures
        a | 0 == a,
        0 | a == a,
        (a | b) | c == a | (b | c),
        (a | b) | c == (a | c) | b,
        covers(a | b, a),
        covers(a | b, b),
        covers(a, a),
        covers(a, b) ==> covers(a | c, b),
        covers(0, b) ==> b == 0,
        covers(a, 0),
{
    assert(a | 0 == a && 0 | a == a && (a | b) | c == a | (b | c) && (a | b) | c == (a | c) | b && (a
        | b) & a == a && (a | b) & b == b && a & a == a && (a & b == b ==> (a | c) & b == b)
        && (0 & b == b ==> b == 0) && a & 0 == 0)
        by (bit_vector);
}

/// The rights on a path are exactly those it had and those that the requests ask
/// for on it: nothing is lost, and nothing is added that nobody asked for. A path
/// is listed only if it was, or if a request is about it.
pub proof fn rights_are_the_sum_of_requests(
    grants: Grants,
    requests: Seq<RequestView>,
    probes: Seq<ProbeView>,
    key: Seq<Comp>,
)
    requires
        requests.len() == probes.len(),
    ensures
        rights_at(granted_all(grants, requests, probes), key) == rights_at(grants, key)
            | requested(requests, probes, key),
        granted_all(grants, requests, probes).dom().contains(key) <==> {
            ||| grants.dom().contains(key)
            ||| exists|i: int|
                0 <= i < requests.len() && asks_for(#[trigger] requests[i], probes[i], key)
        },
    decreases requests.len(),
{
    let base = rights_at(grants, key);
    lemma_or(base, base, base);
    if requests.len() > 0 {
        let rs = requests.drop_last();
        let ps = probes.drop_last();
        rights_are_the_sum_of_requests(grants, rs, ps, key);
        let last = requests.last();
        lemma_or(base, requested(rs, ps, key), last.access);
        lemma_or(last.access, base, base);
        let n = requests.len() - 1;
        if asks_for(last, probes.last(), key) {
            assert(asks_for(requests[n], probes[n], key));
        }
        if exists|i: int| 0 <= i < rs.len() && asks_for(#[trigger] rs[i], ps[i], key) {
            let i = choose|i: int| 0 <= i < rs.len() && asks_for(#[trigger] rs[i], ps[i], key);
            assert(asks_for(requests[i], probes[i], key));
        }
        if exists|i: int|
            0 <= i < requests.len() && asks_for(#[trigger] requests[i], probes[i], key) {
            let i = choose|i: int|
                0 <= i < requests.len() && asks_for(#[trigger] requests[i], probes[i], key);
            if i < n {
                assert(asks_for(rs[i], ps[i], key));
            }
        }
    }
}

/// A request for an existing path is met in full, whatever else is asked for.
pub proof fn met_requests_are_covered(
    grants: Grants,
    requests: Seq<RequestView>,
    probes: Seq<ProbeView>,
    i: int,
)
    requires
        requests.len() == probes.len(),
        0 <= i < requests.len(),
        probes[i].exists,
    ensures
        covers(
            rights_at(
                granted_all(grants, requests, probes),
                components_of(target(requests[i], probes[i])),
            ),
            requests[i].access,
        ),
    decreases requests.len(),
{
    let key = components_of(target(requests[i], probes[i]));
    let rs = requests.drop_last();
    let ps = probes.drop_last();
    let front = granted_all(grants, rs, ps);
    let n = requests.len() - 1;
    lemma_or(rights_at(front, key), requests[i].access, requests[n].access);
    if i < n {
        assert(rs[i] == requests[i] && ps[i] == probes[i]);
        met_requests_are_covered(grants, rs, ps, i);
    }
    lemma_or(requests[n].access, requests[i].access, 0);
}

/// Meeting requests never takes a right away.
pub proof fn granting_keeps_rights(
    grants: Grants,
    requests: Seq<RequestView>,
    probes: Seq<ProbeView>,
    key: Seq<Comp>,
)
    requires
        requests.len() == probes.len(),
    ensures
        covers(rights_at(granted_all(grants, requests, probes), key), rights_at(grants, key)),
{
    rights_are_the_sum_of_requests(grants, requests, probes, key);
    let asked = requested(requests, probes, key);
    lemma_or(rights_at(grants, key), asked, asked);
}

/// The order in which rights are added does not matter.
pub proof fn merging_commutes(
    grants: Grants,
    p: Seq<u8>,
    a: u64,
    q: Seq<u8>,
    b: u64,
    key: Seq<Comp>,
)
    ensures
        rights_at(merged(merged(grants, p, a), q, b), key) == rights_at(
            merged(merged(grants, q, b), p, a),
            key,
        ),
        merged(merged(grants, p, a), q, b).dom() == merged(merged(grants, q, b), p, a).dom(),
{
    lemma_or(rights_at(grants, components_of(p)), a, b);
    assert(a | b == b | a) by (bit_vector);
    assert(merged(merged(grants, p, a), q, b).dom() =~= merged(merged(grants, q, b), p, a).dom());
}

/// What was granted stays granted, whatever is asked for afterwards.
pub proof fn requests_stay_met(
    grants: Grants,
    requests: Seq<RequestView>,
    probes: Seq<ProbeView>,
    i: int,
    more: Seq<RequestView>,
    more_probes: Seq<ProbeView>,
)
    requires
        requests.len() == probes.len(),
        more.len() == more_probes.len(),
        0 <= i < requests.len(),
        probes[i].exists,
    ensures
        covers(
            rights_at(
                granted_all(granted_all(grants, requests, probes), more, more_probes),
                components_of(target(requests[i], probes[i])),
            ),
            requests[i].access,
        ),
{
    let key = components_of(target(requests[i], probes[i]));
    let first = granted_all(grants, requests, probes);
    met_requests_are_covered(grants, requests, probes, i);
    granting_keeps_rights(first, more, more_probes, key);
    let a = rights_at(granted_all(first, more, more_probes), key);
    let b = rights_at(first, key);
    let c = requests[i].access;
    assert(a & c == c) by (bit_vector)
        requires
            a & b == b,
            b & c == c,
    ;
}

/// A path never gets a right that no request asks for: if all that is asked for on
/// it lies within some rights, so does what it is granted.
pub proof fn rights_stay_within_requests(
    grants: Grants,
    requests: Seq<RequestView>,
    probes: Seq<ProbeView>,
    key: Seq<Comp>,
    most: u64,
)
    requires
        requests.len() == probes.len(),
        covers(most, rights_at(grants, key)),
        forall|i: int|
            0 <= i < requests.len() && asks_for(#[trigger] requests[i], probes[i], key) ==> covers(
                most,
                requests[i].access,
            ),
    ensures
        covers(most, rights_at(granted_all(grants, requests, probes), key)),
    decreases requests.len(),
{
    if requests.len() > 0 {
        let rs = requests.drop_last();
        let ps = probes.drop_last();
        let n = requests.len() - 1;
        assert forall|i: int| 0 <= i < rs.len() && asks_for(#[trigger] rs[i], ps[i], key) implies covers(
            most,
            rs[i].access,
        ) by {
            assert(rs[i] == requests[i] && ps[i] == probes[i]);
        }
        rights_stay_within_requests(grants, rs, ps, key, most);
        let a = rights_at(granted_all(grants, rs, ps), key);
        let b = requests[n].access;
        if asks_for(requests[n], probes[n], key) {
            lemma_or(b, a, a);
            assert(most & (a | b) == a | b) by (bit_vector)
                requires
                    most & a == a,
                    most & b == b,
            ;
        }
    }
}

/// Adding rights on a path adds exactly those rights on exactly that path: it keeps
/// what it had, and every other path is left as it was.
pub proof fn merging_changes_one_path_only(grants: Grants, p: Seq<u8>, access: u64, key: Seq<Comp>)
    ensures
        ({
            let more = merged(grants, p, access);
            if key == components_of(p) {
                more.dom().contains(key) && more[key].1 == rights_at(grants, key) | access
            } else {
                more.dom().contains(key) == grants.dom().contains(key) && (grants.dom().contains(
                    key,
                ) ==> more[key] == grants[key])
            }
        }),
        grants.dom().contains(key) ==> merged(grants, p, access)[key].0 == grants[key].0,
        !grants.dom().contains(components_of(p)) ==> merged(grants, p, access)[components_of(p)].0
            == p,
{
    lemma_or(access, access, access);
}

/// A request for a missing path changes nothing, and is refused exactly if the path
/// must exist. A request for an existing path adds the rights it asks for, on the
/// canonical path where there is one, else on the cleaned path.
pub proof fn requests_are_met_on_the_real_path(
    grants: Grants,
    path: Seq<u8>,
    access: u64,
    must_exist: bool,
    probe: ProbeView,
)
    ensures
        ({
            let request = RequestView { path, access, must_exist };
            &&& refused(request, probe) <==> must_exist && !probe.exists
            &&& !probe.exists ==> granted(grants, request, probe) == grants
            &&& probe.exists && probe.canonical is Some ==> granted(grants, request, probe)
                == merged(grants, probe.canonical->0, access)
            &&& probe.exists && probe.canonical is None ==> granted(grants, request, probe)
                == merged(grants, cleaned(path), access)
        }),
{
}

} // verus!
