//! The paths that ordinary programs need: libraries, the loader's configuration,
//! and name services.

use crate::access::{access_ro, access_rox, ro_bits, rox_bits};
use crate::allow::{request_views, Request, RequestView};
use crate::bytes::{copy, views};
use crate::path::{join_path, joined};
use crate::text::is_utf8;
use vstd::prelude::*;
use vstd::utf8::{encode_utf8, valid_utf8};

verus! {

/// The directories that hold shared libraries.
pub open spec fn lib_dirs() -> Seq<&'static str> {
    seq!["/lib", "/lib64", "/usr/lib", "/usr/lib64", "/usr/local/lib", "/usr/local/lib64"]
}

/// The configuration of the dynamic loader.
pub open spec fn ld_so_paths() -> Seq<&'static str> {
    seq!["/etc/ld.so.cache", "/etc/ld.so.conf", "/etc/ld.so.conf.d"]
}

/// The configuration and the databases of name services.
pub open spec fn nss_files() -> Seq<&'static str> {
    seq![
        "/etc/nsswitch.conf",
        "/etc/passwd",
        "/etc/group",
        "/etc/shadow",
        "/etc/gshadow",
        "/etc/hosts",
        "/etc/resolv.conf",
        "/etc/host.conf",
        "/etc/services",
        "/etc/protocols",
        "/etc/networks",
    ]
}

/// The caches and the socket of the SSSD name service.
pub open spec fn sssd_files() -> Seq<&'static str> {
    seq!["/var/lib/sss/mc/passwd", "/var/lib/sss/mc/group", "/var/lib/sss/pipes/nss"]
}

/// The directories that are searched for name service modules.
pub open spec fn nss_dirs() -> Seq<&'static str> {
    seq![
        "/lib",
        "/lib64",
        "/usr/lib",
        "/usr/lib64",
        "/lib/x86_64-linux-gnu",
        "/usr/lib/x86_64-linux-gnu",
        "/lib/aarch64-linux-gnu",
        "/usr/lib/aarch64-linux-gnu",
    ]
}

/// Requests for one kind of access on a list of fixed paths.
pub open spec fn fixed_requests(
    paths: Seq<&'static str>,
    access: u64,
    must_exist: bool,
) -> Seq<RequestView> {
    paths.map_values(
        |p: &'static str| RequestView { path: encode_utf8(p@), access, must_exist },
    )
}

/// Requests for one kind of access on a list of paths.
pub open spec fn path_requests(
    paths: Seq<Seq<u8>>,
    access: u64,
    must_exist: bool,
) -> Seq<RequestView> {
    paths.map_values(|p: Seq<u8>| RequestView { path: p, access, must_exist })
}

/// Adds requests for one kind of access on a list of fixed paths.
fn push_fixed(
    out: &mut Vec<Request>,
    paths: &[&'static str],
    access: u64,
    must_exist: bool,
)
    ensures
        request_views(final(out)@) == request_views(old(out)@) + fixed_requests(
            paths@,
            access,
            must_exist,
        ),
{
    let ghost before = request_views(out@);
    let ghost want = fixed_requests(paths@, access, must_exist);
    let mut i: usize = 0;
    assert(request_views(out@) =~= before + want.take(0));
    while i < paths.len()
        invariant
            i <= paths@.len(),
            want == fixed_requests(paths@, access, must_exist),
            request_views(out@) == before + want.take(i as int),
        decreases paths@.len() - i,
    {
        let ghost prev = request_views(out@);
        let request = Request { path: paths[i].as_bytes_vec(), access, must_exist };
        let ghost rv = request@;
        out.push(request);
        assert(request_views(out@) =~= prev.push(rv));
        assert(want.take(i + 1) =~= want.take(i as int).push(want[i as int]));
        assert(request_views(out@) =~= before + want.take(i + 1));
        i = i + 1;
    }
    assert(want.take(i as int) =~= want);
}

/// Adds requests for one kind of access on a list of paths.
pub fn push_paths(out: &mut Vec<Request>, paths: &Vec<Vec<u8>>, access: u64, must_exist: bool)
    ensures
        request_views(final(out)@) == request_views(old(out)@) + path_requests(
            views(paths@),
            access,
            must_exist,
        ),
{
    let ghost before = request_views(out@);
    let ghost want = path_requests(views(paths@), access, must_exist);
    let mut i: usize = 0;
    assert(request_views(out@) =~= before + want.take(0));
    while i < paths.len()
        invariant
            i <= paths@.len(),
            want == path_requests(views(paths@), access, must_exist),
            request_views(out@) == before + want.take(i as int),
        decreases paths@.len() - i,
    {
        let ghost prev = request_views(out@);
        let request = Request { path: copy(&paths[i]), access, must_exist };
        let ghost rv = request@;
        out.push(request);
        assert(request_views(out@) =~= prev.push(rv));
        assert(views(paths@)[i as int] == paths@[i as int]@);
        assert(want.take(i + 1) =~= want.take(i as int).push(want[i as int]));
        assert(request_views(out@) =~= before + want.take(i + 1));
        i = i + 1;
    }
    assert(want.take(i as int) =~= want);
}

/// The requests for common library directories: read and execute, where they
/// exist.
pub open spec fn lib_dir_requests() -> Seq<RequestView> {
    fixed_requests(lib_dirs(), rox_bits(), false)
}

/// The requests for the configuration of the loader: read, where it exists.
pub open spec fn ld_so_requests() -> Seq<RequestView> {
    fixed_requests(ld_so_paths(), ro_bits(), false)
}

/// The requests for the files of name services: read, where they exist.
pub open spec fn nss_file_requests() -> Seq<RequestView> {
    fixed_requests(nss_files(), ro_bits(), false) + fixed_requests(sssd_files(), ro_bits(), false)
}

/// Adds the requests for common library directories.
pub fn push_lib_dirs(out: &mut Vec<Request>)
    ensures
        request_views(final(out)@) == request_views(old(out)@) + lib_dir_requests(),
{
    let dirs: [&'static str; 6] = [
        "/lib",
        "/lib64",
        "/usr/lib",
        "/usr/lib64",
        "/usr/local/lib",
        "/usr/local/lib64",
    ];
    assert(dirs@ =~= lib_dirs());
    push_fixed(out, &dirs, access_rox(), false);
}

/// Adds the requests for the configuration of the loader.
pub fn push_ld_so(out: &mut Vec<Request>)
    ensures
        request_views(final(out)@) == request_views(old(out)@) + ld_so_requests(),
{
    let paths: [&'static str; 3] = ["/etc/ld.so.cache", "/etc/ld.so.conf", "/etc/ld.so.conf.d"];
    assert(paths@ =~= ld_so_paths());
    push_fixed(out, &paths, access_ro(), false);
}

/// Adds the requests for the files of name services.
pub fn push_nss_files(out: &mut Vec<Request>)
    ensures
        request_views(final(out)@) == request_views(old(out)@) + nss_file_requests(),
{
    let ghost before = request_views(out@);
    let etc: [&'static str; 11] = [
        "/etc/nsswitch.conf",
        "/etc/passwd",
        "/etc/group",
        "/etc/shadow",
        "/etc/gshadow",
        "/etc/hosts",
        "/etc/resolv.conf",
        "/etc/host.conf",
        "/etc/services",
        "/etc/protocols",
        "/etc/networks",
    ];
    assert(etc@ =~= nss_files());
    push_fixed(out, &etc, access_ro(), false);
    let sssd: [&'static str; 3] = [
        "/var/lib/sss/mc/passwd",
        "/var/lib/sss/mc/group",
        "/var/lib/sss/pipes/nss",
    ];
    assert(sssd@ =~= sssd_files());
    push_fixed(out, &sssd, access_ro(), false);
    assert(request_views(out@) =~= before + nss_file_requests());
}

/// The directories that are searched for name service modules.
pub fn nss_lib_dirs() -> (r: [&'static str; 8])
    ensures
        r@ == nss_dirs(),
{
    [
        "/lib",
        "/lib64",
        "/usr/lib",
        "/usr/lib64",
        "/lib/x86_64-linux-gnu",
        "/usr/lib/x86_64-linux-gnu",
        "/lib/aarch64-linux-gnu",
        "/usr/lib/aarch64-linux-gnu",
    ]
}

/// Whether `part` stands in `s` at position `i`.
pub open spec fn stands_at(s: Seq<u8>, part: Seq<u8>, i: int) -> bool {
    0 <= i && i + part.len() <= s.len() && s.subrange(i, i + part.len()) == part
}

/// Whether a file name is that of a name service module: valid text that starts
/// with `libnss_` and has `.so` in it.
pub open spec fn nss_module(name: Seq<u8>) -> bool {
    &&& valid_utf8(name)
    &&& stands_at(name, encode_utf8("libnss_"@), 0)
    &&& exists|i: int| stands_at(name, encode_utf8(".so"@), i)
}

/// Whether `part` stands in `s` at position `i`.
fn is_at(s: &[u8], part: &[u8], i: usize) -> (r: bool)
    requires
        i <= s@.len(),
    ensures
        r == stands_at(s@, part@, i as int),
{
    let n: usize = s.len();
    if part.len() > n - i {
        return false;
    }
    let mut k: usize = 0;
    while k < part.len()
        invariant
            k <= part@.len(),
            n == s@.len(),
            i + part@.len() <= n,
            forall|m: int| 0 <= m < k ==> s@[i + m] == part@[m],
        decreases part@.len() - k,
    {
        if s[i + k] != part[k] {
            assert(s@.subrange(i as int, i + part@.len())[k as int] != part@[k as int]);
            return false;
        }
        k = k + 1;
    }
    assert(s@.subrange(i as int, i + part@.len()) =~= part@);
    true
}

/// Whether a file name is that of a name service module.
pub fn is_nss_module(name: &[u8]) -> (r: bool)
    ensures
        r == nss_module(name@),
{
    if !is_utf8(name) || !is_at(name, "libnss_".as_bytes(), 0) {
        return false;
    }
    let part = ".so".as_bytes();
    let mut i: usize = 0;
    while i < name.len()
        invariant
            i <= name@.len(),
            valid_utf8(name@),
            stands_at(name@, encode_utf8("libnss_"@), 0),
            part@ == encode_utf8(".so"@),
            forall|k: int| 0 <= k < i ==> !#[trigger] stands_at(name@, part@, k),
        decreases name@.len() - i,
    {
        if is_at(name, part, i) {
            return true;
        }
        i = i + 1;
    }
    if is_at(name, part, i) {
        return true;
    }
    assert forall|k: int| !#[trigger] stands_at(name@, part@, k) by {}
    false
}

/// The modules among the files of a directory, as paths.
pub open spec fn modules_in(dir: Seq<u8>, names: Seq<Seq<u8>>) -> Seq<Seq<u8>>
    decreases names.len(),
{
    if names.len() == 0 {
        Seq::empty()
    } else {
        let front = modules_in(dir, names.drop_last());
        if nss_module(names.last()) {
            front.push(joined(dir, names.last()))
        } else {
            front
        }
    }
}

/// Picks the name service modules among the files of a directory.
pub fn nss_modules(dir: &str, names: &Vec<Vec<u8>>) -> (r: Vec<Vec<u8>>)
    ensures
        views(r@) == modules_in(encode_utf8(dir@), views(names@)),
{
    let ghost all = views(names@);
    let ghost d = encode_utf8(dir@);
    let mut r: Vec<Vec<u8>> = Vec::new();
    let mut i: usize = 0;
    assert(views(r@) =~= modules_in(d, all.take(0)));
    while i < names.len()
        invariant
            i <= names@.len(),
            all == views(names@),
            d == encode_utf8(dir@),
            views(r@) == modules_in(d, all.take(i as int)),
        decreases names@.len() - i,
    {
        let ghost before = views(r@);
        assert(all.take(i + 1).drop_last() =~= all.take(i as int));
        assert(all.take(i + 1).last() == names@[i as int]@);
        if is_nss_module(&names[i]) {
            let p = join_path(dir.as_bytes(), &names[i]);
            let ghost pv = p@;
            r.push(p);
            assert(views(r@) =~= before.push(pv));
        }
        i = i + 1;
    }
    assert(all.take(i as int) =~= all);
    r
}

/// The contents of a list of directory listings.
pub open spec fn listing_views(v: Seq<Vec<Vec<u8>>>) -> Seq<Seq<Seq<u8>>> {
    v.map_values(|l: Vec<Vec<u8>>| views(l@))
}

/// The modules in directories, given the names of the files in each, directory by
/// directory.
pub open spec fn modules_below(
    dirs: Seq<&'static str>,
    listings: Seq<Seq<Seq<u8>>>,
) -> Seq<Seq<u8>>
    decreases listings.len(),
{
    if listings.len() == 0 {
        Seq::empty()
    } else {
        modules_below(dirs.drop_last(), listings.drop_last()) + modules_in(
            encode_utf8(dirs.last()@),
            listings.last(),
        )
    }
}

/// Picks the name service modules from the directories that are searched for them,
/// given the names of the files in each. A directory that cannot be read has none.
pub fn all_nss_modules(listings: &Vec<Vec<Vec<u8>>>) -> (r: Vec<Vec<u8>>)
    requires
        listings@.len() == nss_dirs().len(),
    ensures
        views(r@) == modules_below(nss_dirs(), listing_views(listings@)),
{
    let dirs = nss_lib_dirs();
    let ghost ds = nss_dirs();
    let ghost all = listing_views(listings@);
    let mut r: Vec<Vec<u8>> = Vec::new();
    let mut i: usize = 0;
    assert(views(r@) =~= modules_below(ds.take(0), all.take(0)));
    while i < 8
        invariant
            i <= 8,
            listings@.len() == 8,
            dirs@ == ds,
            ds == nss_dirs(),
            all == listing_views(listings@),
            views(r@) == modules_below(ds.take(i as int), all.take(i as int)),
        decreases 8 - i,
    {
        let ghost before = views(r@);
        assert(ds.take(i + 1).drop_last() =~= ds.take(i as int));
        assert(all.take(i + 1).drop_last() =~= all.take(i as int));
        assert(all.take(i + 1).last() == views(listings@[i as int]@));
        let mut found = nss_modules(dirs[i], &listings[i]);
        let ghost more = views(found@);
        r.append(&mut found);
        assert(views(r@) =~= before + more);
        i = i + 1;
    }
    assert(ds.take(8) =~= ds);
    assert(all.take(8) =~= all);
    r
}

/// Reading and executing is asked for on exactly these directories, where they exist.
pub proof fn common_libraries_are_asked_for(request: RequestView)
    ensures
        lib_dir_requests().contains(request) <==> request.access == 0xd && !request.must_exist && {
            ||| request.path == encode_utf8("/lib"@)
            ||| request.path == encode_utf8("/lib64"@)
            ||| request.path == encode_utf8("/usr/lib"@)
            ||| request.path == encode_utf8("/usr/lib64"@)
            ||| request.path == encode_utf8("/usr/local/lib"@)
            ||| request.path == encode_utf8("/usr/local/lib64"@)
        },
{
    let all = lib_dir_requests();
    assert(all.len() == 6);
    assert(all[0] == (RequestView {
        path: encode_utf8("/lib"@),
        access: 0xd,
        must_exist: false,
    }));
    assert(all[1] == (RequestView {
        path: encode_utf8("/lib64"@),
        access: 0xd,
        must_exist: false,
    }));
    assert(all[2] == (RequestView {
        path: encode_utf8("/usr/lib"@),
        access: 0xd,
        must_exist: false,
    }));
    assert(all[3] == (RequestView {
        path: encode_utf8("/usr/lib64"@),
        access: 0xd,
        must_exist: false,
    }));
    assert(all[4] == (RequestView {
        path: encode_utf8("/usr/local/lib"@),
        access: 0xd,
        must_exist: false,
    }));
    assert(all[5] == (RequestView {
        path: encode_utf8("/usr/local/lib64"@),
        access: 0xd,
        must_exist: false,
    }));
}

/// Reading is asked for on exactly these files of the loader, where they exist.
pub proof fn the_loader_configuration_is_asked_for(request: RequestView)
    ensures
        ld_so_requests().contains(request) <==> request.access == 0xc && !request.must_exist && {
            ||| request.path == encode_utf8("/etc/ld.so.cache"@)
            ||| request.path == encode_utf8("/etc/ld.so.conf"@)
            ||| request.path == encode_utf8("/etc/ld.so.conf.d"@)
        },
{
    let all = ld_so_requests();
    assert(all.len() == 3);
    assert(all[0] == (RequestView {
        path: encode_utf8("/etc/ld.so.cache"@),
        access: 0xc,
        must_exist: false,
    }));
    assert(all[1] == (RequestView {
        path: encode_utf8("/etc/ld.so.conf"@),
        access: 0xc,
        must_exist: false,
    }));
    assert(all[2] == (RequestView {
        path: encode_utf8("/etc/ld.so.conf.d"@),
        access: 0xc,
        must_exist: false,
    }));
}

/// Reading is asked for on exactly these files of name services, where they exist.
pub proof fn name_services_are_asked_for(request: RequestView)
    ensures
        nss_file_requests().contains(request) <==> request.access == 0xc && !request.must_exist && {
            ||| request.path == encode_utf8("/etc/nsswitch.conf"@)
            ||| request.path == encode_utf8("/etc/passwd"@)
            ||| request.path == encode_utf8("/etc/group"@)
            ||| request.path == encode_utf8("/etc/shadow"@)
            ||| request.path == encode_utf8("/etc/gshadow"@)
            ||| request.path == encode_utf8("/etc/hosts"@)
            ||| request.path == encode_utf8("/etc/resolv.conf"@)
            ||| request.path == encode_utf8("/etc/host.conf"@)
            ||| request.path == encode_utf8("/etc/services"@)
            ||| request.path == encode_utf8("/etc/protocols"@)
            ||| request.path == encode_utf8("/etc/networks"@)
            ||| request.path == encode_utf8("/var/lib/sss/mc/passwd"@)
            ||| request.path == encode_utf8("/var/lib/sss/mc/group"@)
            ||| request.path == encode_utf8("/var/lib/sss/pipes/nss"@)
        },
{
    let all = nss_file_requests();
    assert(all.len() == 14);
    assert(all[0] == (RequestView {
        path: encode_utf8("/etc/nsswitch.conf"@),
        access: 0xc,
        must_exist: false,
    }));
    assert(all[1] == (RequestView {
        path: encode_utf8("/etc/passwd"@),
        access: 0xc,
        must_exist: false,
    }));
    assert(all[2] == (RequestView {
        path: encode_utf8("/etc/group"@),
        access: 0xc,
        must_exist: false,
    }));
    assert(all[3] == (RequestView {
        path: encode_utf8("/etc/shadow"@),
        access: 0xc,
        must_exist: false,
    }));
    assert(all[4] == (RequestView {
        path: encode_utf8("/etc/gshadow"@),
        access: 0xc,
        must_exist: false,
    }));
    assert(all[5] == (RequestView {
        path: encode_utf8("/etc/hosts"@),
        access: 0xc,
        must_exist: false,
    }));
    assert(all[6] == (RequestView {
        path: encode_utf8("/etc/resolv.conf"@),
        access: 0xc,
        must_exist: false,
    }));
    assert(all[7] == (RequestView {
        path: encode_utf8("/etc/host.conf"@),
        access: 0xc,
        must_exist: false,
    }));
    assert(all[8] == (RequestView {
        path: encode_utf8("/etc/services"@),
        access: 0xc,
        must_exist: false,
    }));
    assert(all[9] == (RequestView {
        path: encode_utf8("/etc/protocols"@),
        access: 0xc,
        must_exist: false,
    }));
    assert(all[10] == (RequestView {
        path: encode_utf8("/etc/networks"@),
        access: 0xc,
        must_exist: false,
    }));
    assert(all[11] == (RequestView {
        path: encode_utf8("/var/lib/sss/mc/passwd"@),
        access: 0xc,
        must_exist: false,
    }));
    assert(all[12] == (RequestView {
        path: encode_utf8("/var/lib/sss/mc/group"@),
        access: 0xc,
        must_exist: false,
    }));
    assert(all[13] == (RequestView {
        path: encode_utf8("/var/lib/sss/pipes/nss"@),
        access: 0xc,
        must_exist: false,
    }));
}

/// Every path of a list is asked for, with the same rights, in order, and nothing
/// else is.
pub proof fn every_path_is_asked_for(
    paths: Seq<Seq<u8>>,
    access: u64,
    must_exist: bool,
    i: int,
)
    requires
        0 <= i < paths.len(),
    ensures
        path_requests(paths, access, must_exist).len() == paths.len(),
        path_requests(paths, access, must_exist)[i] == (RequestView {
            path: paths[i],
            access,
            must_exist,
        }),
{
}

/// A name is that of a name service module exactly if it is text that starts with
/// `libnss_` and has `.so` in it.
pub proof fn modules_are_told_by_their_name(name: Seq<u8>, middle: Seq<u8>, tail: Seq<u8>)
    ensures
        valid_utf8(encode_utf8("libnss_"@) + middle + encode_utf8(".so"@) + tail) ==> nss_module(
            encode_utf8("libnss_"@) + middle + encode_utf8(".so"@) + tail,
        ),
        nss_module(name) ==> valid_utf8(name) && encode_utf8("libnss_"@).is_prefix_of(name)
            && exists|i: int|
            0 <= i <= name.len() && encode_utf8(".so"@).is_prefix_of(#[trigger] name.skip(i)),
{
    let (lib, so) = (encode_utf8("libnss_"@), encode_utf8(".so"@));
    let whole = lib + middle + so + tail;
    assert(whole.subrange(0, lib.len() as int) =~= lib);
    assert(stands_at(whole, lib, 0));
    let at = (lib.len() + middle.len()) as int;
    assert(whole.subrange(at, at + so.len()) =~= so);
    assert(stands_at(whole, so, at));
    if nss_module(name) {
        let i = choose|i: int| stands_at(name, so, i);
        let rest = name.skip(i);
        assert(rest.subrange(0, so.len() as int) =~= name.subrange(i, i + so.len()));
        assert(so.is_prefix_of(rest));
        assert(lib.is_prefix_of(name));
    }
}

/// The names of a directory are looked at one by one: a module is picked, under its
/// directory, and any other file is passed over.
pub proof fn modules_are_picked_one_by_one(dir: Seq<u8>, names: Seq<Seq<u8>>, name: Seq<u8>)
    ensures
        modules_in(dir, Seq::empty()) == Seq::<Seq<u8>>::empty(),
        nss_module(name) ==> modules_in(dir, names.push(name)) == modules_in(dir, names).push(
            joined(dir, name),
        ),
        !nss_module(name) ==> modules_in(dir, names.push(name)) == modules_in(dir, names),
{
    assert(names.push(name).drop_last() =~= names);
}

/// These directories are searched for modules, in this order, and nothing is lost
/// from any of them.
pub proof fn these_directories_are_searched(listings: Seq<Seq<Seq<u8>>>)
    requires
        listings.len() == 8,
    ensures
        modules_below(nss_dirs(), listings) == modules_in(encode_utf8("/lib"@), listings[0])
            + modules_in(encode_utf8("/lib64"@), listings[1])
            + modules_in(encode_utf8("/usr/lib"@), listings[2])
            + modules_in(encode_utf8("/usr/lib64"@), listings[3])
            + modules_in(encode_utf8("/lib/x86_64-linux-gnu"@), listings[4])
            + modules_in(encode_utf8("/usr/lib/x86_64-linux-gnu"@), listings[5])
            + modules_in(encode_utf8("/lib/aarch64-linux-gnu"@), listings[6])
            + modules_in(encode_utf8("/usr/lib/aarch64-linux-gnu"@), listings[7]),
{
    let d = nss_dirs();
    let d8 = d.take(8);
    let l8 = listings.take(8);
    let d7 = d.take(7);
    let l7 = listings.take(7);
    let d6 = d.take(6);
    let l6 = listings.take(6);
    let d5 = d.take(5);
    let l5 = listings.take(5);
    let d4 = d.take(4);
    let l4 = listings.take(4);
    let d3 = d.take(3);
    let l3 = listings.take(3);
    let d2 = d.take(2);
    let l2 = listings.take(2);
    let d1 = d.take(1);
    let l1 = listings.take(1);
    let d0 = d.take(0);
    let l0 = listings.take(0);
    assert(d8 =~= d && l8 =~= listings);
    assert(modules_below(d0, l0) =~= Seq::<Seq<u8>>::empty());
    assert(d1.drop_last() =~= d0 && l1.drop_last() =~= l0);
    assert(d1.last()@ == "/lib"@ && l1.last() == listings[0]);
    assert(modules_below(d1, l1) == modules_below(d0, l0) + modules_in(
        encode_utf8("/lib"@),
        listings[0],
    ));
    assert(d2.drop_last() =~= d1 && l2.drop_last() =~= l1);
    assert(d2.last()@ == "/lib64"@ && l2.last() == listings[1]);
    assert(modules_below(d2, l2) == modules_below(d1, l1) + modules_in(
        encode_utf8("/lib64"@),
        listings[1],
    ));
    assert(d3.drop_last() =~= d2 && l3.drop_last() =~= l2);
    assert(d3.last()@ == "/usr/lib"@ && l3.last() == listings[2]);
    assert(modules_below(d3, l3) == modules_below(d2, l2) + modules_in(
        encode_utf8("/usr/lib"@),
        listings[2],
    ));
    assert(d4.drop_last() =~= d3 && l4.drop_last() =~= l3);
    assert(d4.last()@ == "/usr/lib64"@ && l4.last() == listings[3]);
    assert(modules_below(d4, l4) == modules_below(d3, l3) + modules_in(
        encode_utf8("/usr/lib64"@),
        listings[3],
    ));
    assert(d5.drop_last() =~= d4 && l5.drop_last() =~= l4);
    assert(d5.last()@ == "/lib/x86_64-linux-gnu"@ && l5.last() == listings[4]);
    assert(modules_below(d5, l5) == modules_below(d4, l4) + modules_in(
        encode_utf8("/lib/x86_64-linux-gnu"@),
        listings[4],
    ));
    assert(d6.drop_last() =~= d5 && l6.drop_last() =~= l5);
    assert(d6.last()@ == "/usr/lib/x86_64-linux-gnu"@ && l6.last() == listings[5]);
    assert(modules_below(d6, l6) == modules_below(d5, l5) + modules_in(
        encode_utf8("/usr/lib/x86_64-linux-gnu"@),
        listings[5],
    ));
    assert(d7.drop_last() =~= d6 && l7.drop_last() =~= l6);
    assert(d7.last()@ == "/lib/aarch64-linux-gnu"@ && l7.last() == listings[6]);
    assert(modules_below(d7, l7) == modules_below(d6, l6) + modules_in(
        encode_utf8("/lib/aarch64-linux-gnu"@),
        listings[6],
    ));
    assert(d8.drop_last() =~= d7 && l8.drop_last() =~= l7);
    assert(d8.last()@ == "/usr/lib/aarch64-linux-gnu"@ && l8.last() == listings[7]);
    assert(modules_below(d8, l8) == modules_below(d7, l7) + modules_in(
        encode_utf8("/usr/lib/aarch64-linux-gnu"@),
        listings[7],
    ));
    let first = modules_in(encode_utf8("/lib"@), listings[0]);
    assert(modules_below(d1, l1) =~= first);
}

} // verus!
