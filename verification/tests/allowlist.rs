use restricted_exec::access::{
    access_exec, access_read_file, access_ro, access_rox, access_rw, access_rwx,
};
use restricted_exec::allow::{add_allow_path, allow_all, merge_allow, AllowList, Probe, Request};
use restricted_exec::defaults::{
    is_nss_module, nss_lib_dirs, nss_modules, push_ld_so, push_lib_dirs, push_nss_files, push_paths,
};

fn request(path: &str, access: u64, must_exist: bool) -> Request {
    Request { path: path.as_bytes().to_vec(), access, must_exist }
}

fn there(canonical: &str) -> Probe {
    Probe { exists: true, canonical: Some(canonical.as_bytes().to_vec()) }
}

fn missing() -> Probe {
    Probe { exists: false, canonical: None }
}

fn listing(list: &AllowList) -> Vec<(String, u64)> {
    (0..list.len())
        .map(|i| (String::from_utf8(list.path(i).clone()).unwrap(), list.rights(i)))
        .collect()
}

fn entry(path: &str, rights: u64) -> (String, u64) {
    (path.to_string(), rights)
}

#[test]
fn rights_are_landlock_bits() {
    assert_eq!(access_ro(), 0xc);
    assert_eq!(access_rox(), 0xd);
    assert_eq!(access_rw(), 0xfffe);
    assert_eq!(access_rwx(), 0xffff);
    assert_eq!(access_exec(), 0x5);
    assert_eq!(access_read_file(), 0x4);
}

#[test]
fn rights_are_those_of_the_landlock_crate() {
    let read = landlock::AccessFs::ReadFile | landlock::AccessFs::ReadDir;
    let write = landlock::AccessFs::from_write(landlock::ABI::V6);
    assert_eq!(access_ro(), read.bits());
    assert_eq!(access_rox(), (read | landlock::AccessFs::Execute).bits());
    assert_eq!(access_rw(), (read | write).bits());
    assert_eq!(access_rwx(), (read | write | landlock::AccessFs::Execute).bits());
}

#[test]
fn path_options_widen_one_another() {
    assert_eq!(access_rox() & access_ro(), access_ro());
    assert_eq!(access_rw() & access_ro(), access_ro());
    assert_eq!(access_rwx() & access_rw(), access_rw());
    assert_eq!(access_rwx() & access_rox(), access_rox());
    assert_eq!(access_ro() & 0x1, 0);
    assert_eq!(access_rw() & 0x1, 0);
    assert_eq!(access_rox() & 0xfff2, 0);
}

#[test]
fn merging_adds_rights_to_a_listed_path() {
    let mut list = AllowList::new();
    merge_allow(&mut list, b"/tmp".to_vec(), 0xc);
    merge_allow(&mut list, b"/etc".to_vec(), 0x4);
    merge_allow(&mut list, b"/tmp/".to_vec(), 0x1);
    assert_eq!(listing(&list), [entry("/etc", 0x4), entry("/tmp", 0xd)]);
}

#[test]
fn the_order_of_merging_does_not_matter() {
    let mut one = AllowList::new();
    merge_allow(&mut one, b"/a".to_vec(), 0x1);
    merge_allow(&mut one, b"/b".to_vec(), 0x2);
    merge_allow(&mut one, b"/a".to_vec(), 0x4);
    let mut two = AllowList::new();
    merge_allow(&mut two, b"/a".to_vec(), 0x4);
    merge_allow(&mut two, b"/a".to_vec(), 0x1);
    merge_allow(&mut two, b"/b".to_vec(), 0x2);
    assert_eq!(listing(&one), listing(&two));
}

#[test]
fn entries_come_in_path_order_each_once() {
    let mut list = AllowList::new();
    for p in ["/usr/lib", "/usr", "/usr-local", "/bin", "/usr//lib/"] {
        merge_allow(&mut list, p.as_bytes().to_vec(), 0x4);
    }
    assert_eq!(
        listing(&list),
        [entry("/bin", 4), entry("/usr", 4), entry("/usr/lib", 4), entry("/usr-local", 4)]
    );
}

#[test]
fn existing_paths_are_listed_under_their_canonical_form() {
    let mut list = AllowList::new();
    let r = add_allow_path(&mut list, &request("/bin/sh", 0x5, true), &there("/usr/bin/dash"));
    assert!(r.is_ok());
    assert_eq!(listing(&list), [entry("/usr/bin/dash", 0x5)]);
}

#[test]
fn existing_paths_without_canonical_form_are_cleaned() {
    let mut list = AllowList::new();
    let probe = Probe { exists: true, canonical: None };
    assert!(add_allow_path(&mut list, &request("/a/../b/.", 0xc, true), &probe).is_ok());
    assert_eq!(listing(&list), [entry("/b", 0xc)]);
}

#[test]
fn a_missing_path_that_must_exist_is_an_error() {
    let mut list = AllowList::new();
    let e = add_allow_path(&mut list, &request("/no/such", 0xc, true), &missing()).unwrap_err();
    assert_eq!(e.path, b"/no/such".to_vec());
    assert_eq!(list.len(), 0);
}

#[test]
fn a_missing_optional_path_is_passed_over() {
    let mut list = AllowList::new();
    assert!(add_allow_path(&mut list, &request("/no/such", 0xc, false), &missing()).is_ok());
    assert_eq!(list.len(), 0);
}

#[test]
fn requests_add_up_and_nothing_else_is_granted() {
    let mut list = AllowList::new();
    merge_allow(&mut list, b"/tmp".to_vec(), 0x8);
    let requests = vec![
        request("/tmp", 0x4, true),
        request("/opt", 0xd, false),
        request("/var/tmp", 0x1, true),
        request("/etc", 0xc, true),
    ];
    let probes = vec![there("/tmp"), missing(), there("/tmp"), there("/etc")];
    assert!(allow_all(&mut list, &requests, &probes).is_ok());
    assert_eq!(listing(&list), [entry("/etc", 0xc), entry("/tmp", 0xd)]);
}

#[test]
fn requests_stop_at_the_first_that_cannot_be_met() {
    let mut list = AllowList::new();
    let requests = vec![
        request("/etc", 0xc, true),
        request("/gone", 0xc, true),
        request("/lost", 0xc, true),
        request("/tmp", 0xc, true),
    ];
    let probes = vec![there("/etc"), missing(), missing(), there("/tmp")];
    let e = allow_all(&mut list, &requests, &probes).unwrap_err();
    assert_eq!(e.path, b"/gone".to_vec());
    assert_eq!(listing(&list), [entry("/etc", 0xc)]);
}

#[test]
fn library_requests_are_optional() {
    let mut out: Vec<Request> = Vec::new();
    push_lib_dirs(&mut out);
    push_ld_so(&mut out);
    let paths: Vec<&[u8]> = out.iter().map(|r| r.path.as_slice()).collect();
    let want: Vec<&[u8]> = vec![
        b"/lib",
        b"/lib64",
        b"/usr/lib",
        b"/usr/lib64",
        b"/usr/local/lib",
        b"/usr/local/lib64",
        b"/etc/ld.so.cache",
        b"/etc/ld.so.conf",
        b"/etc/ld.so.conf.d",
    ];
    assert_eq!(paths, want);
    assert!(out.iter().all(|r| !r.must_exist));
    assert!(out[..6].iter().all(|r| r.access == 0xd));
    assert!(out[6..].iter().all(|r| r.access == 0xc));
}

#[test]
fn name_service_requests_are_optional() {
    let mut out: Vec<Request> = Vec::new();
    push_nss_files(&mut out);
    assert_eq!(out.len(), 14);
    assert_eq!(out[0].path, b"/etc/nsswitch.conf".to_vec());
    assert_eq!(out[1].path, b"/etc/passwd".to_vec());
    assert_eq!(out[2].path, b"/etc/group".to_vec());
    assert_eq!(out[10].path, b"/etc/networks".to_vec());
    assert_eq!(out[11].path, b"/var/lib/sss/mc/passwd".to_vec());
    assert_eq!(out[13].path, b"/var/lib/sss/pipes/nss".to_vec());
    assert!(out.iter().all(|r| !r.must_exist && r.access == 0xc));
}

#[test]
fn path_requests_keep_their_order() {
    let mut out: Vec<Request> = Vec::new();
    push_paths(&mut out, &vec![b"/b".to_vec(), b"/a".to_vec()], 0x4, true);
    assert_eq!(out.len(), 2);
    assert_eq!((out[0].path.as_slice(), out[0].access, out[0].must_exist), (&b"/b"[..], 0x4, true));
    assert_eq!(out[1].path, b"/a".to_vec());
}

#[test]
fn name_service_modules_are_told_by_their_name() {
    assert!(is_nss_module(b"libnss_files.so.2"));
    assert!(is_nss_module(b"libnss_.so"));
    assert!(is_nss_module("libnss_\u{e4}.so".as_bytes()));
    assert!(!is_nss_module(b"libnss_files.a"));
    assert!(!is_nss_module(b"xlibnss_files.so"));
    assert!(!is_nss_module(b"libnss.so"));
    assert!(!is_nss_module(b"libnss_"));
    assert!(!is_nss_module(b""));
}

#[test]
fn names_that_are_not_text_are_no_modules() {
    assert!(!is_nss_module(b"libnss_\xff.so"));
    assert!(!is_nss_module(b"libnss_files.so\xc3"));
}

#[test]
fn modules_are_picked_from_a_directory() {
    let names = vec![b"libc.so.6".to_vec(), b"libnss_dns.so.2".to_vec(), b"libnss_db.so".to_vec()];
    let want = vec![b"/lib64/libnss_dns.so.2".to_vec(), b"/lib64/libnss_db.so".to_vec()];
    assert_eq!(nss_modules("/lib64", &names), want);
    let dirs = nss_lib_dirs();
    assert_eq!(dirs[0], "/lib");
    assert_eq!(dirs[7], "/usr/lib/aarch64-linux-gnu");
}

#[test]
fn a_read_only_path_stays_read_only() {
    let mut list = AllowList::new();
    let requests = vec![
        request("/etc", access_ro(), true),
        request("/tmp", access_rwx(), true),
        request("/etc/", access_read_file(), true),
    ];
    let probes = vec![there("/etc"), there("/tmp"), there("/etc")];
    assert!(allow_all(&mut list, &requests, &probes).is_ok());
    assert_eq!(listing(&list), [entry("/etc", 0xc), entry("/tmp", 0xffff)]);
}

#[test]
fn rights_survive_later_requests() {
    let mut list = AllowList::new();
    let first = vec![request("/srv", access_rw(), true)];
    assert!(allow_all(&mut list, &first, &vec![there("/srv")]).is_ok());
    let second = vec![request("/srv", access_ro(), true), request("/usr", access_rox(), false)];
    assert!(allow_all(&mut list, &second, &vec![there("/srv"), there("/usr")]).is_ok());
    assert_eq!(listing(&list), [entry("/srv", 0xfffe), entry("/usr", 0xd)]);
}
