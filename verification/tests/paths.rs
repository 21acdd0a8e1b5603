use restricted_exec::bytes::split_bytes;
use restricted_exec::order::{order_paths, Order};
use restricted_exec::path::{
    clean_path, components, is_absolute, join_path, normalize_path, Component,
};
use restricted_exec::pathset::{locate, sort_paths};

fn clean(p: &str) -> String {
    String::from_utf8(clean_path(p.as_bytes())).unwrap()
}

fn sorted(paths: &[&str]) -> Vec<String> {
    let paths: Vec<Vec<u8>> = paths.iter().map(|p| p.as_bytes().to_vec()).collect();
    sort_paths(paths).into_iter().map(|p| String::from_utf8(p).unwrap()).collect()
}

#[test]
fn cleaning_resolves_dots_and_slashes() {
    assert_eq!(clean("/usr/./lib/../bin//ls/"), "/usr/bin/ls");
    assert_eq!(clean("a/b/../c"), "a/c");
    assert_eq!(clean("./a"), "a");
    assert_eq!(clean("a/."), "a");
}

#[test]
fn cleaning_does_not_climb_above_the_start() {
    assert_eq!(clean("/../../etc"), "/etc");
    assert_eq!(clean("/.."), "/");
    assert_eq!(clean("../a"), "a");
    assert_eq!(clean("a/../../b"), "b");
    assert_eq!(clean(".."), "");
}

#[test]
fn cleaning_keeps_short_paths() {
    assert_eq!(clean(""), "");
    assert_eq!(clean("/"), "/");
    assert_eq!(clean("."), "");
    assert_eq!(clean("..."), "...");
    assert_eq!(clean("/.hidden"), "/.hidden");
}

#[test]
fn cleaning_twice_is_cleaning_once() {
    for p in ["/a/../b/./c//", "x/../../y", "///", "./..", "/a/b/c"] {
        let once = clean(p);
        assert_eq!(clean(&once), once);
    }
}

#[test]
fn cleaning_agrees_with_std_on_plain_paths() {
    for p in ["/a/b", "/a//b/", "a/b/c", "/"] {
        let want = std::path::PathBuf::from(p);
        assert_eq!(std::path::PathBuf::from(clean(p)), want);
    }
}

#[test]
fn components_are_those_of_std() {
    for p in ["/a/./b", "./a", "a/./b", ".", "..", "//x//..", "", "/", "a/.", "./."] {
        let have: Vec<String> = components(p.as_bytes())
            .iter()
            .map(|c| match c {
                Component::RootDir => "/".to_string(),
                Component::CurDir => ".".to_string(),
                Component::ParentDir => "..".to_string(),
                Component::Normal(n) => String::from_utf8(n.clone()).unwrap(),
            })
            .collect();
        let want: Vec<String> = std::path::Path::new(p)
            .components()
            .map(|c| c.as_os_str().to_str().unwrap().to_string())
            .collect();
        assert_eq!(have, want);
    }
}

#[test]
fn normal_form_is_canonical_where_the_path_exists() {
    let canonical = Some(b"/usr/bin/dash".to_vec());
    assert_eq!(normalize_path(b"/bin/../bin/sh", true, &canonical), b"/usr/bin/dash".to_vec());
    assert_eq!(normalize_path(b"/bin/../bin/sh", true, &None), b"/bin/sh".to_vec());
    assert_eq!(normalize_path(b"/bin/../bin/sh", false, &canonical), b"/bin/sh".to_vec());
}

#[test]
fn joining_puts_one_slash_between() {
    assert_eq!(join_path(b"/usr/bin", b"ls"), b"/usr/bin/ls".to_vec());
    assert_eq!(join_path(b"/usr/bin/", b"ls"), b"/usr/bin/ls".to_vec());
    assert_eq!(join_path(b"", b"ls"), b"ls".to_vec());
    assert_eq!(join_path(b"/usr", b"/etc"), b"/etc".to_vec());
    assert_eq!(join_path(b"/usr", b""), b"/usr/".to_vec());
    assert!(is_absolute(b"/usr"));
    assert!(!is_absolute(b"usr"));
    assert!(!is_absolute(b""));
}

#[test]
fn paths_are_ordered_by_components() {
    assert_eq!(order_paths(b"/a/b", b"/a-b"), Order::Before);
    assert_eq!(order_paths(b"/a-b", b"/a/b"), Order::After);
    assert_eq!(order_paths(b"/a", b"/a/b"), Order::Before);
    assert_eq!(order_paths(b"/a//b/", b"/a/./b"), Order::Same);
    assert_eq!(order_paths(b"/z", b"a"), Order::Before);
    assert_eq!(order_paths(b"./z", b"../a"), Order::Before);
    assert_eq!(order_paths(b"../z", b"a"), Order::Before);
    assert_eq!(order_paths(b"", b"/"), Order::Before);
}

#[test]
fn path_order_agrees_with_std() {
    let paths = ["", "/", "a", "a/b", "a/b/", "/a", "/a/..", "/a-b", "./a", "..", "/a/b", "/aa"];
    for p in paths {
        for q in paths {
            let want = std::path::Path::new(p).cmp(std::path::Path::new(q));
            let have = match order_paths(p.as_bytes(), q.as_bytes()) {
                Order::Before => std::cmp::Ordering::Less,
                Order::Same => std::cmp::Ordering::Equal,
                Order::After => std::cmp::Ordering::Greater,
            };
            assert_eq!(have, want, "{:?} and {:?}", p, q);
        }
    }
}

#[test]
fn sorting_drops_repeated_paths_and_keeps_the_first_spelling() {
    assert_eq!(sorted(&["/b", "/a/x", "/b/", "/a//x", "/a"]), ["/a", "/a/x", "/b"]);
    assert_eq!(sorted(&["/b/", "/b"]), ["/b/"]);
    assert!(sorted(&[]).is_empty());
}

#[test]
fn a_path_is_found_where_it_is_or_where_it_belongs() {
    let paths = vec![b"/a".to_vec(), b"/c".to_vec(), b"/e".to_vec()];
    assert_eq!(locate(&paths, b"/c/"), (true, 1));
    assert_eq!(locate(&paths, b"/b"), (false, 1));
    assert_eq!(locate(&paths, b"/f"), (false, 3));
    assert_eq!(locate(&paths, b"/"), (false, 0));
}

#[test]
fn splitting_keeps_empty_pieces_and_loses_nothing() {
    let pieces = split_bytes(b":/bin::/sbin:", b':');
    let want: Vec<Vec<u8>> =
        vec![b"".to_vec(), b"/bin".to_vec(), b"".to_vec(), b"/sbin".to_vec(), b"".to_vec()];
    assert_eq!(pieces, want);
    assert_eq!(pieces.join(&b':'), b":/bin::/sbin:".to_vec());
    assert_eq!(split_bytes(b"", b':'), vec![b"".to_vec()]);
}

#[test]
fn sorting_does_not_depend_on_the_order_of_the_paths() {
    assert_eq!(sorted(&["/c", "/a", "/b"]), sorted(&["/b", "/c", "/a", "/c"]));
}

#[test]
fn a_directory_may_be_cleaned_before_or_after_joining() {
    for dir in ["/a/../b/", "a/..", "", "/", "./x//", "/.."] {
        for name in ["c", "../c", ".", "./d/..", "", "/e/."] {
            let late = clean_path(&join_path(dir.as_bytes(), name.as_bytes()));
            let early = clean_path(&join_path(&clean_path(dir.as_bytes()), name.as_bytes()));
            assert_eq!(late, early, "{:?} and {:?}", dir, name);
        }
    }
}
