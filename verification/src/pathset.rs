//! Sorted lists of paths without repetition.

use crate::bytes::{copy, views};
use crate::order::{order_paths, path_less, path_order_is_total, same_path, Order};
use vstd::prelude::*;

verus! {

/// Whether paths stand in strictly ascending order. In particular no path occurs
/// twice, under any spelling.
pub open spec fn ascending(paths: Seq<Seq<u8>>) -> bool {
    forall|i: int, j: int|
        0 <= i < j < paths.len() ==> path_less(#[trigger] paths[i], #[trigger] paths[j])
}

/// In an ascending list no two entries are the same path.
pub proof fn ascending_paths_are_distinct(paths: Seq<Seq<u8>>, i: int, j: int)
    requires
        ascending(paths),
        0 <= i < paths.len(),
        0 <= j < paths.len(),
        same_path(paths[i], paths[j]),
    ensures
        i == j,
{
    path_order_is_total(paths[i], paths[j], paths[i]);
    path_order_is_total(paths[j], paths[i], paths[i]);
    if i < j {
        assert(path_less(paths[i], paths[j]));
    } else if j < i {
        assert(path_less(paths[j], paths[i]));
    }
}

/// Whether `p` belongs at `at` in an ascending list.
pub open spec fn belongs_at(paths: Seq<Seq<u8>>, p: Seq<u8>, at: int) -> bool {
    &&& 0 <= at <= paths.len()
    &&& forall|i: int| 0 <= i < at ==> path_less(#[trigger] paths[i], p)
    &&& forall|i: int| at <= i < paths.len() ==> path_less(p, #[trigger] paths[i])
}

/// A path put where it belongs keeps the list ascending.
pub proof fn lemma_insert_ascending(paths: Seq<Seq<u8>>, p: Seq<u8>, at: int)
    requires
        ascending(paths),
        belongs_at(paths, p, at),
    ensures
        ascending(paths.insert(at, p)),
{
    let more = paths.insert(at, p);
    assert forall|i: int, j: int| 0 <= i < j < more.len() implies path_less(
        #[trigger] more[i],
        #[trigger] more[j],
    ) by {
        if i < at {
            assert(more[i] == paths[i]);
        } else if i > at {
            assert(more[i] == paths[i - 1]);
        }
        if j < at {
            assert(more[j] == paths[j]);
        } else if j > at {
            assert(more[j] == paths[j - 1]);
        }
    }
}

/// Finds `p` in an ascending list: where it is, or where it belongs.
pub fn locate(paths: &Vec<Vec<u8>>, p: &[u8]) -> (r: (bool, usize))
    requires
        ascending(views(paths@)),
    ensures
        r.0 ==> r.1 < paths@.len() && same_path(views(paths@)[r.1 as int], p@),
        !r.0 ==> belongs_at(views(paths@), p@, r.1 as int),
{
    let ghost all = views(paths@);
    let mut i: usize = 0;
    while i < paths.len()
        invariant
            i <= paths@.len(),
            all == views(paths@),
            ascending(all),
            forall|k: int| 0 <= k < i ==> path_less(#[trigger] all[k], p@),
        decreases paths@.len() - i,
    {
        proof {
            path_order_is_total(all[i as int], p@, p@);
        }
        match order_paths(&paths[i], p) {
            Order::Before => {},
            Order::Same => {
                return (true, i);
            },
            Order::After => {
                assert forall|k: int| i <= k < all.len() implies path_less(
                    p@,
                    #[trigger] all[k],
                ) by {
                    if k > i {
                        assert(path_less(all[i as int], all[k]));
                        path_order_is_total(p@, all[i as int], all[k]);
                    }
                }
                return (false, i);
            },
        }
        i = i + 1;
    }
    (false, i)
}

/// Whether `at` is the first place where the path `p` occurs.
pub open spec fn first_spelling(paths: Seq<Seq<u8>>, p: Seq<u8>, at: int) -> bool {
    &&& 0 <= at < paths.len()
    &&& paths[at] == p
    &&& forall|k: int| 0 <= k < at ==> !same_path(#[trigger] paths[k], p)
}

/// Whether `p` is one of the paths, in the spelling that came first.
pub open spec fn first_spelled(paths: Seq<Seq<u8>>, p: Seq<u8>) -> bool {
    exists|at: int| first_spelling(paths, p, at)
}

/// Whether `p` is one of the paths, under any spelling.
pub open spec fn listed(paths: Seq<Seq<u8>>, p: Seq<u8>) -> bool {
    exists|i: int| 0 <= i < paths.len() && same_path(#[trigger] paths[i], p)
}

/// Whether `out` is `paths` in ascending order, each path once, in the spelling
/// that came first.
pub open spec fn sorted_once(paths: Seq<Seq<u8>>, out: Seq<Seq<u8>>) -> bool {
    &&& ascending(out)
    &&& forall|i: int| 0 <= i < out.len() ==> #[trigger] first_spelled(paths, out[i])
    &&& forall|k: int| 0 <= k < paths.len() ==> #[trigger] listed(out, paths[k])
}

proof fn lemma_first_spelled_stays(seen: Seq<Seq<u8>>, p: Seq<u8>, q: Seq<u8>)
    requires
        first_spelled(seen, q),
    ensures
        first_spelled(seen.push(p), q),
{
    let now = seen.push(p);
    let at = choose|at: int| first_spelling(seen, q, at);
    assert forall|k: int| 0 <= k < at implies !same_path(#[trigger] now[k], q) by {
        assert(now[k] == seen[k]);
    }
    assert(first_spelling(now, q, at));
}

proof fn lemma_sorted_once_repeat(seen: Seq<Seq<u8>>, p: Seq<u8>, out: Seq<Seq<u8>>, at: int)
    requires
        sorted_once(seen, out),
        0 <= at < out.len(),
        same_path(out[at], p),
    ensures
        sorted_once(seen.push(p), out),
{
    let now = seen.push(p);
    assert forall|i: int| 0 <= i < out.len() implies #[trigger] first_spelled(now, out[i]) by {
        assert(first_spelled(seen, out[i]));
        lemma_first_spelled_stays(seen, p, out[i]);
    }
    assert forall|k: int| 0 <= k < now.len() implies #[trigger] listed(out, now[k]) by {
        if k < seen.len() {
            assert(listed(out, seen[k]));
        }
    }
}

proof fn lemma_sorted_once_insert(seen: Seq<Seq<u8>>, p: Seq<u8>, out: Seq<Seq<u8>>, at: int)
    requires
        sorted_once(seen, out),
        belongs_at(out, p, at),
    ensures
        sorted_once(seen.push(p), out.insert(at, p)),
{
    let now = seen.push(p);
    let more = out.insert(at, p);
    lemma_insert_ascending(out, p, at);
    assert forall|k: int| 0 <= k < seen.len() implies !same_path(#[trigger] now[k], p) by {
        assert(listed(out, seen[k]));
        let j = choose|j: int| 0 <= j < out.len() && same_path(#[trigger] out[j], seen[k]);
        path_order_is_total(out[j], p, p);
        path_order_is_total(p, out[j], p);
        assert(path_less(out[j], p) || path_less(p, out[j]));
    }
    assert(first_spelling(now, p, seen.len() as int));
    assert forall|m: int| 0 <= m < more.len() implies #[trigger] first_spelled(now, more[m]) by {
        if m != at {
            let o: int = if m < at { m } else { m - 1 };
            assert(more[m] == out[o]);
            assert(first_spelled(seen, out[o]));
            lemma_first_spelled_stays(seen, p, out[o]);
        }
    }
    assert forall|k: int| 0 <= k < now.len() implies #[trigger] listed(more, now[k]) by {
        if k < seen.len() {
            assert(listed(out, seen[k]));
            let j = choose|j: int| 0 <= j < out.len() && same_path(#[trigger] out[j], seen[k]);
            let m: int = if j < at { j } else { j + 1 };
            assert(more[m] == out[j]);
        } else {
            assert(same_path(more[at], now[k]));
        }
    }
}

/// Sorts paths and drops repetitions.
pub fn sort_paths(paths: Vec<Vec<u8>>) -> (r: Vec<Vec<u8>>)
    ensures
        sorted_once(views(paths@), views(r@)),
{
    let mut r: Vec<Vec<u8>> = Vec::new();
    let ghost all = views(paths@);
    let mut i: usize = 0;
    while i < paths.len()
        invariant
            i <= paths@.len(),
            all == views(paths@),
            sorted_once(all.take(i as int), views(r@)),
        decreases paths@.len() - i,
    {
        let p = copy(&paths[i]);
        let ghost before = views(r@);
        let ghost pv = p@;
        let (found, at) = locate(&r, &p);
        assert(all.take(i + 1) =~= all.take(i as int).push(pv));
        if found {
            proof {
                lemma_sorted_once_repeat(all.take(i as int), pv, before, at as int);
            }
        } else {
            r.insert(at, p);
            assert(views(r@) =~= before.insert(at as int, pv));
            proof {
                lemma_sorted_once_insert(all.take(i as int), pv, before, at as int);
            }
        }
        i = i + 1;
    }
    assert(all.take(i as int) =~= all);
    r
}

/// A list of paths has one sorted form: what sorting it without repetition gives
/// is fixed, down to the spelling.
pub proof fn sorted_paths_are_unique(paths: Seq<Seq<u8>>, a: Seq<Seq<u8>>, b: Seq<Seq<u8>>)
    requires
        sorted_once(paths, a),
        sorted_once(paths, b),
    ensures
        a == b,
{
    assert forall|x: Seq<u8>| a.contains(x) <==> b.contains(x) by {
        if a.contains(x) {
            lemma_sorted_once_holds(paths, a, b, x);
        }
        if b.contains(x) {
            lemma_sorted_once_holds(paths, b, a, x);
        }
    }
    lemma_ascending_unique(a, b);
}

proof fn lemma_sorted_once_holds(
    paths: Seq<Seq<u8>>,
    a: Seq<Seq<u8>>,
    b: Seq<Seq<u8>>,
    x: Seq<u8>,
)
    requires
        sorted_once(paths, a),
        sorted_once(paths, b),
        a.contains(x),
    ensures
        b.contains(x),
{
    let i = choose|i: int| 0 <= i < a.len() && a[i] == x;
    assert(first_spelled(paths, a[i]));
    let k = choose|k: int| first_spelling(paths, x, k);
    assert(listed(b, paths[k]));
    let j = choose|j: int| 0 <= j < b.len() && same_path(#[trigger] b[j], paths[k]);
    assert(first_spelled(paths, b[j]));
    let m = choose|m: int| first_spelling(paths, b[j], m);
    if m < k {
        assert(same_path(paths[m], x));
    } else if k < m {
        assert(same_path(paths[k], b[j]));
    }
    assert(b[j] == x);
}

proof fn lemma_ascending_unique(a: Seq<Seq<u8>>, b: Seq<Seq<u8>>)
    requires
        ascending(a),
        ascending(b),
        forall|x: Seq<u8>| a.contains(x) <==> b.contains(x),
    ensures
        a == b,
    decreases a.len(),
{
    if a.len() == 0 {
        if b.len() > 0 {
            assert(b.contains(b[0]));
        }
        assert(a =~= b);
    } else {
        let m = a.last();
        assert(a.contains(m));
        let k = choose|k: int| 0 <= k < b.len() && b[k] == m;
        let n = b.last();
        assert(b.contains(n));
        let j = choose|j: int| 0 <= j < a.len() && a[j] == n;
        if j < a.len() - 1 {
            assert(path_less(a[j], a[a.len() - 1]));
            if k < b.len() - 1 {
                assert(path_less(b[k], b[b.len() - 1]));
                path_order_is_total(m, n, m);
            }
        }
        assert(m == n);
        let (fa, fb) = (a.drop_last(), b.drop_last());
        assert forall|x: Seq<u8>| fa.contains(x) <==> fb.contains(x) by {
            path_order_is_total(m, m, m);
            if fa.contains(x) {
                let i = choose|i: int| 0 <= i < fa.len() && fa[i] == x;
                assert(a[i] == x);
                assert(path_less(a[i], a[a.len() - 1]));
                assert(a.contains(x));
                let q = choose|q: int| 0 <= q < b.len() && b[q] == x;
                assert(fb[q] == x);
            }
            if fb.contains(x) {
                let i = choose|i: int| 0 <= i < fb.len() && fb[i] == x;
                assert(b[i] == x);
                assert(path_less(b[i], b[b.len() - 1]));
                assert(b.contains(x));
                let q = choose|q: int| 0 <= q < a.len() && a[q] == x;
                assert(fa[q] == x);
            }
        }
        lemma_ascending_unique(fa, fb);
        assert(a =~= fa.push(m));
        assert(b =~= fb.push(m));
    }
}

/// Sorting loses no path and makes none up: every path is listed, under some
/// spelling of it, and everything listed is one of the paths.
pub proof fn sorting_keeps_every_path(paths: Seq<Seq<u8>>, out: Seq<Seq<u8>>, k: int, i: int)
    requires
        sorted_once(paths, out),
    ensures
        0 <= k < paths.len() ==> exists|j: int|
            0 <= j < out.len() && same_path(#[trigger] out[j], paths[k]),
        0 <= i < out.len() ==> paths.contains(out[i]),
        0 <= i < k < out.len() ==> path_less(out[i], out[k]),
{
    if 0 <= k < paths.len() {
        assert(listed(out, paths[k]));
    }
    if 0 <= i < out.len() {
        assert(first_spelled(paths, out[i]));
        let at = choose|at: int| first_spelling(paths, out[i], at);
        assert(paths[at] == out[i]);
    }
}

} // verus!
