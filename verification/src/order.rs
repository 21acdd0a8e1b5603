//! The order of paths: component by component, and within a name byte by byte.

use crate::path::{components, components_of, comp_views, Comp, Component};
use vstd::prelude::*;

verus! {

/// How one value stands to another.
#[derive(Debug, Clone, Copy, PartialEq, Eq, Structural)]
pub enum Order {
    Before,
    Same,
    After,
}

/// `a` comes before `b` at position `k`: they agree up to there, and `a` ends
/// there or holds the smaller item.
pub open spec fn lex_at<T>(a: Seq<T>, b: Seq<T>, less: spec_fn(T, T) -> bool, k: int) -> bool {
    &&& 0 <= k <= a.len()
    &&& k < b.len()
    &&& a.take(k) == b.take(k)
    &&& k == a.len() || less(a[k], b[k])
}

/// Lexicographic order over an order of the items.
pub open spec fn lex<T>(a: Seq<T>, b: Seq<T>, less: spec_fn(T, T) -> bool) -> bool {
    exists|k: int| #[trigger] lex_at(a, b, less, k)
}

/// A strict total order.
pub open spec fn strict_total<T>(less: spec_fn(T, T) -> bool) -> bool {
    &&& forall|x: T| !#[trigger] less(x, x)
    &&& forall|x: T, y: T, z: T| #[trigger] less(x, y) && #[trigger] less(y, z) ==> less(x, z)
    &&& forall|x: T, y: T| #![trigger less(x, y)] x != y ==> less(x, y) || less(y, x)
}

/// The order of byte strings.
pub open spec fn bytes_less(a: Seq<u8>, b: Seq<u8>) -> bool {
    lex(a, b, |x: u8, y: u8| x < y)
}

/// The place of each kind of component among the kinds.
pub open spec fn comp_rank(c: Comp) -> int {
    match c {
        Comp::RootDir => 0,
        Comp::CurDir => 1,
        Comp::ParentDir => 2,
        Comp::Normal(_) => 3,
    }
}

/// The order of components: by kind, and names byte by byte.
pub open spec fn comp_less(a: Comp, b: Comp) -> bool {
    ||| comp_rank(a) < comp_rank(b)
    ||| a is Normal && b is Normal && bytes_less(a->Normal_0, b->Normal_0)
}

/// The order of paths.
pub open spec fn path_less(p: Seq<u8>, q: Seq<u8>) -> bool {
    lex(components_of(p), components_of(q), |x: Comp, y: Comp| comp_less(x, y))
}

/// Whether two spellings are the same path.
pub open spec fn same_path(p: Seq<u8>, q: Seq<u8>) -> bool {
    components_of(p) == components_of(q)
}

/// How path `p` stands to path `q`.
pub open spec fn path_order(p: Seq<u8>, q: Seq<u8>) -> Order {
    if same_path(p, q) {
        Order::Same
    } else if path_less(p, q) {
        Order::Before
    } else {
        Order::After
    }
}

proof fn lemma_lex_total<T>(a: Seq<T>, b: Seq<T>, less: spec_fn(T, T) -> bool, k: int)
    requires
        strict_total(less),
        0 <= k <= a.len(),
        k <= b.len(),
        a.take(k) == b.take(k),
        a != b,
    ensures
        lex(a, b, less) || lex(b, a, less),
    decreases a.len() - k,
{
    if k == a.len() {
        if k == b.len() {
            assert(a.take(k) =~= a);
            assert(b.take(k) =~= b);
        }
        assert(lex_at(a, b, less, k));
    } else if k == b.len() {
        assert(lex_at(b, a, less, k));
    } else if a[k] == b[k] {
        assert(a.take(k + 1) =~= a.take(k).push(a[k]));
        assert(b.take(k + 1) =~= b.take(k).push(b[k]));
        lemma_lex_total(a, b, less, k + 1);
    } else {
        if less(a[k], b[k]) {
            assert(lex_at(a, b, less, k));
        } else {
            assert(less(b[k], a[k]));
            assert(lex_at(b, a, less, k));
        }
    }
}

proof fn lemma_take_agree<T>(a: Seq<T>, b: Seq<T>, k: int, i: int)
    requires
        0 <= i <= k <= a.len(),
        k <= b.len(),
        a.take(k) == b.take(k),
    ensures
        a.take(i) == b.take(i),
        i < k ==> a[i] == b[i],
{
    assert(a.take(i) =~= a.take(k).take(i));
    assert(b.take(i) =~= b.take(k).take(i));
    if i < k {
        assert(a[i] == a.take(k)[i]);
        assert(b[i] == b.take(k)[i]);
    }
}

proof fn lemma_lex_transitive<T>(
    a: Seq<T>,
    b: Seq<T>,
    c: Seq<T>,
    less: spec_fn(T, T) -> bool,
)
    requires
        strict_total(less),
        lex(a, b, less),
        lex(b, c, less),
    ensures
        lex(a, c, less),
{
    let i = choose|i: int| #[trigger] lex_at(a, b, less, i);
    let j = choose|j: int| #[trigger] lex_at(b, c, less, j);
    let k = if i <= j { i } else { j };
    lemma_take_agree(a, b, i, k);
    lemma_take_agree(b, c, j, k);
    if i < j {
        lemma_take_agree(b, c, j, i);
    } else if j < i {
        lemma_take_agree(a, b, i, j);
    }
    assert(lex_at(a, c, less, k));
}

proof fn lemma_lex_irreflexive<T>(a: Seq<T>, less: spec_fn(T, T) -> bool)
    requires
        strict_total(less),
    ensures
        !lex(a, a, less),
{
    if lex(a, a, less) {
        let k = choose|k: int| #[trigger] lex_at(a, a, less, k);
        assert(less(a[k], a[k]));
    }
}

/// A strict total order of the items gives one of their sequences.
pub proof fn lex_is_strict_total<T>(less: spec_fn(T, T) -> bool)
    requires
        strict_total(less),
    ensures
        strict_total(|a: Seq<T>, b: Seq<T>| lex(a, b, less)),
{
    let order = |a: Seq<T>, b: Seq<T>| lex(a, b, less);
    assert forall|x: Seq<T>| !#[trigger] order(x, x) by {
        lemma_lex_irreflexive(x, less);
    }
    assert forall|x: Seq<T>, y: Seq<T>, z: Seq<T>| #[trigger] order(x, y) && #[trigger] order(
        y,
        z,
    ) implies order(x, z) by {
        lemma_lex_transitive(x, y, z, less);
    }
    assert forall|x: Seq<T>, y: Seq<T>|
        #![trigger order(x, y)]
        x != y implies order(x, y) || order(y, x) by {
        assert(x.take(0) =~= y.take(0));
        lemma_lex_total(x, y, less, 0);
    }
}

proof fn lemma_comp_less_strict_total()
    ensures
        strict_total(|x: Comp, y: Comp| comp_less(x, y)),
{
    let byte = |x: u8, y: u8| x < y;
    lex_is_strict_total(byte);
    let names = |a: Seq<u8>, b: Seq<u8>| lex(a, b, byte);
    let order = |x: Comp, y: Comp| comp_less(x, y);
    assert forall|x: Seq<u8>, y: Seq<u8>| #[trigger] bytes_less(x, y) == names(x, y) by {}
    assert forall|x: Comp| !#[trigger] order(x, x) by {
        if x is Normal {
            assert(!names(x->Normal_0, x->Normal_0));
        }
    }
    assert forall|x: Comp, y: Comp, z: Comp| #[trigger] order(x, y) && #[trigger] order(
        y,
        z,
    ) implies order(x, z) by {
        if x is Normal && y is Normal && z is Normal {
            assert(names(x->Normal_0, y->Normal_0));
            assert(names(y->Normal_0, z->Normal_0));
        }
    }
    assert forall|x: Comp, y: Comp| #![trigger order(x, y)] x != y implies order(x, y) || order(
        y,
        x,
    ) by {
        if x is Normal && y is Normal {
            assert(x->Normal_0 != y->Normal_0);
            assert(names(x->Normal_0, y->Normal_0) || names(y->Normal_0, x->Normal_0));
        }
    }
}

/// Paths are totally ordered: of two different paths exactly one comes first,
/// no path comes before itself, and the order carries over.
pub proof fn path_order_is_total(p: Seq<u8>, q: Seq<u8>, r: Seq<u8>)
    ensures
        !path_less(p, p),
        !same_path(p, q) ==> (path_less(p, q) <==> !path_less(q, p)),
        same_path(p, q) ==> !path_less(p, q),
        path_less(p, q) && path_less(q, r) ==> path_less(p, r),
{
    lemma_comp_less_strict_total();
    let less = |x: Comp, y: Comp| comp_less(x, y);
    lex_is_strict_total(less);
    let order = |a: Seq<Comp>, b: Seq<Comp>| lex(a, b, less);
    let (a, b, c) = (components_of(p), components_of(q), components_of(r));
    assert(!order(a, a));
    assert(!order(b, b));
    assert(order(a, b) == path_less(p, q));
    assert(order(b, a) == path_less(q, p));
    assert(order(b, c) == path_less(q, r));
    assert(order(a, c) == path_less(p, r));
}

/// Says how one byte string stands to another.
fn order_bytes(a: &[u8], b: &[u8]) -> (r: Order)
    ensures
        r == Order::Same <==> a@ == b@,
        r == Order::Before <==> bytes_less(a@, b@),
        r == Order::After <==> bytes_less(b@, a@),
{
    proof {
        lex_is_strict_total(|x: u8, y: u8| x < y);
        let order = |s: Seq<u8>, t: Seq<u8>| lex(s, t, |x: u8, y: u8| x < y);
        assert(!order(a@, a@));
        assert(order(a@, b@) == bytes_less(a@, b@));
        assert(order(b@, a@) == bytes_less(b@, a@));
    }
    let mut i: usize = 0;
    while i < a.len() && i < b.len()
        invariant
            i <= a@.len(),
            i <= b@.len(),
            a@.take(i as int) == b@.take(i as int),
            !(bytes_less(a@, b@) && bytes_less(b@, a@)),
            a@ == b@ ==> !bytes_less(a@, b@),
        decreases a@.len() - i,
    {
        if a[i] < b[i] {
            assert(lex_at(a@, b@, |x: u8, y: u8| x < y, i as int));
            return Order::Before;
        }
        if b[i] < a[i] {
            assert(lex_at(b@, a@, |x: u8, y: u8| x < y, i as int));
            return Order::After;
        }
        assert(a@.take(i + 1) =~= a@.take(i as int).push(a@[i as int]));
        assert(b@.take(i + 1) =~= b@.take(i as int).push(b@[i as int]));
        i = i + 1;
    }
    if i < b.len() {
        assert(lex_at(a@, b@, |x: u8, y: u8| x < y, i as int));
        Order::Before
    } else if i < a.len() {
        assert(lex_at(b@, a@, |x: u8, y: u8| x < y, i as int));
        Order::After
    } else {
        assert(a@.take(i as int) =~= a@);
        assert(b@.take(i as int) =~= b@);
        Order::Same
    }
}

/// The place of a component's kind among the kinds.
fn rank(c: &Component) -> (r: u8)
    ensures
        r == comp_rank(c@),
{
    match c {
        Component::RootDir => 0,
        Component::CurDir => 1,
        Component::ParentDir => 2,
        Component::Normal(_) => 3,
    }
}

/// Says how one component stands to another.
fn order_components(a: &Component, b: &Component) -> (r: Order)
    ensures
        r == Order::Same <==> a@ == b@,
        r == Order::Before <==> comp_less(a@, b@),
        r == Order::After <==> comp_less(b@, a@),
{
    if let (Component::Normal(x), Component::Normal(y)) = (a, b) {
        return order_bytes(x, y);
    }
    let (i, j): (u8, u8) = (rank(a), rank(b));
    if i < j {
        Order::Before
    } else if j < i {
        Order::After
    } else {
        Order::Same
    }
}

/// Says how path `p` stands to path `q`.
pub fn order_paths(p: &[u8], q: &[u8]) -> (r: Order)
    ensures
        r == path_order(p@, q@),
{
    let a = components(p);
    let b = components(q);
    let ghost ca = comp_views(a@);
    let ghost cb = comp_views(b@);
    let ghost less = |x: Comp, y: Comp| comp_less(x, y);
    proof {
        path_order_is_total(p@, q@, p@);
    }
    let mut i: usize = 0;
    while i < a.len() && i < b.len()
        invariant
            i <= a@.len(),
            i <= b@.len(),
            ca == comp_views(a@),
            cb == comp_views(b@),
            ca == components_of(p@),
            cb == components_of(q@),
            less == (|x: Comp, y: Comp| comp_less(x, y)),
            ca.take(i as int) == cb.take(i as int),
            !same_path(p@, q@) ==> (path_less(p@, q@) <==> !path_less(q@, p@)),
            same_path(p@, q@) ==> !path_less(p@, q@),
            same_path(p@, q@) ==> !path_less(q@, p@),
        decreases a@.len() - i,
    {
        match order_components(&a[i], &b[i]) {
            Order::Before => {
                assert(lex_at(ca, cb, less, i as int));
                return Order::Before;
            },
            Order::After => {
                assert(lex_at(cb, ca, less, i as int));
                return Order::After;
            },
            Order::Same => {},
        }
        assert(ca.take(i + 1) =~= ca.take(i as int).push(ca[i as int]));
        assert(cb.take(i + 1) =~= cb.take(i as int).push(cb[i as int]));
        i = i + 1;
    }
    if i < b.len() {
        assert(lex_at(ca, cb, less, i as int));
        Order::Before
    } else if i < a.len() {
        assert(lex_at(cb, ca, less, i as int));
        Order::After
    } else {
        assert(ca.take(i as int) =~= ca);
        assert(cb.take(i as int) =~= cb);
        Order::Same
    }
}

/// Byte strings are ordered by the first byte in which they differ, and one that
/// goes on comes after one that ends.
pub proof fn bytes_are_ordered_by_the_first_difference(
    common: Seq<u8>,
    x: u8,
    a: Seq<u8>,
    y: u8,
    b: Seq<u8>,
)
    requires
        x < y,
    ensures
        bytes_less(common.push(x) + a, common.push(y) + b),
        !bytes_less(common.push(y) + b, common.push(x) + a),
        bytes_less(common, common.push(x) + a),
        !bytes_less(common.push(x) + a, common),
{
    let less = |p: u8, q: u8| p < q;
    lex_is_strict_total(less);
    let order = |s: Seq<u8>, t: Seq<u8>| lex(s, t, less);
    let (p, q) = (common.push(x) + a, common.push(y) + b);
    let k = common.len() as int;
    assert(p.take(k) =~= common);
    assert(q.take(k) =~= common);
    assert(common.take(k) =~= common);
    assert(lex_at(p, q, less, k));
    assert(lex_at(common, p, less, k));
    assert(order(p, q) && order(common, p));
    assert(!order(p, p) && !order(common, common));
    assert(order(q, p) == bytes_less(q, p));
    assert(order(p, common) == bytes_less(p, common));
}

/// Paths are ordered by the first component in which they differ: names by their
/// bytes, the root before anything else, and a directory before what is below it.
pub proof fn paths_are_ordered_by_the_first_difference(p: Seq<u8>, q: Seq<u8>, k: int)
    requires
        0 <= k <= components_of(p).len(),
        k < components_of(q).len(),
        components_of(p).take(k) == components_of(q).take(k),
    ensures
        k == components_of(p).len() ==> path_less(p, q) && !path_less(q, p),
        k < components_of(p).len() && components_of(p)[k] is Normal && components_of(q)[k] is Normal
            && components_of(p)[k] != components_of(q)[k] ==> (path_less(p, q) <==> bytes_less(
            components_of(p)[k]->Normal_0,
            components_of(q)[k]->Normal_0,
        )),
        k < components_of(p).len() && components_of(p)[k] == Comp::RootDir && components_of(q)[k]
            != Comp::RootDir ==> path_less(p, q),
        k < components_of(p).len() && components_of(p)[k] == Comp::CurDir && (components_of(q)[k]
            == Comp::ParentDir || components_of(q)[k] is Normal) ==> path_less(p, q),
        k < components_of(p).len() && components_of(p)[k] == Comp::ParentDir && components_of(q)[k]
            is Normal ==> path_less(p, q),
{
    let less = |x: Comp, y: Comp| comp_less(x, y);
    let (a, b) = (components_of(p), components_of(q));
    path_order_is_total(p, q, p);
    path_order_is_total(q, p, q);
    if k == a.len() {
        assert(lex_at(a, b, less, k));
    } else if comp_less(a[k], b[k]) {
        assert(lex_at(a, b, less, k));
    } else if a[k] is Normal && b[k] is Normal && a[k] != b[k] {
        lemma_comp_less_strict_total();
        assert(less(a[k], b[k]) || less(b[k], a[k]));
        assert(lex_at(b, a, less, k));
    }
}

/// Two spellings are the same path exactly if their components are the same, one by
/// one.
pub proof fn same_paths_have_the_same_components(p: Seq<u8>, q: Seq<u8>)
    ensures
        same_path(p, q) <==> components_of(p).len() == components_of(q).len() && forall|i: int|
            0 <= i < components_of(p).len() ==> #[trigger] components_of(p)[i] == components_of(
                q,
            )[i],
{
    if components_of(p).len() == components_of(q).len() && (forall|i: int|
        0 <= i < components_of(p).len() ==> #[trigger] components_of(p)[i] == components_of(q)[i]) {
        assert(components_of(p) =~= components_of(q));
    }
}

} // verus!
