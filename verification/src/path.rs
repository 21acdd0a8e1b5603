//! Unix paths as byte strings: their components, and lexical clean-up.

use crate::bytes::{
    copy, join, lemma_pieces_free, lemma_split_concat, lemma_split_join, lemma_split_nonempty,
    lemma_split_single, split, split_bytes, views,
};
use vstd::prelude::*;

verus! {

/// The separator between the names of a path.
pub const SLASH: u8 = 0x2f;

/// The byte that `.` and `..` are made of.
pub const DOT: u8 = 0x2e;

/// One component of a path, as a mathematical value.
pub enum Comp {
    RootDir,
    CurDir,
    ParentDir,
    Normal(Seq<u8>),
}

/// One component of a path.
#[derive(Debug)]
pub enum Component {
    RootDir,
    CurDir,
    ParentDir,
    Normal(Vec<u8>),
}

impl View for Component {
    type V = Comp;

    open spec fn view(&self) -> Comp {
        match *self {
            Component::RootDir => Comp::RootDir,
            Component::CurDir => Comp::CurDir,
            Component::ParentDir => Comp::ParentDir,
            Component::Normal(name) => Comp::Normal(name@),
        }
    }
}

/// The contents of a list of components.
pub open spec fn comp_views(v: Seq<Component>) -> Seq<Comp> {
    v.map_values(|c: Component| c@)
}

/// Whether a path starts at the root.
pub open spec fn absolute(p: Seq<u8>) -> bool {
    p.len() > 0 && p[0] == SLASH
}

/// What the piece at `index` between two slashes stands for. Empty pieces stand
/// for nothing, and so does `.`, except at the very start of a relative path.
pub open spec fn piece_component(piece: Seq<u8>, first_of_relative: bool) -> Option<Comp> {
    if piece.len() == 0 {
        None
    } else if piece == seq![DOT] {
        if first_of_relative {
            Some(Comp::CurDir)
        } else {
            None
        }
    } else if piece == seq![DOT, DOT] {
        Some(Comp::ParentDir)
    } else {
        Some(Comp::Normal(piece))
    }
}

/// The components that a list of pieces stands for.
pub open spec fn piece_components(pieces: Seq<Seq<u8>>, abs: bool) -> Seq<Comp>
    decreases pieces.len(),
{
    if pieces.len() == 0 {
        Seq::empty()
    } else {
        let front = piece_components(pieces.drop_last(), abs);
        match piece_component(pieces.last(), pieces.len() == 1 && !abs) {
            Some(c) => front.push(c),
            None => front,
        }
    }
}

/// The components of a path: the root for an absolute path, then what the
/// pieces between slashes stand for.
pub open spec fn components_of(p: Seq<u8>) -> Seq<Comp> {
    let rest = piece_components(split(p, SLASH), absolute(p));
    if absolute(p) {
        seq![Comp::RootDir] + rest
    } else {
        rest
    }
}

/// Whether a path starts at the root.
pub fn is_absolute(p: &[u8]) -> (r: bool)
    ensures
        r == absolute(p@),
{
    p.len() > 0 && p[0] == SLASH
}

/// The components of a path, in order.
pub fn components(p: &[u8]) -> (r: Vec<Component>)
    ensures
        comp_views(r@) == components_of(p@),
{
    let pieces = split_bytes(p, SLASH);
    let abs = is_absolute(p);
    let mut r: Vec<Component> = Vec::new();
    if abs {
        r.push(Component::RootDir);
    }
    let ghost root = comp_views(r@);
    let ghost all = views(pieces@);
    assert(root + piece_components(all.take(0), abs) =~= comp_views(r@));
    let mut i: usize = 0;
    while i < pieces.len()
        invariant
            i <= pieces@.len(),
            all == views(pieces@),
            comp_views(r@) == root + piece_components(all.take(i as int), abs),
        decreases pieces@.len() - i,
    {
        let piece = &pieces[i];
        let ghost before = comp_views(r@);
        assert(all.take(i + 1).drop_last() =~= all.take(i as int));
        assert(all.take(i + 1).last() == piece@);
        if piece.len() == 0 {
        } else if piece.len() == 1 && piece[0] == DOT {
            assert(piece@ =~= seq![DOT]);
            if i == 0 && !abs {
                r.push(Component::CurDir);
                assert(comp_views(r@) =~= before.push(Comp::CurDir));
            }
        } else if piece.len() == 2 && piece[0] == DOT && piece[1] == DOT {
            assert(piece@ =~= seq![DOT, DOT]);
            r.push(Component::ParentDir);
            assert(comp_views(r@) =~= before.push(Comp::ParentDir));
        } else {
            let name = copy(piece);
            r.push(Component::Normal(name));
            assert(comp_views(r@) =~= before.push(Comp::Normal(piece@)));
        }
        assert(comp_views(r@) =~= root + piece_components(all.take(i + 1), abs));
        i = i + 1;
    }
    assert(all.take(i as int) =~= all);
    assert(comp_views(r@) =~= components_of(p@));
    r
}

/// What is left of the names of a path once every `..` has taken back the name
/// before it. A `..` with no name before it is dropped.
pub open spec fn resolved(cs: Seq<Comp>) -> Seq<Seq<u8>>
    decreases cs.len(),
{
    if cs.len() == 0 {
        Seq::empty()
    } else {
        let front = resolved(cs.drop_last());
        match cs.last() {
            Comp::Normal(name) => front.push(name),
            Comp::ParentDir => if front.len() > 0 {
                front.drop_last()
            } else {
                front
            },
            _ => front,
        }
    }
}

/// A path written from its names.
pub open spec fn rendered(abs: bool, names: Seq<Seq<u8>>) -> Seq<u8> {
    if abs {
        seq![SLASH] + join(names, SLASH)
    } else {
        join(names, SLASH)
    }
}

/// A path without `.`, `..`, repeated and trailing slashes.
pub open spec fn cleaned(p: Seq<u8>) -> Seq<u8> {
    rendered(absolute(p), resolved(components_of(p)))
}

/// Writes a path from its names.
fn render(abs: bool, names: &Vec<Vec<u8>>) -> (r: Vec<u8>)
    ensures
        r@ == rendered(abs, views(names@)),
{
    let mut r: Vec<u8> = Vec::new();
    if abs {
        r.push(SLASH);
    }
    let ghost root = r@;
    let ghost all = views(names@);
    let mut i: usize = 0;
    assert(root + join(all.take(0), SLASH) =~= r@);
    while i < names.len()
        invariant
            i <= names@.len(),
            all == views(names@),
            r@ == root + join(all.take(i as int), SLASH),
        decreases names@.len() - i,
    {
        let ghost before = r@;
        assert(all.take(i + 1).drop_last() =~= all.take(i as int));
        assert(all.take(i + 1).last() == names@[i as int]@);
        if i > 0 {
            r.push(SLASH);
        }
        let mut name = copy(&names[i]);
        r.append(&mut name);
        assert(r@ =~= root + join(all.take(i + 1), SLASH));
        i = i + 1;
    }
    assert(all.take(i as int) =~= all);
    assert(r@ =~= rendered(abs, all));
    r
}

/// Cleans a path by its text alone, without looking at the file system: `.` and
/// repeated slashes go away, and `..` takes back the name before it. A `..`
/// never climbs above the start of the path.
pub fn clean_path(p: &[u8]) -> (r: Vec<u8>)
    ensures
        r@ == cleaned(p@),
{
    let cs = components(p);
    let ghost all = comp_views(cs@);
    let mut names: Vec<Vec<u8>> = Vec::new();
    let mut i: usize = 0;
    assert(views(names@) =~= resolved(all.take(0)));
    while i < cs.len()
        invariant
            i <= cs@.len(),
            all == comp_views(cs@),
            views(names@) == resolved(all.take(i as int)),
        decreases cs@.len() - i,
    {
        let ghost before = views(names@);
        assert(all.take(i + 1).drop_last() =~= all.take(i as int));
        assert(all.take(i + 1).last() == cs@[i as int]@);
        match &cs[i] {
            Component::Normal(name) => {
                names.push(copy(name));
                assert(views(names@) =~= before.push(name@));
            },
            Component::ParentDir => {
                if names.len() > 0 {
                    names.pop();
                    assert(views(names@) =~= before.drop_last());
                }
            },
            Component::RootDir => {},
            Component::CurDir => {},
        }
        i = i + 1;
    }
    assert(all.take(i as int) =~= all);
    render(is_absolute(p), &names)
}

/// The path to use for `p`: what the file system says it really is, if it
/// exists and can be resolved, else its lexical clean-up.
pub open spec fn normalized(p: Seq<u8>, exists: bool, canonical: Option<Seq<u8>>) -> Seq<u8> {
    match canonical {
        Some(c) if exists => c,
        _ => cleaned(p),
    }
}

/// Resolves a path: an existing path to its canonical form where the file system
/// gives one, any other path to its lexical clean-up.
pub fn normalize_path(p: &[u8], exists: bool, canonical: &Option<Vec<u8>>) -> (r: Vec<u8>)
    ensures
        r@ == normalized(p@, exists, opt_view(*canonical)),
{
    match canonical {
        Some(c) if exists => copy(c),
        _ => clean_path(p),
    }
}

/// The contents of an optional byte string.
pub open spec fn opt_view(p: Option<Vec<u8>>) -> Option<Seq<u8>> {
    match p {
        Some(v) => Some(v@),
        None => None,
    }
}

/// `name` below `dir`. An absolute `name` stands for itself.
pub open spec fn joined(dir: Seq<u8>, name: Seq<u8>) -> Seq<u8> {
    if absolute(name) {
        name
    } else if dir.len() == 0 || dir.last() == SLASH {
        dir + name
    } else {
        dir.push(SLASH) + name
    }
}

/// Puts `name` below `dir`.
pub fn join_path(dir: &[u8], name: &[u8]) -> (r: Vec<u8>)
    ensures
        r@ == joined(dir@, name@),
{
    let mut r: Vec<u8> = Vec::new();
    if !is_absolute(name) {
        r = copy(dir);
        if dir.len() > 0 && dir[dir.len() - 1] != SLASH {
            r.push(SLASH);
        }
    }
    let mut tail = copy(name);
    r.append(&mut tail);
    assert(r@ =~= joined(dir@, name@));
    r
}

/// A name that a path component can have: not empty, no slash, neither `.` nor
/// `..`.
pub open spec fn plain_name(name: Seq<u8>) -> bool {
    &&& name.len() > 0
    &&& !name.contains(SLASH)
    &&& name != seq![DOT]
    &&& name != seq![DOT, DOT]
}

/// The components of a path that is written from plain names.
pub open spec fn named_components(abs: bool, names: Seq<Seq<u8>>) -> Seq<Comp> {
    let rest = names.map_values(|n: Seq<u8>| Comp::Normal(n));
    if abs {
        seq![Comp::RootDir] + rest
    } else {
        rest
    }
}

proof fn lemma_normal_components_plain(pieces: Seq<Seq<u8>>, abs: bool)
    requires
        forall|i: int| 0 <= i < pieces.len() ==> !(#[trigger] pieces[i]).contains(SLASH),
    ensures
        forall|i: int|
            0 <= i < piece_components(pieces, abs).len() ==> match #[trigger] piece_components(
                pieces,
                abs,
            )[i] {
                Comp::Normal(name) => plain_name(name),
                Comp::RootDir => false,
                _ => true,
            },
    decreases pieces.len(),
{
    if pieces.len() > 0 {
        let front = pieces.drop_last();
        assert forall|i: int| 0 <= i < front.len() implies !(#[trigger] front[i]).contains(
            SLASH,
        ) by {
            assert(front[i] == pieces[i]);
        }
        lemma_normal_components_plain(front, abs);
        assert(!pieces[pieces.len() - 1].contains(SLASH));
    }
}

proof fn lemma_components_plain(p: Seq<u8>)
    ensures
        forall|i: int|
            0 <= i < components_of(p).len() ==> match #[trigger] components_of(p)[i] {
                Comp::Normal(name) => plain_name(name),
                Comp::RootDir => i == 0 && absolute(p),
                _ => true,
            },
{
    lemma_pieces_free(p, SLASH);
    let rest = piece_components(split(p, SLASH), absolute(p));
    lemma_normal_components_plain(split(p, SLASH), absolute(p));
    assert forall|i: int| 0 <= i < components_of(p).len() implies match #[trigger] components_of(
        p,
    )[i] {
        Comp::Normal(name) => plain_name(name),
        Comp::RootDir => i == 0 && absolute(p),
        _ => true,
    } by {
        if absolute(p) {
            if i > 0 {
                assert(components_of(p)[i] == rest[i - 1]);
            }
        } else {
            assert(components_of(p)[i] == rest[i]);
        }
    }
}

proof fn lemma_resolved_plain(cs: Seq<Comp>)
    requires
        forall|i: int|
            0 <= i < cs.len() ==> match #[trigger] cs[i] {
                Comp::Normal(name) => plain_name(name),
                _ => true,
            },
    ensures
        forall|i: int| 0 <= i < resolved(cs).len() ==> plain_name(#[trigger] resolved(cs)[i]),
    decreases cs.len(),
{
    if cs.len() > 0 {
        let front = cs.drop_last();
        assert forall|i: int| 0 <= i < front.len() implies match #[trigger] front[i] {
            Comp::Normal(name) => plain_name(name),
            _ => true,
        } by {
            assert(front[i] == cs[i]);
        }
        lemma_resolved_plain(front);
        let last = cs[cs.len() - 1];
        assert forall|i: int| 0 <= i < resolved(cs).len() implies plain_name(
            #[trigger] resolved(cs)[i],
        ) by {
            if i < resolved(front).len() {
                assert(resolved(cs)[i] == resolved(front)[i]);
            }
        }
    }
}

proof fn lemma_plain_pieces(lead: Seq<Seq<u8>>, names: Seq<Seq<u8>>, abs: bool)
    requires
        lead.len() == 0 || lead == seq![Seq::<u8>::empty()],
        forall|i: int| 0 <= i < names.len() ==> plain_name(#[trigger] names[i]),
    ensures
        piece_components(lead + names, abs) == names.map_values(|n: Seq<u8>| Comp::Normal(n)),
    decreases names.len(),
{
    let pieces = lead + names;
    let want = names.map_values(|n: Seq<u8>| Comp::Normal(n));
    if names.len() == 0 {
        assert(pieces =~= lead);
        if lead.len() > 0 {
            assert(pieces.drop_last() =~= Seq::<Seq<u8>>::empty());
            assert(piece_components(pieces.drop_last(), abs) =~= Seq::<Comp>::empty());
            assert(pieces.last() == Seq::<u8>::empty());
        }
        assert(piece_components(pieces, abs) =~= want);
    } else {
        let front = names.drop_last();
        assert forall|i: int| 0 <= i < front.len() implies plain_name(#[trigger] front[i]) by {
            assert(front[i] == names[i]);
        }
        assert(pieces.drop_last() =~= lead + front);
        lemma_plain_pieces(lead, front, abs);
        assert(plain_name(names[names.len() - 1]));
        assert(piece_components(pieces, abs) =~= want);
    }
}

/// A path written from plain names has exactly those names.
pub proof fn rendered_names_are_read_back(abs: bool, names: Seq<Seq<u8>>)
    requires
        forall|i: int| 0 <= i < names.len() ==> plain_name(#[trigger] names[i]),
    ensures
        absolute(rendered(abs, names)) == abs,
        components_of(rendered(abs, names)) == named_components(abs, names),
{
    let body = join(names, SLASH);
    let none = Seq::<Seq<u8>>::empty();
    let hollow = seq![Seq::<u8>::empty()];
    assert forall|i: int| 0 <= i < names.len() implies !(#[trigger] names[i]).contains(SLASH) by {
        assert(plain_name(names[i]));
    }
    if names.len() > 0 {
        lemma_split_join(names, SLASH);
        lemma_join_head(names);
    } else {
        assert(split(body, SLASH) =~= hollow);
    }
    if abs {
        assert(rendered(abs, names) =~= Seq::<u8>::empty().push(SLASH) + body);
        lemma_split_concat(Seq::<u8>::empty(), body, SLASH);
        assert(split(Seq::<u8>::empty(), SLASH) =~= hollow);
        if names.len() > 0 {
            lemma_plain_pieces(hollow, names, true);
        } else {
            let two = hollow + hollow;
            assert(two.drop_last() =~= hollow);
            assert(hollow.drop_last() =~= none);
            assert(piece_components(none, true) =~= Seq::<Comp>::empty());
            assert(piece_components(hollow, true) =~= Seq::<Comp>::empty());
            assert(piece_components(two, true) =~= Seq::<Comp>::empty());
        }
        assert(components_of(rendered(abs, names)) =~= named_components(abs, names));
    } else {
        if names.len() > 0 {
            assert(none + names =~= names);
            lemma_plain_pieces(none, names, false);
            assert(names[0].contains(names[0][0]));
        } else {
            lemma_plain_pieces(hollow, none, false);
            assert(hollow + none =~= hollow);
        }
        assert(components_of(rendered(abs, names)) =~= named_components(abs, names));
    }
}

proof fn lemma_join_head(names: Seq<Seq<u8>>)
    requires
        names.len() > 0,
        names[0].len() > 0,
    ensures
        join(names, SLASH).len() > 0,
        join(names, SLASH)[0] == names[0][0],
    decreases names.len(),
{
    if names.len() > 1 {
        lemma_join_head(names.drop_last());
    }
}

proof fn lemma_resolved_names(abs: bool, names: Seq<Seq<u8>>)
    ensures
        resolved(named_components(abs, names)) == names,
    decreases names.len(),
{
    let cs = named_components(abs, names);
    if names.len() == 0 {
        if abs {
            assert(cs.drop_last() =~= Seq::<Comp>::empty());
            assert(resolved(cs.drop_last()) =~= Seq::<Seq<u8>>::empty());
            assert(cs.last() == Comp::RootDir);
        }
        assert(resolved(cs) =~= names);
    } else {
        assert(cs.drop_last() =~= named_components(abs, names.drop_last()));
        lemma_resolved_names(abs, names.drop_last());
        assert(cs.last() == Comp::Normal(names.last()));
        assert(resolved(cs) =~= names);
    }
}

/// A cleaned path holds no `.` and no `..`: it is the root, if the path was
/// absolute, followed by plain names.
pub proof fn cleaned_path_has_only_names(p: Seq<u8>)
    ensures
        absolute(cleaned(p)) == absolute(p),
        components_of(cleaned(p)) == named_components(absolute(p), resolved(components_of(p))),
        forall|i: int|
            0 <= i < components_of(cleaned(p)).len() ==> match #[trigger] components_of(
                cleaned(p),
            )[i] {
                Comp::RootDir => i == 0,
                Comp::Normal(name) => plain_name(name),
                _ => false,
            },
{
    lemma_components_plain(p);
    lemma_resolved_plain(components_of(p));
    rendered_names_are_read_back(absolute(p), resolved(components_of(p)));
    lemma_components_plain(cleaned(p));
}

/// Cleaning a cleaned path changes nothing.
pub proof fn cleaning_is_idempotent(p: Seq<u8>)
    ensures
        cleaned(cleaned(p)) == cleaned(p),
{
    cleaned_path_has_only_names(p);
    lemma_resolved_names(absolute(p), resolved(components_of(p)));
}

/// Cleaning keeps the components of a path that has neither `.` at its start
/// nor any `..`.
pub proof fn cleaning_keeps_plain_paths(p: Seq<u8>)
    requires
        forall|i: int|
            0 <= i < components_of(p).len() ==> (#[trigger] components_of(p)[i]) != Comp::CurDir
                && components_of(p)[i] != Comp::ParentDir,
    ensures
        components_of(cleaned(p)) == components_of(p),
{
    let cs = components_of(p);
    cleaned_path_has_only_names(p);
    lemma_components_plain(p);
    let skip: int = if absolute(p) { 1 } else { 0 };
    let names = Seq::new((cs.len() - skip) as nat, |i: int| cs[i + skip]->Normal_0);
    assert(cs =~= named_components(absolute(p), names));
    lemma_resolved_names(absolute(p), names);
}

/// Names after components that follow them: each `..` takes back the name before
/// it, if there is one.
spec fn walked(names: Seq<Seq<u8>>, cs: Seq<Comp>) -> Seq<Seq<u8>>
    decreases cs.len(),
{
    if cs.len() == 0 {
        names
    } else {
        let front = walked(names, cs.drop_last());
        match cs.last() {
            Comp::Normal(name) => front.push(name),
            Comp::ParentDir => if front.len() > 0 {
                front.drop_last()
            } else {
                front
            },
            _ => front,
        }
    }
}

proof fn lemma_resolved_concat(a: Seq<Comp>, b: Seq<Comp>)
    ensures
        resolved(a + b) == walked(resolved(a), b),
    decreases b.len(),
{
    if b.len() == 0 {
        assert(a + b =~= a);
    } else {
        assert((a + b).drop_last() =~= a + b.drop_last());
        lemma_resolved_concat(a, b.drop_last());
        assert((a + b).last() == b.last());
    }
}

proof fn lemma_pieces_concat(p: Seq<Seq<u8>>, q: Seq<Seq<u8>>, abs: bool)
    requires
        p.len() > 0,
    ensures
        piece_components(p + q, abs) == piece_components(p, abs) + piece_components(q, true),
    decreases q.len(),
{
    if q.len() == 0 {
        assert(p + q =~= p);
        assert(piece_components(q, true) =~= Seq::<Comp>::empty());
    } else {
        assert((p + q).drop_last() =~= p + q.drop_last());
        lemma_pieces_concat(p, q.drop_last(), abs);
        assert((p + q).last() == q.last());
    }
    assert(piece_components(p + q, abs) =~= piece_components(p, abs) + piece_components(q, true));
}

proof fn lemma_leading_dot(pieces: Seq<Seq<u8>>)
    ensures
        resolved(piece_components(pieces, false)) == resolved(piece_components(pieces, true)),
    decreases pieces.len(),
{
    if pieces.len() > 0 {
        let front = pieces.drop_last();
        lemma_leading_dot(front);
        let (a, b) = (piece_components(front, false), piece_components(front, true));
        let last = pieces.last();
        if let Some(c) = piece_component(last, pieces.len() == 1) {
            assert(a.push(c).drop_last() =~= a);
            assert(b.push(c).drop_last() =~= b);
        }
    }
}

proof fn lemma_joined_names(dir: Seq<u8>, name: Seq<u8>)
    requires
        !absolute(name),
    ensures
        absolute(joined(dir, name)) == absolute(dir),
        resolved(components_of(joined(dir, name))) == walked(
            resolved(components_of(dir)),
            piece_components(split(name, SLASH), true),
        ),
{
    let whole = joined(dir, name);
    let tail = piece_components(split(name, SLASH), true);
    if dir.len() == 0 {
        assert(whole =~= name);
        lemma_leading_dot(split(name, SLASH));
        let none = Seq::<Comp>::empty();
        let hollow = split(dir, SLASH);
        assert(hollow.drop_last() =~= Seq::<Seq<u8>>::empty());
        assert(piece_components(hollow.drop_last(), false) =~= none);
        assert(components_of(dir) =~= none);
        lemma_resolved_concat(none, tail);
        assert(none + tail =~= tail);
    } else {
        let abs = absolute(dir);
        let cut = if dir.last() == SLASH {
            dir.drop_last()
        } else {
            dir
        };
        assert(whole =~= cut.push(SLASH) + name);
        lemma_split_concat(cut, name, SLASH);
        lemma_split_nonempty(cut, SLASH);
        lemma_pieces_concat(split(cut, SLASH), split(name, SLASH), abs);
        if dir.last() == SLASH {
            assert(split(dir, SLASH).drop_last() =~= split(cut, SLASH));
        }
        assert(piece_components(split(dir, SLASH), abs) == piece_components(
            split(cut, SLASH),
            abs,
        ));
        assert(components_of(whole) =~= components_of(dir) + tail);
        lemma_resolved_concat(components_of(dir), tail);
    }
}

/// Cleaning goes through joining: a path below a directory is cleaned to the same
/// path whether or not the directory is cleaned first.
pub proof fn cleaning_goes_through_joining(dir: Seq<u8>, name: Seq<u8>)
    ensures
        cleaned(joined(dir, name)) == cleaned(joined(cleaned(dir), name)),
{
    if !absolute(name) {
        cleaned_path_has_only_names(dir);
        lemma_resolved_names(absolute(dir), resolved(components_of(dir)));
        lemma_joined_names(dir, name);
        lemma_joined_names(cleaned(dir), name);
    }
}

/// A path below a directory has the components of the directory, then what its last
/// name stands for: nothing for an empty name and for `.`, the parent for `..`, and
/// else the name itself, all of it.
pub proof fn names_are_read_one_by_one(dir: Seq<u8>, name: Seq<u8>)
    requires
        dir.len() > 0,
        !name.contains(0x2f),
    ensures
        ({
            let path = if dir.last() == 0x2f {
                dir + name
            } else {
                dir + seq![0x2f] + name
            };
            components_of(path) == (if name.len() == 0 || name == seq![0x2eu8] {
                components_of(dir)
            } else if name == seq![0x2eu8, 0x2e] {
                components_of(dir).push(Comp::ParentDir)
            } else {
                components_of(dir).push(Comp::Normal(name))
            })
        }),
{
    let path = if dir.last() == 0x2f {
        dir + name
    } else {
        dir + seq![0x2fu8] + name
    };
    let cut = if dir.last() == SLASH {
        dir.drop_last()
    } else {
        dir
    };
    let abs = absolute(dir);
    assert(path =~= cut.push(SLASH) + name);
    assert(absolute(path) == abs);
    lemma_split_concat(cut, name, SLASH);
    lemma_split_nonempty(cut, SLASH);
    lemma_split_single(name, SLASH);
    let one = seq![name];
    lemma_pieces_concat(split(cut, SLASH), one, abs);
    assert(one.drop_last() =~= Seq::<Seq<u8>>::empty());
    assert(piece_components(one.drop_last(), true) =~= Seq::<Comp>::empty());
    if dir.last() == SLASH {
        assert(split(dir, SLASH).drop_last() =~= split(cut, SLASH));
    }
    assert(piece_components(split(dir, SLASH), abs) == piece_components(split(cut, SLASH), abs));
    let want = if name.len() == 0 || name == seq![0x2eu8] {
        components_of(dir)
    } else if name == seq![0x2eu8, 0x2e] {
        components_of(dir).push(Comp::ParentDir)
    } else {
        components_of(dir).push(Comp::Normal(name))
    };
    assert(components_of(path) =~= want);
}

/// The components of the shortest paths: none for the empty path, the root for `/`,
/// and for a single name what it stands for.
pub proof fn short_paths_are_read(name: Seq<u8>)
    requires
        !name.contains(0x2f),
    ensures
        components_of(Seq::empty()) == Seq::<Comp>::empty(),
        components_of(seq![0x2f]) == seq![Comp::RootDir],
        components_of(name) == (if name.len() == 0 {
            Seq::<Comp>::empty()
        } else if name == seq![0x2eu8] {
            seq![Comp::CurDir]
        } else if name == seq![0x2eu8, 0x2e] {
            seq![Comp::ParentDir]
        } else {
            seq![Comp::Normal(name)]
        }),
{
    let empty = Seq::<u8>::empty();
    let none = Seq::<Seq<u8>>::empty();
    let hollow = seq![empty];
    assert(split(empty, SLASH) =~= hollow);
    assert(hollow.drop_last() =~= none);
    assert(piece_components(none, false) =~= Seq::<Comp>::empty());
    assert(piece_components(none, true) =~= Seq::<Comp>::empty());
    assert(components_of(empty) =~= Seq::<Comp>::empty());
    let root = seq![0x2fu8];
    assert(root.drop_last() =~= empty);
    let two = hollow.push(empty);
    assert(split(root, SLASH) =~= two);
    assert(two.drop_last() =~= hollow);
    assert(piece_components(hollow, true) =~= Seq::<Comp>::empty());
    assert(piece_components(two, true) =~= Seq::<Comp>::empty());
    assert(components_of(root) =~= seq![Comp::RootDir]);
    lemma_split_single(name, SLASH);
    let one = seq![name];
    assert(one.drop_last() =~= none);
    if name.len() > 0 {
        assert(name.contains(name[0]));
    }
    assert(!absolute(name));
    if name.len() == 0 {
        assert(name =~= empty);
    }
    assert(components_of(name) =~= (if name.len() == 0 {
        Seq::<Comp>::empty()
    } else if name == seq![0x2eu8] {
        seq![Comp::CurDir]
    } else if name == seq![0x2eu8, 0x2e] {
        seq![Comp::ParentDir]
    } else {
        seq![Comp::Normal(name)]
    }));
}

/// Joining puts a name below a directory, with exactly one slash between them, unless
/// the directory is empty. An absolute name stands for itself.
pub proof fn joining_puts_one_slash_between(dir: Seq<u8>, name: Seq<u8>)
    ensures
        name.len() > 0 && name[0] == 0x2f ==> joined(dir, name) == name,
        name.len() == 0 || name[0] != 0x2f ==> joined(dir, name) == (if dir.len() == 0 {
            name
        } else if dir.last() == 0x2f {
            dir + name
        } else {
            dir + seq![0x2f] + name
        }),
{
    if name.len() == 0 || name[0] != 0x2f {
        if dir.len() == 0 {
            assert(dir + name =~= name);
        } else if dir.last() != 0x2f {
            assert(dir.push(SLASH) + name =~= dir + seq![0x2f] + name);
        }
    }
}

proof fn lemma_rendered_below(abs: bool, names: Seq<Seq<u8>>, name: Seq<u8>)
    requires
        forall|i: int| 0 <= i < names.len() ==> plain_name(#[trigger] names[i]),
        plain_name(name),
    ensures
        rendered(abs, names.push(name)) == joined(rendered(abs, names), name),
{
    let c = rendered(abs, names);
    let more = names.push(name);
    assert(name.contains(name[0]));
    assert(!absolute(name));
    assert(more.drop_last() =~= names);
    if names.len() == 0 {
        assert(join(more, SLASH) == name);
        assert(rendered(abs, more) =~= joined(c, name));
    } else {
        let body = join(names, SLASH);
        assert(join(more, SLASH) =~= body.push(SLASH) + name);
        lemma_join_tail(names);
        assert(c.len() > 0 && c.last() == body.last());
        assert(c.last() != SLASH);
        assert(rendered(abs, more) =~= joined(c, name));
    }
}

proof fn lemma_join_tail(names: Seq<Seq<u8>>)
    requires
        names.len() > 0,
        plain_name(names.last()),
    ensures
        join(names, SLASH).len() > 0,
        join(names, SLASH).last() != SLASH,
{
    let last = names.last();
    assert(last.contains(last[last.len() - 1]));
    if names.len() > 1 {
        let whole = join(names, SLASH);
        assert(whole.last() == last.last());
    }
}

/// Cleaning a path below a directory cleans the directory, and then: an empty name
/// and `.` change nothing, any other name is put below it, and `..` takes back the
/// name before it, so that a name followed by `..` leaves nothing behind. Nothing is
/// above the root, or above the start of a relative path.
pub proof fn cleaning_goes_name_by_name(dir: Seq<u8>, name: Seq<u8>)
    requires
        dir.len() > 0,
        name.len() > 0,
        !name.contains(0x2f),
        name != seq![0x2eu8],
        name != seq![0x2eu8, 0x2e],
    ensures
        cleaned(joined(dir, Seq::empty())) == cleaned(dir),
        cleaned(joined(dir, seq![0x2e])) == cleaned(dir),
        cleaned(joined(dir, name)) == joined(cleaned(dir), name),
        cleaned(joined(joined(dir, name), seq![0x2e, 0x2e])) == cleaned(dir),
        cleaned(dir).len() == 0 || cleaned(dir) == seq![0x2fu8] ==> cleaned(
            joined(dir, seq![0x2e, 0x2e]),
        ) == cleaned(dir),
{
    let (dot, up) = (seq![0x2eu8], seq![0x2eu8, 0x2e]);
    let below = joined(dir, name);
    let cs = components_of(dir);
    let names = resolved(cs);
    let abs = absolute(dir);
    assert(!dot.contains(0x2f));
    assert(!up.contains(0x2f));
    assert(name.contains(name[0]));
    joining_puts_one_slash_between(dir, Seq::empty());
    joining_puts_one_slash_between(dir, dot);
    joining_puts_one_slash_between(dir, up);
    joining_puts_one_slash_between(dir, name);
    joining_puts_one_slash_between(below, up);
    names_are_read_one_by_one(dir, Seq::empty());
    names_are_read_one_by_one(dir, dot);
    names_are_read_one_by_one(dir, up);
    names_are_read_one_by_one(dir, name);
    names_are_read_one_by_one(below, up);
    lemma_components_plain(dir);
    lemma_resolved_plain(cs);
    lemma_rendered_below(abs, names, name);
    let with_name = cs.push(Comp::Normal(name));
    assert(with_name.drop_last() =~= cs);
    assert(resolved(with_name) == names.push(name));
    let back = with_name.push(Comp::ParentDir);
    assert(back.drop_last() =~= with_name);
    assert(names.push(name).drop_last() =~= names);
    assert(cs.push(Comp::ParentDir).drop_last() =~= cs);
    if names.len() > 0 && (cleaned(dir).len() == 0 || cleaned(dir) == seq![0x2fu8]) {
        lemma_join_tail(names);
        assert(cleaned(dir).last() == join(names, SLASH).last());
    }
}

/// The shortest paths are cleaned to themselves, but for `.` and `..`, which are
/// cleaned to nothing, as is a single name followed by `..`.
pub proof fn short_paths_are_cleaned(name: Seq<u8>)
    requires
        name.len() > 0,
        !name.contains(0x2f),
        name != seq![0x2eu8],
        name != seq![0x2eu8, 0x2e],
    ensures
        cleaned(Seq::empty()) == Seq::<u8>::empty(),
        cleaned(seq![0x2f]) == seq![0x2fu8],
        cleaned(seq![0x2e]) == Seq::<u8>::empty(),
        cleaned(seq![0x2e, 0x2e]) == Seq::<u8>::empty(),
        cleaned(name) == name,
        cleaned(joined(name, seq![0x2e, 0x2e])) == Seq::<u8>::empty(),
{
    let (dot, up) = (seq![0x2eu8], seq![0x2eu8, 0x2e]);
    assert(!dot.contains(0x2f));
    assert(!up.contains(0x2f));
    joining_puts_one_slash_between(name, up);
    names_are_read_one_by_one(name, up);
    let back = seq![Comp::Normal(name)].push(Comp::ParentDir);
    assert(back.drop_last() =~= seq![Comp::Normal(name)]);
    short_paths_are_read(name);
    short_paths_are_read(dot);
    short_paths_are_read(up);
    let none = Seq::<Comp>::empty();
    let nameless = Seq::<Seq<u8>>::empty();
    assert(resolved(none) =~= nameless);
    assert(seq![Comp::RootDir].drop_last() =~= none);
    assert(seq![Comp::CurDir].drop_last() =~= none);
    assert(seq![Comp::ParentDir].drop_last() =~= none);
    assert(seq![Comp::Normal(name)].drop_last() =~= none);
    assert(resolved(seq![Comp::RootDir]) =~= nameless);
    assert(resolved(seq![Comp::CurDir]) =~= nameless);
    assert(resolved(seq![Comp::ParentDir]) =~= nameless);
    assert(resolved(seq![Comp::Normal(name)]) =~= seq![name]);
    assert(name.contains(name[0]));
    assert(cleaned(seq![0x2fu8]) =~= seq![0x2fu8]);
    assert(cleaned(Seq::empty()) =~= Seq::<u8>::empty());
    assert(cleaned(dot) =~= Seq::<u8>::empty());
    assert(cleaned(up) =~= Seq::<u8>::empty());
    assert(cleaned(name) =~= name);
    assert(name.contains(name[name.len() - 1]));
    assert(components_of(joined(name, up)) == back);
    assert(resolved(back) =~= nameless);
    assert(cleaned(joined(name, up)) =~= Seq::<u8>::empty());
}

/// An existing path is taken for what the file system says it is, where it says so,
/// and every other path for its clean-up.
pub proof fn normal_forms(p: Seq<u8>, c: Seq<u8>, canonical: Option<Seq<u8>>)
    ensures
        normalized(p, true, Some(c)) == c,
        normalized(p, true, None) == cleaned(p),
        normalized(p, false, canonical) == cleaned(p),
{
}

/// A path is absolute exactly if it starts with a slash.
pub proof fn absolute_paths_start_with_a_slash(p: Seq<u8>)
    ensures
        absolute(p) <==> p.len() > 0 && p[0] == 0x2f,
        absolute(p) <==> components_of(p).len() > 0 && components_of(p)[0] == Comp::RootDir,
{
    lemma_components_plain(p);
    if !absolute(p) && components_of(p).len() > 0 {
        assert(components_of(p)[0] != Comp::RootDir);
    }
}

} // verus!
