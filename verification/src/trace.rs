//! The shared libraries that a program loads, as the dynamic loader reports them.

use crate::allow::{probe_views, Probe, ProbeView};
use crate::bytes::{copy, lemma_split_concat, lemma_split_single, split, views};
use crate::order::same_path;
use crate::path::{absolute, SLASH};
use crate::pathset::{
    ascending, ascending_paths_are_distinct, first_spelled, first_spelling, listed, sort_paths,
    sorted_once, sorted_paths_are_unique,
};
use crate::text::{
    blank, chars_of, decode_lossy, first_word, first_words_are_whole, lemma_trim_bounds,
    skip_white_space, solid, trim, trim_range, trimming_takes_off_white_space, utf8_lossy,
    white_space, word_end,
};
use vstd::prelude::*;
use vstd::utf8::{
    decode_utf8, encode_scalar, encode_utf8, has_width_1_encoding, leading_byte_width_1, valid_utf8,
};

verus! {

/// Whether `=>` stands at position `i`.
pub open spec fn arrow_at(s: Seq<char>, i: int) -> bool {
    0 <= i && i + 1 < s.len() && s[i] == '=' && s[i + 1] == '>'
}

/// Whether the first `=>` stands at position `i`.
pub open spec fn first_arrow_at(s: Seq<char>, i: int) -> bool {
    arrow_at(s, i) && forall|k: int| 0 <= k < i ==> !#[trigger] arrow_at(s, k)
}

/// The first word of a text, if it is an absolute path.
pub open spec fn absolute_word(s: Seq<char>) -> Option<Seq<char>> {
    match first_word(s) {
        Some(w) if w[0] == '/' => Some(w),
        _ => None,
    }
}

/// The library that one line of the loader's report names. The line is either
/// `name => path (address)`, where a library that is missing has `not found` for
/// its path, or `path (address)`. Only absolute paths are files.
pub open spec fn line_library(line: Seq<char>) -> Option<Seq<char>> {
    let t = trim(line);
    if exists|i: int| first_arrow_at(t, i) {
        let i = choose|i: int| first_arrow_at(t, i);
        let rhs = trim(t.skip(i + 2));
        if "not found"@.is_prefix_of(rhs) {
            None
        } else {
            absolute_word(rhs)
        }
    } else {
        absolute_word(t)
    }
}

/// The libraries that lines name, in order, as byte strings.
pub open spec fn line_libraries(lines: Seq<Seq<char>>) -> Seq<Seq<u8>>
    decreases lines.len(),
{
    if lines.len() == 0 {
        Seq::empty()
    } else {
        let front = line_libraries(lines.drop_last());
        match line_library(lines.last()) {
            Some(p) => front.push(encode_utf8(p)),
            None => front,
        }
    }
}

/// The libraries that a report names.
pub open spec fn report_libraries(text: Seq<char>) -> Seq<Seq<u8>> {
    line_libraries(split(text, '\n'))
}

/// The first word between two positions, if it is an absolute path.
fn absolute_word_range(chars: &Vec<char>, from: usize, to: usize) -> (r: Option<(usize, usize)>)
    requires
        from <= to <= chars@.len(),
    ensures
        r is Some <==> absolute_word(chars@.subrange(from as int, to as int)) is Some,
        r matches Some((a, b)) ==> from <= a <= b <= to && Some(
            chars@.subrange(a as int, b as int),
        ) == absolute_word(chars@.subrange(from as int, to as int)),
{
    let a = skip_white_space(chars, from, to);
    let b = word_end(chars, a, to);
    if a < b && chars[a] == '/' {
        assert(chars@.subrange(a as int, b as int)[0] == '/');
        Some((a, b))
    } else {
        if a < b {
            assert(chars@.subrange(a as int, b as int)[0] == chars@[a as int]);
        }
        None
    }
}

/// Whether the text between two positions starts with the given one.
fn starts_with(chars: &Vec<char>, from: usize, to: usize, prefix: &str) -> (r: bool)
    requires
        from <= to <= chars@.len(),
    ensures
        r == prefix@.is_prefix_of(chars@.subrange(from as int, to as int)),
{
    let want = chars_of(prefix);
    let ghost all = chars@.subrange(from as int, to as int);
    if want.len() > to - from {
        return false;
    }
    let mut i: usize = 0;
    while i < want.len()
        invariant
            i <= want@.len(),
            want@ == prefix@,
            want@.len() <= to - from,
            from <= to <= chars@.len(),
            all == chars@.subrange(from as int, to as int),
            forall|k: int| 0 <= k < i ==> want@[k] == all[k],
        decreases want@.len() - i,
    {
        assert(all[i as int] == chars@[from + i]);
        if chars[from + i] != want[i] {
            assert(prefix@[i as int] != all.subrange(0, prefix@.len() as int)[i as int]);
            return false;
        }
        i = i + 1;
    }
    assert(prefix@ =~= all.subrange(0, prefix@.len() as int));
    true
}

/// Where the first `=>` between two positions stands.
fn find_arrow(chars: &Vec<char>, from: usize, to: usize) -> (r: Option<usize>)
    requires
        from <= to <= chars@.len(),
    ensures
        r matches Some(i) ==> from <= i && i + 2 <= to && first_arrow_at(
            chars@.subrange(from as int, to as int),
            i - from,
        ),
        r is None ==> forall|i: int|
            !#[trigger] first_arrow_at(chars@.subrange(from as int, to as int), i),
{
    let ghost s = chars@.subrange(from as int, to as int);
    let mut i: usize = from;
    while i < to
        invariant
            from <= i <= to <= chars@.len(),
            s == chars@.subrange(from as int, to as int),
            forall|k: int| 0 <= k < i - from ==> !#[trigger] arrow_at(s, k),
        decreases to - i,
    {
        assert(s[i - from] == chars@[i as int]);
        if to - i >= 2 && chars[i] == '=' && chars[i + 1] == '>' {
            assert(s[i - from + 1] == chars@[i + 1]);
            return Some(i);
        }
        if to - i >= 2 {
            assert(s[i - from + 1] == chars@[i + 1]);
        }
        i = i + 1;
    }
    None
}

proof fn lemma_first_arrow_unique(s: Seq<char>, i: int, j: int)
    requires
        first_arrow_at(s, i),
        first_arrow_at(s, j),
    ensures
        i == j,
{
    assert(arrow_at(s, i));
    assert(arrow_at(s, j));
}

/// The library that one line of the loader's report names.
pub fn trace_line(line: &str) -> (r: Option<Vec<u8>>)
    ensures
        r is Some <==> line_library(line@) is Some,
        r matches Some(p) ==> p@ == encode_utf8(line_library(line@)->0),
{
    let chars = chars_of(line);
    assert(chars@.subrange(0, chars@.len() as int) =~= line@);
    let (start, end) = trim_range(&chars, 0, chars.len());
    let ghost t = trim(line@);
    let found = match find_arrow(&chars, start, end) {
        Some(i) => {
            let (a, b) = trim_range(&chars, i + 2, end);
            proof {
                let at = i - start;
                assert(first_arrow_at(t, at));
                lemma_first_arrow_unique(t, at, choose|j: int| first_arrow_at(t, j));
                assert(t.skip(at + 2) =~= chars@.subrange(i + 2, end as int));
            }
            if starts_with(&chars, a, b, "not found") {
                None
            } else {
                absolute_word_range(&chars, a, b)
            }
        },
        None => absolute_word_range(&chars, start, end),
    };
    match found {
        Some((a, b)) => {
            let w = line.substring_char(a, b);
            Some(w.as_bytes_vec())
        },
        None => None,
    }
}

/// The libraries that the loader's report names, in order.
pub fn traced_libraries(text: &str) -> (r: Vec<Vec<u8>>)
    ensures
        views(r@) == report_libraries(text@),
{
    let chars = chars_of(text);
    let mut r: Vec<Vec<u8>> = Vec::new();
    let mut start: usize = 0;
    let mut i: usize = 0;
    let ghost mut lines: Seq<Seq<char>> = Seq::empty();
    assert(text@.take(0) =~= Seq::<char>::empty());
    assert(text@.subrange(0, 0) =~= Seq::<char>::empty());
    assert(split(text@.take(0), '\n') =~= lines.push(text@.subrange(0, 0)));
    assert(views(r@) =~= line_libraries(lines));
    while i < chars.len()
        invariant
            start <= i <= chars@.len(),
            chars@ == text@,
            split(text@.take(i as int), '\n') == lines.push(text@.subrange(start as int, i as int)),
            views(r@) == line_libraries(lines),
        decreases chars@.len() - i,
    {
        let ghost line = text@.subrange(start as int, i as int);
        assert(text@.take(i + 1).drop_last() =~= text@.take(i as int));
        assert(lines.push(line).drop_last() =~= lines);
        if chars[i] == '\n' {
            let ghost before = views(r@);
            let found = trace_line(text.substring_char(start, i));
            match found {
                Some(p) => {
                    let ghost pv = p@;
                    r.push(p);
                    assert(views(r@) =~= before.push(pv));
                },
                None => {},
            }
            proof {
                assert(lines.push(line).last() == line);
                lines = lines.push(line);
            }
            start = i + 1;
            assert(text@.subrange(start as int, i + 1) =~= Seq::<char>::empty());
        } else {
            assert(text@.subrange(start as int, i + 1) =~= line.push(chars@[i as int]));
        }
        i = i + 1;
    }
    let ghost line = text@.subrange(start as int, i as int);
    assert(text@.take(i as int) =~= text@);
    assert(lines.push(line).drop_last() =~= lines);
    assert(lines.push(line).last() == line);
    let ghost before = views(r@);
    let found = trace_line(text.substring_char(start, i));
    match found {
        Some(p) => {
            let ghost pv = p@;
            r.push(p);
            assert(views(r@) =~= before.push(pv));
        },
        None => {},
    }
    r
}

/// What the loader wrote to its two outputs, as one text.
pub open spec fn report_text(stdout: Seq<u8>, stderr: Seq<u8>) -> Seq<char> {
    utf8_lossy(stdout).push('\n') + utf8_lossy(stderr)
}

/// The trace did not succeed. Holds what the loader wrote.
#[derive(Debug)]
pub struct TraceFailed {
    pub stdout: String,
    pub stderr: String,
}

/// The libraries that a trace run reported, or that the run failed. Outputs that are
/// valid UTF-8 are taken as they are.
pub fn resolve_used_shared_objects(success: bool, stdout: &[u8], stderr: &[u8]) -> (r: Result<
    Vec<Vec<u8>>,
    TraceFailed,
>)
    ensures
        r is Ok <==> success,
        valid_utf8(stdout@) ==> utf8_lossy(stdout@) == decode_utf8(stdout@),
        valid_utf8(stderr@) ==> utf8_lossy(stderr@) == decode_utf8(stderr@),
        r matches Ok(paths) ==> views(paths@) == report_libraries(
            report_text(stdout@, stderr@),
        ),
        r matches Err(e) ==> e.stdout@ == utf8_lossy(stdout@) && e.stderr@ == utf8_lossy(stderr@),
{
    let mut out = decode_lossy(stdout);
    let err = decode_lossy(stderr);
    if !success {
        return Err(TraceFailed { stdout: out, stderr: err });
    }
    out.append("\n");
    out.append(err.as_str());
    proof {
        reveal_strlit("\n");
        assert("\n"@ =~= seq!['\n']);
        assert(out@ =~= report_text(stdout@, stderr@));
    }
    Ok(traced_libraries(out.as_str()))
}

/// The path that a reported library is kept under.
pub open spec fn kept_path(path: Seq<u8>, canonical: Option<Seq<u8>>) -> Seq<u8> {
    match canonical {
        Some(c) => c,
        None => path,
    }
}

/// The reported libraries that exist, under their canonical paths where those can
/// be had.
pub open spec fn existing(paths: Seq<Seq<u8>>, probes: Seq<ProbeView>) -> Seq<Seq<u8>>
    decreases paths.len(),
{
    if paths.len() == 0 {
        Seq::empty()
    } else {
        let front = existing(paths.drop_last(), probes.drop_last());
        if probes.last().exists {
            front.push(kept_path(paths.last(), probes.last().canonical))
        } else {
            front
        }
    }
}

/// The reported libraries that exist, each once, in path order: the one list that
/// they come to.
pub open spec fn shared_objects(paths: Seq<Seq<u8>>, probes: Seq<ProbeView>) -> Seq<Seq<u8>> {
    choose|out: Seq<Seq<u8>>| #[trigger] sorted_once(existing(paths, probes), out)
}

/// Keeps the reported libraries that exist, each once, in path order.
pub fn collect_shared_objects(paths: &Vec<Vec<u8>>, probes: &Vec<Probe>) -> (r: Vec<Vec<u8>>)
    requires
        paths@.len() == probes@.len(),
    ensures
        sorted_once(existing(views(paths@), probe_views(probes@)), views(r@)),
        views(r@) == shared_objects(views(paths@), probe_views(probes@)),
{
    let ghost ps = views(paths@);
    let ghost qs = probe_views(probes@);
    let mut kept: Vec<Vec<u8>> = Vec::new();
    let mut i: usize = 0;
    assert(views(kept@) =~= existing(ps.take(0), qs.take(0)));
    while i < paths.len()
        invariant
            i <= paths@.len(),
            paths@.len() == probes@.len(),
            ps == views(paths@),
            qs == probe_views(probes@),
            views(kept@) == existing(ps.take(i as int), qs.take(i as int)),
        decreases paths@.len() - i,
    {
        let ghost before = views(kept@);
        assert(ps.take(i + 1).drop_last() =~= ps.take(i as int));
        assert(qs.take(i + 1).drop_last() =~= qs.take(i as int));
        assert(qs[i as int] == probes@[i as int]@);
        if probes[i].exists {
            let p = match &probes[i].canonical {
                Some(c) => copy(c),
                None => copy(&paths[i]),
            };
            let ghost pv = p@;
            kept.push(p);
            assert(views(kept@) =~= before.push(pv));
        }
        i = i + 1;
    }
    assert(ps.take(i as int) =~= ps);
    assert(qs.take(i as int) =~= qs);
    let r = sort_paths(kept);
    proof {
        sorted_paths_are_unique(existing(ps, qs), views(r@), shared_objects(ps, qs));
    }
    r
}

proof fn lemma_absolute_text(s: Seq<char>)
    requires
        s.len() > 0,
        s[0] == '/',
    ensures
        absolute(encode_utf8(s)),
{
    let c = '/' as u32;
    assert(c == 0x2f);
    assert(has_width_1_encoding(c));
    assert(0x2fu32 & 0x7F == 0x2f) by (bit_vector);
    assert(encode_scalar(c) =~= seq![leading_byte_width_1(c)]);
    assert(leading_byte_width_1(c) == SLASH);
    assert(encode_utf8(s)[0] == encode_scalar(c)[0]);
}

proof fn lemma_line_libraries_absolute(lines: Seq<Seq<char>>)
    ensures
        forall|i: int|
            0 <= i < line_libraries(lines).len() ==> absolute(#[trigger] line_libraries(lines)[i]),
    decreases lines.len(),
{
    if lines.len() > 0 {
        lemma_line_libraries_absolute(lines.drop_last());
        let front = line_libraries(lines.drop_last());
        if let Some(p) = line_library(lines.last()) {
            lemma_absolute_text(p);
            assert(line_libraries(lines) == front.push(encode_utf8(p)));
        } else {
            assert(line_libraries(lines) == front);
        }
        assert forall|i: int| 0 <= i < line_libraries(lines).len() implies absolute(
            #[trigger] line_libraries(lines)[i],
        ) by {
            if i < front.len() {
                assert(line_libraries(lines)[i] == front[i]);
            }
        }
    }
}

/// Only absolute paths are taken from a report.
pub proof fn reported_libraries_are_absolute(text: Seq<char>)
    ensures
        forall|i: int|
            0 <= i < report_libraries(text).len() ==> absolute(
                #[trigger] report_libraries(text)[i],
            ),
{
    lemma_line_libraries_absolute(split(text, '\n'));
}

/// A file system, as far as libraries are concerned: which paths exist, and the
/// canonical form of those that have one.
pub struct FileSystem {
    pub exists: spec_fn(Seq<u8>) -> bool,
    pub canonical: spec_fn(Seq<u8>) -> Option<Seq<u8>>,
}

impl FileSystem {
    /// A canonical form is absolute, and its own canonical form.
    pub open spec fn valid(self) -> bool {
        forall|p: Seq<u8>|
            #[trigger] (self.canonical)(p) matches Some(c) ==> absolute(c) && (self.canonical)(c)
                == Some(c)
    }

    /// What the file system says of a reported library: its canonical form, and
    /// whether the path that it is kept under exists.
    pub open spec fn probe(self, path: Seq<u8>) -> ProbeView {
        ProbeView {
            exists: (self.exists)(kept_path(path, (self.canonical)(path))),
            canonical: (self.canonical)(path),
        }
    }
}

proof fn lemma_existing(paths: Seq<Seq<u8>>, probes: Seq<ProbeView>, fs: FileSystem)
    requires
        fs.valid(),
        probes.len() == paths.len(),
        forall|k: int| 0 <= k < paths.len() ==> absolute(#[trigger] paths[k]),
        forall|k: int| 0 <= k < paths.len() ==> probes[k] == fs.probe(#[trigger] paths[k]),
    ensures
        forall|i: int|
            0 <= i < existing(paths, probes).len() ==> library_file(
                fs,
                #[trigger] existing(paths, probes)[i],
            ),
        forall|k: int|
            0 <= k < paths.len() && (fs.probe(#[trigger] paths[k])).exists ==> existing(
                paths,
                probes,
            ).contains(kept_path(paths[k], (fs.canonical)(paths[k]))),
    decreases paths.len(),
{
    if paths.len() > 0 {
        let (ps, qs) = (paths.drop_last(), probes.drop_last());
        let n = paths.len() - 1;
        assert forall|k: int| 0 <= k < ps.len() implies absolute(#[trigger] ps[k]) && qs[k]
            == fs.probe(ps[k]) by {
            assert(ps[k] == paths[k]);
        }
        lemma_existing(ps, qs, fs);
        let front = existing(ps, qs);
        let all = existing(paths, probes);
        let last = kept_path(paths[n], (fs.canonical)(paths[n]));
        assert(probes[n] == fs.probe(paths[n]));
        assert(all == if probes[n].exists {
            front.push(last)
        } else {
            front
        });
        assert forall|i: int| 0 <= i < all.len() implies library_file(fs, #[trigger] all[i]) by {
            if i < front.len() {
                assert(all[i] == front[i]);
            }
        }
        assert forall|k: int|
            0 <= k < paths.len() && (fs.probe(#[trigger] paths[k])).exists implies all.contains(
            kept_path(paths[k], (fs.canonical)(paths[k])),
        ) by {
            if k < n {
                assert(ps[k] == paths[k]);
                let x = kept_path(paths[k], (fs.canonical)(paths[k]));
                let j = choose|j: int| 0 <= j < front.len() && front[j] == x;
                assert(all[j] == x);
            } else {
                assert(all[front.len() as int] == last);
            }
        }
    }
}

/// Whether a path is that of an existing file, absolute, and in its canonical form
/// if it has one.
pub open spec fn library_file(fs: FileSystem, p: Seq<u8>) -> bool {
    &&& absolute(p)
    &&& (fs.exists)(p)
    &&& (fs.canonical)(p) matches Some(c) ==> c == p
}

/// What is kept of a report is exactly its libraries that exist: absolute paths of
/// existing files in their canonical form, in ascending order, each once, so that
/// two links to one library count as one. `out` stands for what the report's
/// libraries, collected with what the file system says of each, come to.
pub proof fn shared_objects_are_canonical_files(
    text: Seq<char>,
    fs: FileSystem,
    probes: Seq<ProbeView>,
    out: Seq<Seq<u8>>,
)
    requires
        fs.valid(),
        probes == report_libraries(text).map_values(|p: Seq<u8>| fs.probe(p)),
        sorted_once(existing(report_libraries(text), probes), out),
    ensures
        ascending(out),
        forall|i: int, j: int|
            0 <= i < out.len() && 0 <= j < out.len() && same_path(
                #[trigger] out[i],
                #[trigger] out[j],
            ) ==> i == j,
        forall|i: int| 0 <= i < out.len() ==> library_file(fs, #[trigger] out[i]),
        forall|k: int|
            0 <= k < report_libraries(text).len() && (fs.probe(
                #[trigger] report_libraries(text)[k],
            )).exists ==> listed(
                out,
                kept_path(
                    report_libraries(text)[k],
                    (fs.canonical)(report_libraries(text)[k]),
                ),
            ),
{
    let paths = report_libraries(text);
    reported_libraries_are_absolute(text);
    lemma_existing(paths, probes, fs);
    let kept = existing(paths, probes);
    assert forall|i: int, j: int|
        0 <= i < out.len() && 0 <= j < out.len() && same_path(
            #[trigger] out[i],
            #[trigger] out[j],
        ) implies i == j by {
        ascending_paths_are_distinct(out, i, j);
    }
    assert forall|i: int| 0 <= i < out.len() implies library_file(fs, #[trigger] out[i]) by {
        assert(first_spelled(kept, out[i]));
        let at = choose|at: int| first_spelling(kept, out[i], at);
        assert(library_file(fs, kept[at]));
    }
    assert forall|k: int|
        0 <= k < paths.len() && (fs.probe(#[trigger] paths[k])).exists implies listed(
        out,
        kept_path(paths[k], (fs.canonical)(paths[k])),
    ) by {
        let x = kept_path(paths[k], (fs.canonical)(paths[k]));
        let j = choose|j: int| 0 <= j < kept.len() && kept[j] == x;
        assert(listed(out, kept[j]));
    }
}

/// Whether `=>` stands nowhere in a text.
pub open spec fn arrowless(s: Seq<char>) -> bool {
    forall|i: int| 0 <= i < s.len() - 1 ==> !(#[trigger] s[i] == '=' && s[i + 1] == '>')
}

proof fn lemma_absolute_word(before: Seq<char>, w: Seq<char>, rest: Seq<char>)
    requires
        blank(before),
        w.len() > 0,
        solid(w),
        rest.len() > 0 ==> white_space(rest[0]),
    ensures
        absolute_word(before + w + rest) == (if w[0] == '/' {
            Some(w)
        } else {
            None
        }),
{
    first_words_are_whole(before, w, rest);
}

/// A line with an arrow names the word after the first arrow, all of it, if that is
/// an absolute path, and nothing else: not what stands before the arrow, nor the
/// address that follows. In particular a library that is not found is not named.
pub proof fn arrow_lines_name_what_follows(
    head: Seq<char>,
    gap: Seq<char>,
    w: Seq<char>,
    rest: Seq<char>,
)
    requires
        arrowless(head),
        blank(gap),
        w.len() > 0,
        solid(w),
        rest.len() > 0 ==> white_space(rest[0]),
    ensures
        line_library(head + seq!['=', '>'] + gap + w + rest) == (if w[0] == '/' {
            Some(w)
        } else {
            None
        }),
{
    let arrow = seq!['=', '>'];
    let line = head + arrow + gap + w + rest;
    let h = head.len() as int;
    let g = h + 2 + gap.len();
    let e = g + w.len();
    let (a, b) = lemma_trim_bounds(line);
    let t = trim(line);
    assert(line[h] == '=' && line[h + 1] == '>');
    assert(!white_space('='));
    assert(line[e - 1] == w[w.len() - 1]);
    assert(a <= h) by {
        if a > h {
            assert(white_space(line[h]));
        }
    }
    assert(e <= b) by {
        if b < e {
            assert(white_space(line[e - 1]));
        }
    }
    let at = h - a;
    assert(t[at] == line[h] && t[at + 1] == line[h + 1]);
    assert forall|k: int| 0 <= k < at implies !#[trigger] arrow_at(t, k) by {
        assert(t[k] == line[a + k] && t[k + 1] == line[a + k + 1]);
        assert(line[a + k] == head[a + k]);
        if k + 1 < at {
            assert(line[a + k + 1] == head[a + k + 1]);
        }
    }
    assert(first_arrow_at(t, at));
    lemma_first_arrow_unique(t, at, choose|i: int| first_arrow_at(t, i));
    let tail = t.skip(at + 2);
    let body = line.subrange(g, b);
    let none = Seq::<char>::empty();
    assert(tail =~= gap + body + none);
    assert(body[0] == w[0]);
    assert(body.last() == line[b - 1]);
    trimming_takes_off_white_space(gap, body, none);
    let more = line.subrange(e, b);
    assert(body =~= none + w + more);
    if more.len() > 0 {
        assert(more[0] == rest[0]);
    }
    lemma_absolute_word(none, w, more);
    reveal_strlit("not found");
    if "not found"@.is_prefix_of(body) {
        assert("not found"@[0] == body[0]);
    }
}

/// A line with nothing after its first arrow names nothing.
pub proof fn empty_arrow_lines_name_nothing(head: Seq<char>, gap: Seq<char>)
    requires
        arrowless(head),
        blank(gap),
    ensures
        line_library(head + seq!['=', '>'] + gap) is None,
{
    let line = head + seq!['=', '>'] + gap;
    let h = head.len() as int;
    let (a, b) = lemma_trim_bounds(line);
    let t = trim(line);
    assert(line[h] == '=' && line[h + 1] == '>');
    assert(a <= h) by {
        if a > h {
            assert(white_space(line[h]));
        }
    }
    assert(h + 2 <= b) by {
        if b < h + 2 {
            assert(white_space(line[h + 1]));
        }
    }
    let at = h - a;
    assert(t[at] == line[h] && t[at + 1] == line[h + 1]);
    assert forall|k: int| 0 <= k < at implies !#[trigger] arrow_at(t, k) by {
        assert(t[k] == line[a + k] && t[k + 1] == line[a + k + 1]);
        assert(line[a + k] == head[a + k]);
        if k + 1 < at {
            assert(line[a + k + 1] == head[a + k + 1]);
        }
    }
    assert(first_arrow_at(t, at));
    lemma_first_arrow_unique(t, at, choose|i: int| first_arrow_at(t, i));
    let tail = t.skip(at + 2);
    let none = Seq::<char>::empty();
    assert forall|i: int| 0 <= i < tail.len() implies white_space(#[trigger] tail[i]) by {
        assert(tail[i] == gap[i]);
    }
    assert(tail =~= tail + none + none);
    trimming_takes_off_white_space(tail, none, none);
    assert(first_word(none) is None);
}

/// A line without an arrow names its first word, all of it, if that is an absolute
/// path.
pub proof fn plain_lines_name_their_first_word(
    before: Seq<char>,
    w: Seq<char>,
    rest: Seq<char>,
)
    requires
        blank(before),
        w.len() > 0,
        solid(w),
        rest.len() > 0 ==> white_space(rest[0]),
        arrowless(before + w + rest),
    ensures
        line_library(before + w + rest) == (if w[0] == '/' {
            Some(w)
        } else {
            None
        }),
{
    let line = before + w + rest;
    let (a, b) = lemma_trim_bounds(line);
    let t = trim(line);
    let s = before.len() as int;
    let e = s + w.len();
    assert(line[s] == w[0]);
    assert(line[e - 1] == w[w.len() - 1]);
    assert(a <= s) by {
        if a > s {
            assert(white_space(line[s]));
        }
    }
    assert(e <= b) by {
        if b < e {
            assert(white_space(line[e - 1]));
        }
    }
    assert forall|k: int| !#[trigger] arrow_at(t, k) by {
        if arrow_at(t, k) {
            assert(t[k] == line[a + k] && t[k + 1] == line[a + k + 1]);
        }
    }
    let front = line.subrange(a, s);
    let more = line.subrange(e, b);
    assert(t =~= front + w + more);
    assert forall|i: int| 0 <= i < front.len() implies white_space(#[trigger] front[i]) by {
        assert(front[i] == before[a + i]);
    }
    if more.len() > 0 {
        assert(more[0] == rest[0]);
    }
    lemma_absolute_word(front, w, more);
}

/// An empty line names nothing.
pub proof fn blank_lines_name_nothing(line: Seq<char>)
    requires
        blank(line),
    ensures
        line_library(line) is None,
{
    let none = Seq::<char>::empty();
    assert(line =~= line + none + none);
    trimming_takes_off_white_space(line, none, none);
    assert(first_word(none) is None);
    assert forall|k: int| !#[trigger] arrow_at(none, k) by {}
}

proof fn lemma_lines_concat(a: Seq<Seq<char>>, b: Seq<Seq<char>>)
    ensures
        line_libraries(a + b) == line_libraries(a) + line_libraries(b),
    decreases b.len(),
{
    if b.len() == 0 {
        assert(a + b =~= a);
        assert(line_libraries(b) =~= Seq::<Seq<u8>>::empty());
    } else {
        assert((a + b).drop_last() =~= a + b.drop_last());
        assert((a + b).last() == b.last());
        lemma_lines_concat(a, b.drop_last());
    }
    assert(line_libraries(a + b) =~= line_libraries(a) + line_libraries(b));
}

/// A report is read line by line, and no line is lost: what two parts name, with a
/// newline between them, is what each names, one after the other, and a single line
/// names what it names.
pub proof fn reports_are_read_line_by_line(a: Seq<char>, b: Seq<char>)
    ensures
        report_libraries(a.push('\n') + b) == report_libraries(a) + report_libraries(b),
        !a.contains('\n') ==> report_libraries(a) == (match line_library(a) {
            Some(p) => seq![encode_utf8(p)],
            None => Seq::empty(),
        }),
{
    lemma_split_concat(a, b, '\n');
    lemma_lines_concat(split(a, '\n'), split(b, '\n'));
    if !a.contains('\n') {
        lemma_split_single(a, '\n');
        let one = seq![a];
        assert(one.drop_last() =~= Seq::<Seq<char>>::empty());
        assert(line_libraries(one.drop_last()) =~= Seq::<Seq<u8>>::empty());
        assert(one.last() == a);
        assert(report_libraries(a) =~= (match line_library(a) {
            Some(p) => seq![encode_utf8(p)],
            None => Seq::empty(),
        }));
    }
}

/// Both outputs of a trace are read, the first before the second.
pub proof fn both_outputs_are_read(stdout: Seq<u8>, stderr: Seq<u8>)
    ensures
        report_libraries(report_text(stdout, stderr)) == report_libraries(utf8_lossy(stdout))
            + report_libraries(utf8_lossy(stderr)),
{
    reports_are_read_line_by_line(utf8_lossy(stdout), utf8_lossy(stderr));
}

/// Whether a path is that of reported library `k`, which exists: its canonical path,
/// or its own where it has none.
pub open spec fn comes_from(
    paths: Seq<Seq<u8>>,
    probes: Seq<ProbeView>,
    p: Seq<u8>,
    k: int,
) -> bool {
    &&& 0 <= k < paths.len()
    &&& probes[k].exists
    &&& probes[k].canonical == Some(p) || (probes[k].canonical is None && paths[k] == p)
}

/// Whether a path is that of some reported library that exists.
pub open spec fn reported(paths: Seq<Seq<u8>>, probes: Seq<ProbeView>, p: Seq<u8>) -> bool {
    exists|k: int| #[trigger] comes_from(paths, probes, p, k)
}

/// A reported library that exists is kept under its canonical path, or under its own
/// where it has none, and one that does not exist is not kept. What is kept comes
/// from the report.
pub proof fn existing_libraries_are_kept(
    paths: Seq<Seq<u8>>,
    probes: Seq<ProbeView>,
    out: Seq<Seq<u8>>,
)
    requires
        paths.len() == probes.len(),
        sorted_once(existing(paths, probes), out),
    ensures
        forall|k: int|
            0 <= k < paths.len() && (#[trigger] probes[k]).exists && probes[k].canonical is Some
                ==> listed(out, probes[k].canonical->0),
        forall|k: int|
            0 <= k < paths.len() && probes[k].exists && probes[k].canonical is None ==> listed(
                out,
                #[trigger] paths[k],
            ),
        forall|i: int|
            0 <= i < out.len() ==> reported(paths, probes, #[trigger] out[i]),
{
    let kept = existing(paths, probes);
    lemma_existing_indices(paths, probes);
    assert forall|k: int|
        0 <= k < paths.len() && (#[trigger] probes[k]).exists && probes[k].canonical
            is Some implies listed(out, probes[k].canonical->0) by {
        let x = probes[k].canonical->0;
        let j = choose|j: int| 0 <= j < kept.len() && kept[j] == x;
        assert(listed(out, kept[j]));
    }
    assert forall|k: int|
        0 <= k < paths.len() && probes[k].exists && probes[k].canonical is None implies listed(
        out,
        #[trigger] paths[k],
    ) by {
        assert(kept.contains(kept_path(paths[k], probes[k].canonical)));
        let j = choose|j: int| 0 <= j < kept.len() && kept[j] == paths[k];
        assert(listed(out, kept[j]));
    }
    assert forall|i: int| 0 <= i < out.len() implies reported(paths, probes, #[trigger] out[i]) by {
        assert(first_spelled(kept, out[i]));
        let at = choose|at: int| first_spelling(kept, out[i], at);
        assert(reported(paths, probes, kept[at]));
        let k = choose|k: int| comes_from(paths, probes, kept[at], k);
        assert(comes_from(paths, probes, out[i], k));
    }
}

proof fn lemma_existing_indices(paths: Seq<Seq<u8>>, probes: Seq<ProbeView>)
    requires
        paths.len() == probes.len(),
    ensures
        forall|k: int|
            0 <= k < paths.len() && (#[trigger] probes[k]).exists ==> existing(
                paths,
                probes,
            ).contains(kept_path(paths[k], probes[k].canonical)),
        forall|i: int|
            0 <= i < existing(paths, probes).len() ==> reported(
                paths,
                probes,
                #[trigger] existing(paths, probes)[i],
            ),
    decreases paths.len(),
{
    if paths.len() > 0 {
        let (ps, qs) = (paths.drop_last(), probes.drop_last());
        let n = paths.len() - 1;
        lemma_existing_indices(ps, qs);
        let front = existing(ps, qs);
        let all = existing(paths, probes);
        let last = kept_path(paths[n], probes[n].canonical);
        assert(all == if probes[n].exists {
            front.push(last)
        } else {
            front
        });
        assert forall|k: int|
            0 <= k < paths.len() && (#[trigger] probes[k]).exists implies all.contains(
            kept_path(paths[k], probes[k].canonical),
        ) by {
            if k < n {
                assert(qs[k] == probes[k] && ps[k] == paths[k]);
                let x = kept_path(paths[k], probes[k].canonical);
                assert(front.contains(x));
                let j = choose|j: int| 0 <= j < front.len() && front[j] == x;
                assert(all[j] == x);
            } else {
                assert(all[front.len() as int] == last);
            }
        }
        assert forall|i: int| 0 <= i < all.len() implies reported(paths, probes, #[trigger] all[i]) by {
            if i < front.len() {
                assert(all[i] == front[i]);
                assert(reported(ps, qs, front[i]));
                let k = choose|k: int| comes_from(ps, qs, front[i], k);
                assert(comes_from(paths, probes, all[i], k));
            } else {
                assert(comes_from(paths, probes, all[i], n));
            }
        }
    }
}

} // verus!
