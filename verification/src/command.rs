//! Finding the command, the interpreter of a script, and the argument vector.

use crate::bytes::{
    copy, lemma_split_concat, lemma_split_single, split, split_bytes, views,
};
use crate::path::{absolute, is_absolute, join_path, joined, opt_view, SLASH};
use vstd::prelude::*;
use vstd::slice::slice_subrange;

verus! {

/// How much of a file is read in search of an interpreter line.
pub const SHEBANG_LIMIT: usize = 4096;

/// The separator between the directories of a search path.
pub const COLON: u8 = 0x3a;

/// The mode bits that let someone execute a file.
pub const ANY_EXECUTE: u32 = 0o111;

/// Whether a byte is ASCII white space.
pub open spec fn ascii_space(b: u8) -> bool {
    b == 0x20 || b == 0x09 || b == 0x0a || b == 0x0c || b == 0x0d
}

/// Bytes up to the first newline.
pub open spec fn first_line(s: Seq<u8>) -> Seq<u8>
    decreases s.len(),
{
    if s.len() == 0 || s[0] == 0x0a {
        Seq::empty()
    } else {
        seq![s[0]] + first_line(s.drop_first())
    }
}

/// Bytes without ASCII white space at the start.
pub open spec fn ascii_trim_start(s: Seq<u8>) -> Seq<u8>
    decreases s.len(),
{
    if s.len() > 0 && ascii_space(s[0]) {
        ascii_trim_start(s.drop_first())
    } else {
        s
    }
}

/// Bytes up to the first ASCII white space.
pub open spec fn ascii_word(s: Seq<u8>) -> Seq<u8>
    decreases s.len(),
{
    if s.len() == 0 || ascii_space(s[0]) {
        Seq::empty()
    } else {
        seq![s[0]] + ascii_word(s.drop_first())
    }
}

/// The interpreter that the start of a file asks for: the first word after `#!`
/// on the first line, if it is an absolute path.
pub open spec fn interpreter_in(head: Seq<u8>) -> Option<Seq<u8>> {
    if head.len() >= 2 && head[0] == 0x23 && head[1] == 0x21 {
        let w = ascii_word(ascii_trim_start(first_line(head.skip(2))));
        if absolute(w) {
            Some(w)
        } else {
            None
        }
    } else {
        None
    }
}

/// The interpreter that a file asks for, of which no more than the start is looked
/// at.
pub open spec fn shebang(contents: Seq<u8>) -> Option<Seq<u8>> {
    if contents.len() <= SHEBANG_LIMIT {
        interpreter_in(contents)
    } else {
        interpreter_in(contents.take(SHEBANG_LIMIT as int))
    }
}

/// Whether a byte is ASCII white space.
fn is_ascii_space(b: u8) -> (r: bool)
    ensures
        r == ascii_space(b),
{
    b == 0x20 || b == 0x09 || b == 0x0a || b == 0x0c || b == 0x0d
}

/// Reads the interpreter of a script from the contents of its file, as far as they
/// were read. A file that is no script, or whose interpreter is not given by an
/// absolute path, has none.
pub fn shebang_interpreter(contents: &[u8]) -> (r: Option<Vec<u8>>)
    ensures
        opt_view(r) == shebang(contents@),
{
    if contents.len() <= SHEBANG_LIMIT {
        read_interpreter(contents)
    } else {
        let head = slice_subrange(contents, 0, SHEBANG_LIMIT);
        assert(head@ =~= contents@.take(SHEBANG_LIMIT as int));
        read_interpreter(head)
    }
}

/// Reads the interpreter of a script from the start of its file.
fn read_interpreter(head: &[u8]) -> (r: Option<Vec<u8>>)
    ensures
        opt_view(r) == interpreter_in(head@),
{
    let n: usize = head.len();
    if n < 2 || head[0] != 0x23 || head[1] != 0x21 {
        return None;
    }
    let ghost body = head@.skip(2);
    let mut end: usize = 2;
    assert(first_line(body) =~= head@.subrange(2, end as int) + first_line(
        head@.subrange(end as int, n as int),
    )) by {
        assert(head@.subrange(end as int, n as int) =~= body);
    }
    while end < n && head[end] != 0x0a
        invariant
            2 <= end <= n == head@.len(),
            first_line(body) == head@.subrange(2, end as int) + first_line(
                head@.subrange(end as int, n as int),
            ),
        decreases n - end,
    {
        let ghost rest = head@.subrange(end as int, n as int);
        assert(rest.drop_first() =~= head@.subrange(end + 1, n as int));
        assert(head@.subrange(2, end + 1) + first_line(rest.drop_first()) =~= head@.subrange(
            2,
            end as int,
        ) + first_line(rest));
        end = end + 1;
    }
    let ghost line = head@.subrange(2, end as int);
    assert(first_line(body) =~= line);
    let mut start: usize = 2;
    while start < end && is_ascii_space(head[start])
        invariant
            2 <= start <= end <= head@.len(),
            ascii_trim_start(head@.subrange(start as int, end as int)) == ascii_trim_start(line),
        decreases end - start,
    {
        assert(head@.subrange(start as int, end as int).drop_first() =~= head@.subrange(
            start + 1,
            end as int,
        ));
        start = start + 1;
    }
    let ghost tail = head@.subrange(start as int, end as int);
    assert(ascii_trim_start(line) == tail);
    let mut w: Vec<u8> = Vec::new();
    let mut i: usize = start;
    assert(w@ + ascii_word(tail) =~= ascii_word(tail));
    while i < end && !is_ascii_space(head[i])
        invariant
            start <= i <= end <= head@.len(),
            w@ + ascii_word(head@.subrange(i as int, end as int)) == ascii_word(tail),
        decreases end - i,
    {
        let ghost rest = head@.subrange(i as int, end as int);
        assert(rest.drop_first() =~= head@.subrange(i + 1, end as int));
        assert(w@.push(head@[i as int]) + ascii_word(rest.drop_first()) =~= w@ + ascii_word(rest));
        w.push(head[i]);
        i = i + 1;
    }
    assert(ascii_word(head@.subrange(i as int, end as int)) =~= Seq::<u8>::empty());
    assert(w@ =~= ascii_word(tail));
    if is_absolute(&w) {
        Some(w)
    } else {
        None
    }
}

/// A command that was found, as a mathematical value.
pub struct CommandView {
    pub path: Seq<u8>,
    pub argv: Seq<Seq<u8>>,
}

/// A command that was found: its path, and its arguments, the first of which is
/// the path.
#[derive(Debug)]
pub struct Command {
    pub path: Vec<u8>,
    pub argv: Vec<Vec<u8>>,
}

impl View for Command {
    type V = CommandView;

    open spec fn view(&self) -> CommandView {
        CommandView { path: self.path@, argv: views(self.argv@) }
    }
}

/// Copies a list of byte strings.
pub fn copy_all(v: &Vec<Vec<u8>>) -> (r: Vec<Vec<u8>>)
    ensures
        views(r@) == views(v@),
{
    let mut r: Vec<Vec<u8>> = Vec::new();
    let mut i: usize = 0;
    while i < v.len()
        invariant
            i <= v@.len(),
            views(r@) == views(v@).take(i as int),
        decreases v@.len() - i,
    {
        let ghost before = views(r@);
        r.push(copy(&v[i]));
        assert(views(r@) =~= before.push(v@[i as int]@));
        assert(views(v@).take(i + 1) =~= views(v@).take(i as int).push(views(v@)[i as int]));
        i = i + 1;
    }
    assert(views(v@).take(i as int) =~= views(v@));
    r
}

/// What is run to trace the libraries of a command. The kernel runs a script
/// through its interpreter, so there the interpreter is traced, with the script
/// as its first argument.
pub open spec fn trace_command(cmd: CommandView, interpreter: Option<Seq<u8>>) -> CommandView {
    match interpreter {
        Some(i) => CommandView { path: i, argv: seq![i, cmd.path] + cmd.argv.skip(1) },
        None => cmd,
    }
}

/// Says what is run to trace the libraries of a command.
pub fn build_trace_command(cmd: &Command, interpreter: &Option<Vec<u8>>) -> (r: Command)
    requires
        cmd.argv@.len() > 0,
    ensures
        r@ == trace_command(cmd@, opt_view(*interpreter)),
        r.argv@.len() > 0,
{
    match interpreter {
        Some(i) => {
            let mut argv: Vec<Vec<u8>> = Vec::new();
            argv.push(copy(i));
            argv.push(copy(&cmd.path));
            let ghost head = seq![i@, cmd.path@];
            let ghost rest = views(cmd.argv@).skip(1);
            assert(views(argv@) =~= head + rest.take(0));
            let mut k: usize = 1;
            while k < cmd.argv.len()
                invariant
                    1 <= k <= cmd.argv@.len(),
                    rest == views(cmd.argv@).skip(1),
                    views(argv@) == head + rest.take(k - 1),
                    argv@.len() > 0,
                decreases cmd.argv@.len() - k,
            {
                let ghost before = views(argv@);
                argv.push(copy(&cmd.argv[k]));
                assert(views(argv@) =~= before.push(cmd.argv@[k as int]@));
                assert(rest.take(k as int) =~= rest.take(k - 1).push(rest[k - 1]));
                assert(views(argv@) =~= head + rest.take(k as int));
                k = k + 1;
            }
            assert(rest.take(k - 1) =~= rest);
            Command { path: copy(i), argv }
        },
        None => {
            let argv = copy_all(&cmd.argv);
            assert(views(argv@).len() == views(cmd.argv@).len());
            Command { path: copy(&cmd.path), argv }
        },
    }
}

/// Why a command was not found.
#[derive(Debug, Clone, Copy, PartialEq, Eq, Structural)]
pub enum CommandError {
    /// There is no command.
    Missing,
    /// There is no search path.
    PathNotSet,
    /// No directory of the search path has it.
    NotFound,
}

/// How a command is to be found.
#[derive(Debug, Clone, Copy, PartialEq, Eq, Structural)]
pub enum CommandQuery {
    /// It is a path.
    Direct,
    /// It is a name to look for along the search path.
    Search,
}

/// Whether a name holds a slash.
pub fn has_slash(name: &[u8]) -> (r: bool)
    ensures
        r == name@.contains(SLASH),
{
    let mut i: usize = 0;
    while i < name.len()
        invariant
            i <= name@.len(),
            forall|k: int| 0 <= k < i ==> name@[k] != SLASH,
        decreases name@.len() - i,
    {
        if name[i] == SLASH {
            assert(name@[i as int] == SLASH);
            return true;
        }
        i = i + 1;
    }
    false
}

/// Decides how a command is to be found: one with a slash is a path, any other
/// is looked for.
pub fn command_query(cmd: &Vec<Vec<u8>>) -> (r: Result<CommandQuery, CommandError>)
    ensures
        r == (if cmd@.len() == 0 {
            Err::<CommandQuery, CommandError>(CommandError::Missing)
        } else if cmd@[0]@.contains(SLASH) {
            Ok(CommandQuery::Direct)
        } else {
            Ok(CommandQuery::Search)
        }),
{
    if cmd.len() == 0 {
        Err(CommandError::Missing)
    } else if has_slash(&cmd[0]) {
        Ok(CommandQuery::Direct)
    } else {
        Ok(CommandQuery::Search)
    }
}

/// The places where a command may be: one for each directory of the search path.
pub open spec fn candidates(path_var: Seq<u8>, cmd: Seq<u8>) -> Seq<Seq<u8>> {
    split(path_var, COLON).map_values(|dir: Seq<u8>| joined(dir, cmd))
}

/// Lists the places where a command may be.
pub fn path_candidates(path_var: &[u8], cmd: &[u8]) -> (r: Vec<Vec<u8>>)
    ensures
        views(r@) == candidates(path_var@, cmd@),
{
    let dirs = split_bytes(path_var, COLON);
    let ghost want = candidates(path_var@, cmd@);
    let mut r: Vec<Vec<u8>> = Vec::new();
    let mut i: usize = 0;
    while i < dirs.len()
        invariant
            i <= dirs@.len(),
            views(dirs@) == split(path_var@, COLON),
            want == candidates(path_var@, cmd@),
            views(r@) == want.take(i as int),
        decreases dirs@.len() - i,
    {
        let ghost before = views(r@);
        let p = join_path(&dirs[i], cmd);
        assert(p@ == want[i as int]) by {
            assert(views(dirs@)[i as int] == dirs@[i as int]@);
        }
        let ghost pv = p@;
        r.push(p);
        assert(views(r@) =~= before.push(pv));
        assert(want.take(i + 1) =~= want.take(i as int).push(want[i as int]));
        i = i + 1;
    }
    assert(views(dirs@).len() == want.len());
    assert(want.take(i as int) =~= want);
    r
}

/// What the file system says of a candidate.
#[derive(Debug, Clone, Copy, PartialEq, Eq, Structural)]
pub struct FileStat {
    pub is_file: bool,
    pub mode: u32,
}

/// Whether a candidate is a file that someone may execute.
pub open spec fn runnable(stat: Option<FileStat>) -> bool {
    stat matches Some(s) && s.is_file && s.mode & ANY_EXECUTE != 0
}

/// Whether candidate `i` is the first that can be run.
pub open spec fn first_runnable(stats: Seq<Option<FileStat>>, i: int) -> bool {
    &&& 0 <= i < stats.len()
    &&& runnable(stats[i])
    &&& forall|k: int| 0 <= k < i ==> !runnable(#[trigger] stats[k])
}

/// Picks the command from the places where it may be, given what the file system
/// says of each: the first that can be run.
pub fn which_in_path(
    path_var: &Option<Vec<u8>>,
    cmd: &[u8],
    stats: &Vec<Option<FileStat>>,
) -> (r: Result<Vec<u8>, CommandError>)
    requires
        path_var matches Some(v) ==> stats@.len() == candidates(v@, cmd@).len(),
    ensures
        match r {
            Ok(p) => exists|i: int|
                #![trigger stats@[i]]
                path_var is Some && first_runnable(stats@, i) && p@ == candidates(
                    path_var->0@,
                    cmd@,
                )[i],
            Err(e) => if path_var is None {
                e == CommandError::PathNotSet
            } else {
                e == CommandError::NotFound && forall|i: int|
                    0 <= i < stats@.len() ==> !runnable(#[trigger] stats@[i])
            },
        },
{
    match path_var {
        None => Err(CommandError::PathNotSet),
        Some(v) => {
            let places = path_candidates(v, cmd);
            assert(places@.len() == views(places@).len());
            let mut i: usize = 0;
            while i < places.len()
                invariant
                    i <= places@.len(),
                    path_var == Some(*v),
                    views(places@) == candidates(v@, cmd@),
                    stats@.len() == places@.len(),
                    forall|k: int| 0 <= k < i ==> !runnable(#[trigger] stats@[k]),
                decreases places@.len() - i,
            {
                if let Some(s) = &stats[i] {
                    if s.is_file && s.mode & ANY_EXECUTE != 0 {
                        assert(first_runnable(stats@, i as int));
                        assert(views(places@)[i as int] == places@[i as int]@);
                        return Ok(copy(&places[i]));
                    }
                }
                i = i + 1;
            }
            Err(CommandError::NotFound)
        },
    }
}

/// The command that was found at `found`: under its canonical path where that can
/// be had, with that path as its first argument.
pub open spec fn resolved_command(
    cmd: Seq<Seq<u8>>,
    found: Seq<u8>,
    canonical: Option<Seq<u8>>,
) -> CommandView {
    let path = match canonical {
        Some(c) => c,
        None => found,
    };
    CommandView { path, argv: cmd.update(0, path) }
}

/// Completes a command that was found at `found`.
pub fn resolve_command(
    cmd: &Vec<Vec<u8>>,
    found: &[u8],
    canonical: &Option<Vec<u8>>,
) -> (r: Command)
    requires
        cmd@.len() > 0,
    ensures
        r@ == resolved_command(views(cmd@), found@, opt_view(*canonical)),
        r.argv@.len() > 0,
{
    let path = match canonical {
        Some(c) => copy(c),
        None => copy(found),
    };
    let mut argv = copy_all(cmd);
    assert(views(argv@).len() == views(cmd@).len());
    let ghost before = views(argv@);
    argv.set(0, copy(&path));
    assert(views(argv@) =~= before.update(0, path@));
    Command { path, argv }
}

/// Whether a command is what was asked for: the same arguments, but for the first,
/// which is the path that the command was found at.
pub open spec fn runs(cmd: Seq<Seq<u8>>, command: CommandView) -> bool {
    &&& cmd.len() > 0
    &&& command.argv == cmd.update(0, command.path)
}

/// Whether a command of this name can be found at a path: there itself if it is a
/// path, else in some directory under its name.
pub open spec fn place_of(name: Seq<u8>, path: Seq<u8>) -> bool {
    if name.contains(SLASH) {
        path == name
    } else {
        exists|dir: Seq<u8>| #[trigger] joined(dir, name) == path
    }
}

/// Whether a command is found at a path: itself if it is a path, else the first
/// place along the search path that can be run.
pub open spec fn found_at(
    cmd: Seq<Seq<u8>>,
    path_var: Option<Seq<u8>>,
    stats: Seq<Option<FileStat>>,
    path: Seq<u8>,
) -> bool {
    &&& cmd.len() > 0
    &&& if cmd[0].contains(SLASH) {
        path == cmd[0]
    } else {
        exists|i: int|
            #![trigger stats[i]]
            path_var is Some && first_runnable(stats, i) && path == candidates(
                path_var->0,
                cmd[0],
            )[i]
    }
}

/// Finds a command, given the search path and what the file system says of the
/// places along it where the command may be.
pub fn find_command(
    cmd: &Vec<Vec<u8>>,
    path_var: &Option<Vec<u8>>,
    stats: &Vec<Option<FileStat>>,
) -> (r: Result<Vec<u8>, CommandError>)
    requires
        cmd@.len() > 0 && !cmd@[0]@.contains(SLASH) && path_var is Some ==> stats@.len()
            == candidates(path_var->0@, cmd@[0]@).len(),
    ensures
        match r {
            Ok(p) => found_at(views(cmd@), opt_view(*path_var), stats@, p@) && place_of(
                cmd@[0]@,
                p@,
            ),
            Err(CommandError::Missing) => cmd@.len() == 0,
            Err(CommandError::PathNotSet) => cmd@.len() > 0 && !cmd@[0]@.contains(SLASH)
                && path_var is None,
            Err(CommandError::NotFound) => {
                &&& cmd@.len() > 0
                &&& !cmd@[0]@.contains(SLASH)
                &&& path_var is Some
                &&& forall|i: int| 0 <= i < stats@.len() ==> !runnable(#[trigger] stats@[i])
            },
        },
{
    match command_query(cmd) {
        Err(e) => Err(e),
        Ok(CommandQuery::Direct) => {
            assert(views(cmd@)[0] == cmd@[0]@);
            Ok(copy(&cmd[0]))
        },
        Ok(CommandQuery::Search) => {
            let name = &cmd[0];
            assert(views(cmd@)[0] == name@);
            let r = which_in_path(path_var, name, stats);
            proof {
                if let Ok(p) = &r {
                    let places = candidates(path_var->0@, name@);
                    let i = choose|i: int|
                        #![trigger stats@[i]]
                        path_var is Some && first_runnable(stats@, i) && p@ == places[i];
                    let dirs = split(path_var->0@, COLON);
                    assert(places[i] == joined(dirs[i], name@));
                }
            }
            r
        },
    }
}

/// Whether bytes can be handed over as a C string.
pub open spec fn no_nul(s: Seq<u8>) -> bool {
    !s.contains(0)
}

/// Bytes as a C string: followed by a NUL byte. Bytes that hold a NUL byte cannot
/// be one.
pub fn c_string(s: &[u8]) -> (r: Option<Vec<u8>>)
    ensures
        r is Some <==> no_nul(s@),
        r matches Some(c) ==> c@ == s@.push(0),
{
    let mut i: usize = 0;
    while i < s.len()
        invariant
            i <= s@.len(),
            forall|k: int| 0 <= k < i ==> s@[k] != 0,
        decreases s@.len() - i,
    {
        if s[i] == 0 {
            assert(s@[i as int] == 0);
            return None;
        }
        i = i + 1;
    }
    let mut c = copy(s);
    c.push(0);
    Some(c)
}

/// Why a command cannot be executed.
#[derive(Debug, Clone, Copy, PartialEq, Eq, Structural)]
pub enum ExecError {
    /// The path holds a NUL byte.
    CommandNul,
    /// The argument at this position holds a NUL byte.
    ArgumentNul(usize),
}

/// What is handed to the kernel to execute a command, as C strings.
#[derive(Debug)]
pub struct ExecVector {
    pub path: Vec<u8>,
    pub argv: Vec<Vec<u8>>,
}

/// Prepares the path and the arguments of a command for the kernel.
pub fn execv(cmd: &Command) -> (r: Result<ExecVector, ExecError>)
    ensures
        match r {
            Ok(v) => {
                &&& no_nul(cmd@.path)
                &&& forall|i: int| 0 <= i < cmd@.argv.len() ==> no_nul(#[trigger] cmd@.argv[i])
                &&& v.path@ == cmd@.path.push(0)
                &&& views(v.argv@) == cmd@.argv.map_values(|a: Seq<u8>| a.push(0))
            },
            Err(ExecError::CommandNul) => !no_nul(cmd@.path),
            Err(ExecError::ArgumentNul(i)) => {
                &&& no_nul(cmd@.path)
                &&& i < cmd@.argv.len()
                &&& !no_nul(cmd@.argv[i as int])
                &&& forall|k: int| 0 <= k < i ==> no_nul(#[trigger] cmd@.argv[k])
            },
        },
{
    let path = match c_string(&cmd.path) {
        Some(p) => p,
        None => {
            return Err(ExecError::CommandNul);
        },
    };
    let ghost want = cmd@.argv.map_values(|a: Seq<u8>| a.push(0));
    let mut argv: Vec<Vec<u8>> = Vec::new();
    let mut i: usize = 0;
    while i < cmd.argv.len()
        invariant
            i <= cmd.argv@.len(),
            no_nul(cmd@.path),
            cmd@.argv == views(cmd.argv@),
            want == cmd@.argv.map_values(|a: Seq<u8>| a.push(0)),
            forall|k: int| 0 <= k < i ==> no_nul(#[trigger] cmd@.argv[k]),
            views(argv@) == want.take(i as int),
        decreases cmd.argv@.len() - i,
    {
        let ghost before = views(argv@);
        assert(cmd@.argv[i as int] == cmd.argv@[i as int]@);
        match c_string(&cmd.argv[i]) {
            Some(a) => {
                let ghost av = a@;
                argv.push(a);
                assert(views(argv@) =~= before.push(av));
            },
            None => {
                return Err(ExecError::ArgumentNul(i));
            },
        }
        assert(want.take(i + 1) =~= want.take(i as int).push(want[i as int]));
        i = i + 1;
    }
    assert(cmd@.argv.len() == cmd.argv@.len());
    assert(want.take(i as int) =~= want);
    Ok(ExecVector { path, argv })
}

/// An interpreter that a script asks for is taken only as an absolute path, without
/// white space in it.
pub proof fn interpreters_are_absolute(contents: Seq<u8>)
    ensures
        shebang(contents) matches Some(p) ==> absolute(p) && forall|i: int|
            0 <= i < p.len() ==> !ascii_space(#[trigger] p[i]),
{
    let head = if contents.len() <= SHEBANG_LIMIT {
        contents
    } else {
        contents.take(SHEBANG_LIMIT as int)
    };
    lemma_word_has_no_space(ascii_trim_start(first_line(head.skip(2))));
}

proof fn lemma_word_has_no_space(s: Seq<u8>)
    ensures
        forall|i: int| 0 <= i < ascii_word(s).len() ==> !ascii_space(#[trigger] ascii_word(s)[i]),
    decreases s.len(),
{
    if s.len() > 0 && !ascii_space(s[0]) {
        lemma_word_has_no_space(s.drop_first());
        assert forall|i: int| 0 <= i < ascii_word(s).len() implies !ascii_space(
            #[trigger] ascii_word(s)[i],
        ) by {
            if i > 0 {
                assert(ascii_word(s)[i] == ascii_word(s.drop_first())[i - 1]);
            }
        }
    }
}

proof fn lemma_first_line(a: Seq<u8>, b: Seq<u8>)
    requires
        forall|i: int| 0 <= i < a.len() ==> #[trigger] a[i] != 0x0a,
    ensures
        first_line(a + b) == a + first_line(b),
    decreases a.len(),
{
    if a.len() == 0 {
        assert(a + b =~= b);
        assert(a + first_line(b) =~= first_line(b));
    } else {
        let t = a.drop_first();
        assert((a + b)[0] == a[0]);
        assert((a + b).drop_first() =~= t + b);
        assert forall|i: int| 0 <= i < t.len() implies #[trigger] t[i] != 0x0a by {
            assert(t[i] == a[i + 1]);
        }
        lemma_first_line(t, b);
        assert(seq![a[0]] + (t + first_line(b)) =~= a + first_line(b));
    }
}

proof fn lemma_ascii_trim_start(blanks: Seq<u8>, s: Seq<u8>)
    requires
        forall|i: int| 0 <= i < blanks.len() ==> ascii_space(#[trigger] blanks[i]),
        s.len() > 0 ==> !ascii_space(s[0]),
    ensures
        ascii_trim_start(blanks + s) == s,
    decreases blanks.len(),
{
    if blanks.len() == 0 {
        assert(blanks + s =~= s);
    } else {
        let t = blanks.drop_first();
        assert((blanks + s)[0] == blanks[0]);
        assert((blanks + s).drop_first() =~= t + s);
        assert forall|i: int| 0 <= i < t.len() implies ascii_space(#[trigger] t[i]) by {
            assert(t[i] == blanks[i + 1]);
        }
        lemma_ascii_trim_start(t, s);
    }
}

proof fn lemma_ascii_word(w: Seq<u8>, rest: Seq<u8>)
    requires
        forall|i: int| 0 <= i < w.len() ==> !ascii_space(#[trigger] w[i]),
        rest.len() > 0 ==> ascii_space(rest[0]),
    ensures
        ascii_word(w + rest) == w,
    decreases w.len(),
{
    if w.len() == 0 {
        assert(w + rest =~= rest);
        assert(ascii_word(rest) =~= w);
    } else {
        let t = w.drop_first();
        assert((w + rest)[0] == w[0]);
        assert((w + rest).drop_first() =~= t + rest);
        assert forall|i: int| 0 <= i < t.len() implies !ascii_space(#[trigger] t[i]) by {
            assert(t[i] == w[i + 1]);
        }
        lemma_ascii_word(t, rest);
        assert(seq![w[0]] + t =~= w);
    }
}

/// The interpreter of a script is the first word after `#!` on the first line, all
/// of it, if that is an absolute path: blanks before it do not count, and what
/// follows the next space, tab, form feed, carriage return or newline does not
/// either.
pub proof fn scripts_name_their_interpreter(blanks: Seq<u8>, w: Seq<u8>, rest: Seq<u8>)
    requires
        forall|i: int|
            0 <= i < blanks.len() ==> {
                let b = #[trigger] blanks[i];
                b == 0x20 || b == 0x09 || b == 0x0c || b == 0x0d
            },
        w.len() > 0,
        forall|i: int|
            0 <= i < w.len() ==> {
                let b = #[trigger] w[i];
                b != 0x20 && b != 0x09 && b != 0x0a && b != 0x0c && b != 0x0d
            },
        rest.len() > 0 ==> {
            ||| rest[0] == 0x20
            ||| rest[0] == 0x09
            ||| rest[0] == 0x0a
            ||| rest[0] == 0x0c
            ||| rest[0] == 0x0d
        },
        2 + blanks.len() + w.len() + rest.len() <= 4096,
    ensures
        shebang(seq![0x23, 0x21] + blanks + w + rest) == (if w[0] == 0x2f {
            Some(w)
        } else {
            None
        }),
{
    let contents = seq![0x23u8, 0x21] + blanks + w + rest;
    let front = blanks + w;
    assert(contents.skip(2) =~= front + rest);
    assert forall|i: int| 0 <= i < front.len() implies #[trigger] front[i] != 0x0a by {
        if i < blanks.len() {
            assert(front[i] == blanks[i]);
        } else {
            assert(front[i] == w[i - blanks.len()]);
        }
    }
    lemma_first_line(front, rest);
    let more = first_line(rest);
    if more.len() > 0 {
        assert(more[0] == rest[0]);
    }
    assert(front + more =~= blanks + (w + more));
    assert((w + more)[0] == w[0]);
    lemma_ascii_trim_start(blanks, w + more);
    lemma_ascii_word(w, more);
}

/// A file that does not start with `#!`, or has nothing but blanks after it on the
/// first line, has no interpreter.
pub proof fn other_files_have_no_interpreter(contents: Seq<u8>, blanks: Seq<u8>, rest: Seq<u8>)
    requires
        forall|i: int|
            0 <= i < blanks.len() ==> {
                let b = #[trigger] blanks[i];
                b == 0x20 || b == 0x09 || b == 0x0c || b == 0x0d
            },
        rest.len() > 0 ==> rest[0] == 0x0a,
        2 + blanks.len() + rest.len() <= 4096,
    ensures
        contents.len() < 2 || contents[0] != 0x23 || contents[1] != 0x21 ==> shebang(contents)
            is None,
        shebang(seq![0x23, 0x21] + blanks + rest) is None,
{
    let script = seq![0x23u8, 0x21] + blanks + rest;
    assert(script.skip(2) =~= blanks + rest);
    lemma_first_line(blanks, rest);
    let none = Seq::<u8>::empty();
    assert(first_line(rest) =~= none);
    lemma_ascii_trim_start(blanks, none);
    assert(ascii_word(none) =~= none);
}

/// Nothing beyond the first 4096 bytes of a file counts for its interpreter.
pub proof fn only_the_start_of_a_script_counts(start: Seq<u8>, more: Seq<u8>)
    requires
        start.len() == 4096,
    ensures
        shebang(start + more) == shebang(start),
{
    assert((start + more).take(4096) =~= start);
    if more.len() == 0 {
        assert(start + more =~= start);
    }
}

/// A file can be run if it is a regular file and any one of its three execute bits
/// is set, that of the owner, of the group or of all others.
pub proof fn any_execute_bit_is_enough(stat: FileStat)
    ensures
        runnable(Some(stat)) <==> stat.is_file && (stat.mode & 0o100 != 0 || stat.mode & 0o010 != 0
            || stat.mode & 0o001 != 0),
        !runnable(None),
{
    let m = stat.mode;
    assert(m & 0o111 != 0 <==> (m & 0o100 != 0 || m & 0o010 != 0 || m & 0o001 != 0))
        by (bit_vector);
}

/// A command is looked for in every directory of the search path, in order: a path
/// of one directory gives one place, and a colon puts the places of what follows it
/// after those of what stands before it.
pub proof fn every_directory_is_searched(a: Seq<u8>, b: Seq<u8>, cmd: Seq<u8>)
    ensures
        candidates(a.push(0x3a) + b, cmd) == candidates(a, cmd) + candidates(b, cmd),
        !a.contains(0x3a) ==> candidates(a, cmd) == seq![joined(a, cmd)],
{
    lemma_split_concat(a, b, 0x3a);
    assert(candidates(a.push(0x3a) + b, cmd) =~= candidates(a, cmd) + candidates(b, cmd));
    if !a.contains(0x3a) {
        lemma_split_single(a, 0x3a);
        assert(candidates(a, cmd) =~= seq![joined(a, cmd)]);
    }
}

/// The first place that can be run is the one that counts: if a place can be run and
/// none before it can, the command is found there and nowhere else.
pub proof fn the_first_runnable_place_counts(
    path_var: Seq<u8>,
    name: Seq<u8>,
    args: Seq<Seq<u8>>,
    stats: Seq<Option<FileStat>>,
    i: int,
    path: Seq<u8>,
)
    requires
        !name.contains(0x2f),
        0 <= i < stats.len(),
        runnable(stats[i]),
        forall|k: int| 0 <= k < i ==> !runnable(#[trigger] stats[k]),
    ensures
        found_at(seq![name] + args, Some(path_var), stats, path) <==> path == candidates(
            path_var,
            name,
        )[i],
{
    let cmd = seq![name] + args;
    assert(cmd[0] == name);
    assert(first_runnable(stats, i));
    if found_at(cmd, Some(path_var), stats, path) {
        let j = choose|j: int|
            #![trigger stats[j]]
            first_runnable(stats, j) && path == candidates(path_var, name)[j];
        if j < i {
            assert(!runnable(stats[j]));
        } else if i < j {
            assert(!runnable(stats[i]));
        }
    }
}

/// A command with a slash in it is taken as the path it is.
pub proof fn paths_are_taken_as_they_are(
    cmd: Seq<Seq<u8>>,
    path_var: Option<Seq<u8>>,
    stats: Seq<Option<FileStat>>,
    path: Seq<u8>,
    at: int,
)
    requires
        cmd.len() > 0,
        0 <= at < cmd[0].len(),
        cmd[0][at] == 0x2f,
    ensures
        found_at(cmd, path_var, stats, path) <==> path == cmd[0],
        place_of(cmd[0], path) <==> path == cmd[0],
{
    assert(cmd[0].contains(0x2f));
}

/// A resolved command is the command that was given, argument for argument, but for
/// the first, which is its own path: the canonical one where there is one.
pub proof fn resolving_keeps_the_arguments(
    cmd: Seq<Seq<u8>>,
    found: Seq<u8>,
    canonical: Option<Seq<u8>>,
)
    requires
        cmd.len() > 0,
    ensures
        ({
            let r = resolved_command(cmd, found, canonical);
            &&& r.path == canonical.unwrap_or(found)
            &&& r.argv.len() == cmd.len()
            &&& r.argv[0] == r.path
            &&& forall|i: int| 0 < i < cmd.len() ==> #[trigger] r.argv[i] == cmd[i]
        }),
{
}

/// A command that runs what was asked for has the arguments that were given, and its
/// own path for the first.
pub proof fn running_keeps_the_arguments(cmd: Seq<Seq<u8>>, command: CommandView)
    ensures
        runs(cmd, command) <==> {
            &&& cmd.len() > 0
            &&& command.argv.len() == cmd.len()
            &&& command.argv[0] == command.path
            &&& forall|i: int| 0 < i < cmd.len() ==> #[trigger] command.argv[i] == cmd[i]
        },
{
    if cmd.len() > 0 && command.argv.len() == cmd.len() && command.argv[0] == command.path && (
    forall|i: int| 0 < i < cmd.len() ==> #[trigger] command.argv[i] == cmd[i]) {
        assert(command.argv =~= cmd.update(0, command.path));
    }
}

/// A script is traced through its interpreter, which gets the script as its first
/// argument and then the arguments of the script. A program is traced as it is.
pub proof fn scripts_are_traced_through_their_interpreter(
    cmd: CommandView,
    interpreter: Seq<u8>,
)
    requires
        cmd.argv.len() > 0,
    ensures
        trace_command(cmd, None) == cmd,
        ({
            let r = trace_command(cmd, Some(interpreter));
            &&& r.path == interpreter
            &&& r.argv.len() == cmd.argv.len() + 1
            &&& r.argv[0] == interpreter
            &&& r.argv[1] == cmd.path
            &&& forall|i: int| 2 <= i < r.argv.len() ==> #[trigger] r.argv[i] == cmd.argv[i - 1]
        }),
{
}

/// Bytes can be handed over as a C string exactly if none of them is zero.
pub proof fn zero_bytes_end_c_strings(s: Seq<u8>)
    ensures
        no_nul(s) <==> forall|i: int| 0 <= i < s.len() ==> #[trigger] s[i] != 0,
{
}

} // verus!
