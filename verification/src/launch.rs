//! The course of a launch: which steps are taken, in which order, and what each
//! of them hands to the next.

use crate::access::{
    access_exec, access_read_file, access_ro, access_rox, access_rw, access_rwx, covers, exec_bits,
    read_file_bits, ro_bits, rox_bits, rw_bits, rwx_bits,
};
use crate::allow::{
    allow_all, first_refused, granted_all, probe_views, refused, request_views, requests_stay_met,
    rights_at, AllowList, Grants, MissingPath, Probe, ProbeView, Request, RequestView,
};
use crate::bytes::{copy, views};
use crate::caps::{drop_caps, next_stage, CapEvent, CapStage};
use crate::command::{
    build_trace_command, interpreters_are_absolute, place_of, resolve_command, resolved_command,
    running_keeps_the_arguments, runs, shebang, shebang_interpreter, trace_command, Command,
};
use crate::defaults::{
    all_nss_modules, ld_so_requests, lib_dir_requests, listing_views, modules_below, nss_dirs,
    nss_file_requests, path_requests, push_ld_so, push_lib_dirs, push_nss_files, push_paths,
};
use crate::elf::{elf_interpreter, elf_parse, interpreter_bytes};
use crate::fds::{
    close_fds, close_fds_before_exec, first_fd_stage, next_fd_stage, FdEvent, FdStage,
};
use crate::path::{absolute, components_of, normalized, opt_view, Comp};
use crate::ruleset::{enforce_landlock, ruleset_calls, Enforcement, NetOptions, RulesetCall};
use crate::text::parsed_u32;
use crate::trace::{collect_shared_objects, shared_objects};
use crate::user::{named_by, UserInfo};
use vstd::prelude::*;
use vstd::utf8::encode_utf8;

verus! {

/// How much is logged.
#[derive(Debug, Clone, Copy, PartialEq, Eq, Structural)]
pub enum LogLevel {
    Warn,
    Info,
    Debug,
}

/// The name that a log filter has for a level.
pub fn level_name(level: LogLevel) -> (r: &'static str)
    ensures
        r@ == (match level {
            LogLevel::Warn => "warn"@,
            LogLevel::Info => "info"@,
            LogLevel::Debug => "debug"@,
        }),
{
    match level {
        LogLevel::Warn => "warn",
        LogLevel::Info => "info",
        LogLevel::Debug => "debug",
    }
}

/// What a launch was asked to do.
#[derive(Debug)]
pub struct Args {
    /// The user to run as, by name or number.
    pub user: Option<String>,
    /// Paths to read.
    pub ro: Vec<Vec<u8>>,
    /// Paths to read and execute.
    pub rox: Vec<Vec<u8>>,
    /// Paths to read and write.
    pub rw: Vec<Vec<u8>>,
    /// Paths to read, write and execute.
    pub rwx: Vec<Vec<u8>>,
    /// Whether common library directories are allowed.
    pub default_libs: bool,
    /// Whether the libraries that the command loads are found out and allowed.
    pub resolve_libs: bool,
    /// Whether name services are allowed.
    pub allow_nss: bool,
    /// What is said of the network.
    pub net: NetOptions,
    /// Whether capabilities are dropped.
    pub drop_caps: bool,
    /// System calls to block, by name or list.
    pub seccomp_filter: Vec<String>,
    /// System calls to leave alone, by name or list.
    pub seccomp_allow: Vec<String>,
    /// Whether the command may gain privileges.
    pub allow_new_privs: bool,
    /// How much is logged.
    pub log_level: LogLevel,
    /// The command and its arguments.
    pub cmd: Vec<Vec<u8>>,
}

impl Args {
    /// Whether anything is asked for that takes Landlock.
    pub open spec fn wants_landlock(&self) -> bool {
        ||| self.ro@.len() > 0
        ||| self.rox@.len() > 0
        ||| self.rw@.len() > 0
        ||| self.rwx@.len() > 0
        ||| self.default_libs
        ||| self.resolve_libs
        ||| self.allow_nss
        ||| self.net.connect_ports@.len() > 0
        ||| self.net.bind_ports@.len() > 0
        ||| self.net.deny_connect
        ||| self.net.deny_bind
        ||| self.net.scope_abstract_unix_socket
    }
}

/// Whether anything is asked for that takes Landlock.
pub fn landlock_requested(args: &Args) -> (r: bool)
    ensures
        r == args.wants_landlock(),
{
    args.ro.len() > 0 || args.rox.len() > 0 || args.rw.len() > 0 || args.rwx.len() > 0
        || args.default_libs || args.resolve_libs || args.allow_nss || args.net.connect_ports.len()
        > 0 || args.net.bind_ports.len() > 0 || args.net.deny_connect || args.net.deny_bind
        || args.net.scope_abstract_unix_socket
}

/// A step of a launch, in the order in which the steps come.
#[derive(Debug, Clone, Copy, PartialEq, Eq, Structural)]
pub enum Stage {
    /// Look up the user.
    ResolveUser,
    /// Find the command.
    ResolveCommand,
    /// Allow the paths that were asked for, and the command.
    AllowPaths,
    /// Allow the interpreter of a script.
    AllowInterpreter,
    /// Allow common library directories.
    AllowDefaultLibs,
    /// Allow the loader of the command.
    AllowLoader,
    /// Allow the libraries that the command loads.
    AllowLibraries,
    /// Allow name services.
    AllowNss,
    /// Put the allowlist in force.
    EnforceLandlock,
    /// Rule out new privileges.
    NoNewPrivs,
    /// Drop capabilities.
    DropCaps,
    /// Block system calls.
    InstallSeccomp,
    /// Take on the groups of the user.
    SetGroups,
    /// Take on the group of the user.
    SetGids,
    /// Become the user.
    SetUids,
    /// Close inherited file descriptors.
    CloseFds,
    /// Execute the command.
    Exec,
    /// A step failed: the launch is over.
    Failed,
}

/// The place of a step among the steps.
pub open spec fn rank(stage: Stage) -> nat {
    match stage {
        Stage::ResolveUser => 0,
        Stage::ResolveCommand => 1,
        Stage::AllowPaths => 2,
        Stage::AllowInterpreter => 3,
        Stage::AllowDefaultLibs => 4,
        Stage::AllowLoader => 5,
        Stage::AllowLibraries => 6,
        Stage::AllowNss => 7,
        Stage::EnforceLandlock => 8,
        Stage::NoNewPrivs => 9,
        Stage::DropCaps => 10,
        Stage::InstallSeccomp => 11,
        Stage::SetGroups => 12,
        Stage::SetGids => 13,
        Stage::SetUids => 14,
        Stage::CloseFds => 15,
        Stage::Exec => 16,
        Stage::Failed => 17,
    }
}

/// Whether a step is part of a launch. Finding the command, closing descriptors
/// and executing always are, the others if they are asked for. Ruling out new
/// privileges is, unless it is asked not to be.
pub open spec fn enabled(args: Args, stage: Stage) -> bool {
    match stage {
        Stage::ResolveUser | Stage::SetGroups | Stage::SetGids | Stage::SetUids => args.user
            is Some,
        Stage::AllowPaths
        | Stage::AllowInterpreter
        | Stage::EnforceLandlock => args.wants_landlock(),
        Stage::AllowDefaultLibs => args.default_libs,
        Stage::AllowLoader | Stage::AllowLibraries => args.resolve_libs,
        Stage::AllowNss => args.allow_nss,
        Stage::NoNewPrivs => !args.allow_new_privs,
        Stage::DropCaps => args.drop_caps,
        Stage::InstallSeccomp => args.seccomp_filter@.len() > 0,
        Stage::ResolveCommand | Stage::CloseFds | Stage::Exec | Stage::Failed => true,
    }
}

/// The step after a step, part of the launch or not. Nothing comes after
/// executing but failure, since a command that runs does not come back.
pub open spec fn successor(stage: Stage) -> Stage {
    match stage {
        Stage::ResolveUser => Stage::ResolveCommand,
        Stage::ResolveCommand => Stage::AllowPaths,
        Stage::AllowPaths => Stage::AllowInterpreter,
        Stage::AllowInterpreter => Stage::AllowDefaultLibs,
        Stage::AllowDefaultLibs => Stage::AllowLoader,
        Stage::AllowLoader => Stage::AllowLibraries,
        Stage::AllowLibraries => Stage::AllowNss,
        Stage::AllowNss => Stage::EnforceLandlock,
        Stage::EnforceLandlock => Stage::NoNewPrivs,
        Stage::NoNewPrivs => Stage::DropCaps,
        Stage::DropCaps => Stage::InstallSeccomp,
        Stage::InstallSeccomp => Stage::SetGroups,
        Stage::SetGroups => Stage::SetGids,
        Stage::SetGids => Stage::SetUids,
        Stage::SetUids => Stage::CloseFds,
        Stage::CloseFds => Stage::Exec,
        Stage::Exec => Stage::Failed,
        Stage::Failed => Stage::Failed,
    }
}

/// The first step from `stage` on that is part of the launch.
pub open spec fn first_enabled(args: Args, stage: Stage) -> Stage
    decreases 17 - rank(stage),
{
    if enabled(args, stage) || stage == Stage::Failed {
        stage
    } else {
        first_enabled(args, successor(stage))
    }
}

/// The step that comes next once `stage` succeeded, or did not.
pub open spec fn following(args: Args, stage: Stage, ok: bool) -> Stage {
    if ok {
        first_enabled(args, successor(stage))
    } else {
        Stage::Failed
    }
}

/// The step after a step.
fn step_after(stage: Stage) -> (r: Stage)
    ensures
        r == successor(stage),
{
    match stage {
        Stage::ResolveUser => Stage::ResolveCommand,
        Stage::ResolveCommand => Stage::AllowPaths,
        Stage::AllowPaths => Stage::AllowInterpreter,
        Stage::AllowInterpreter => Stage::AllowDefaultLibs,
        Stage::AllowDefaultLibs => Stage::AllowLoader,
        Stage::AllowLoader => Stage::AllowLibraries,
        Stage::AllowLibraries => Stage::AllowNss,
        Stage::AllowNss => Stage::EnforceLandlock,
        Stage::EnforceLandlock => Stage::NoNewPrivs,
        Stage::NoNewPrivs => Stage::DropCaps,
        Stage::DropCaps => Stage::InstallSeccomp,
        Stage::InstallSeccomp => Stage::SetGroups,
        Stage::SetGroups => Stage::SetGids,
        Stage::SetGids => Stage::SetUids,
        Stage::SetUids => Stage::CloseFds,
        Stage::CloseFds => Stage::Exec,
        Stage::Exec => Stage::Failed,
        Stage::Failed => Stage::Failed,
    }
}

/// Whether a step is part of a launch.
fn is_enabled(args: &Args, stage: Stage) -> (r: bool)
    ensures
        r == enabled(*args, stage),
{
    match stage {
        Stage::ResolveUser | Stage::SetGroups | Stage::SetGids | Stage::SetUids => args.user
            .is_some(),
        Stage::AllowPaths
        | Stage::AllowInterpreter
        | Stage::EnforceLandlock => landlock_requested(args),
        Stage::AllowDefaultLibs => args.default_libs,
        Stage::AllowLoader | Stage::AllowLibraries => args.resolve_libs,
        Stage::AllowNss => args.allow_nss,
        Stage::NoNewPrivs => !args.allow_new_privs,
        Stage::DropCaps => args.drop_caps,
        Stage::InstallSeccomp => args.seccomp_filter.len() > 0,
        Stage::ResolveCommand | Stage::CloseFds | Stage::Exec | Stage::Failed => true,
    }
}

/// The first step from `stage` on that is part of the launch.
fn seek(args: &Args, stage: Stage) -> (r: Stage)
    ensures
        r == first_enabled(*args, stage),
    decreases 17 - rank(stage),
{
    if is_enabled(args, stage) {
        stage
    } else {
        seek(args, step_after(stage))
    }
}

/// Whether a step adds to the allowlist.
pub open spec fn adds_paths(stage: Stage) -> bool {
    rank(Stage::AllowPaths) <= rank(stage) <= rank(Stage::AllowNss)
}

/// What a step that adds to the allowlist reads first, as a mathematical value.
pub enum ReadingView {
    Nothing,
    Contents(Seq<u8>),
    Libraries { reported: Seq<Seq<u8>>, probes: Seq<ProbeView> },
    Listings(Seq<Seq<Seq<u8>>>),
}

/// What a step that adds to the allowlist reads first.
#[derive(Debug)]
pub enum Reading {
    /// Nothing.
    Nothing,
    /// The contents of a file: of the command, for its interpreter, or of the
    /// program that is traced, for its loader.
    Contents(Vec<u8>),
    /// The libraries that a trace reported, and what the file system says of each.
    Libraries { reported: Vec<Vec<u8>>, probes: Vec<Probe> },
    /// The names of the files in each directory that is searched for name service
    /// modules.
    Listings(Vec<Vec<Vec<u8>>>),
}

impl View for Reading {
    type V = ReadingView;

    open spec fn view(&self) -> ReadingView {
        match *self {
            Reading::Nothing => ReadingView::Nothing,
            Reading::Contents(data) => ReadingView::Contents(data@),
            Reading::Libraries { reported, probes } => ReadingView::Libraries {
                reported: views(reported@),
                probes: probe_views(probes@),
            },
            Reading::Listings(names) => ReadingView::Listings(listing_views(names@)),
        }
    }
}

impl ReadingView {
    /// Every library has its probe, and every directory its listing.
    pub open spec fn complete(self) -> bool {
        match self {
            ReadingView::Libraries { reported, probes } => reported.len() == probes.len(),
            ReadingView::Listings(names) => names.len() == nss_dirs().len(),
            _ => true,
        }
    }
}

/// A path that may be there, as a list.
pub open spec fn optional(path: Option<Seq<u8>>) -> Seq<Seq<u8>> {
    match path {
        Some(p) => seq![p],
        None => Seq::empty(),
    }
}

/// The paths that a step finds out from what it read: the interpreter of a script,
/// the loader of a program, the libraries that exist, or the name service modules.
pub open spec fn found_in(stage: Stage, reading: ReadingView) -> Seq<Seq<u8>> {
    match (stage, reading) {
        (Stage::AllowInterpreter, ReadingView::Contents(data)) => optional(shebang(data)),
        (Stage::AllowLoader, ReadingView::Contents(data)) => optional(
            interpreter_bytes(elf_parse(data)),
        ),
        (Stage::AllowLibraries, ReadingView::Libraries { reported, probes }) => shared_objects(
            reported,
            probes,
        ),
        (Stage::AllowNss, ReadingView::Listings(names)) => modules_below(nss_dirs(), names),
        _ => Seq::empty(),
    }
}

/// Puts a path that may be there in a list.
fn list_optional(path: Option<Vec<u8>>) -> (r: Vec<Vec<u8>>)
    ensures
        views(r@) == optional(opt_view(path)),
{
    let mut r: Vec<Vec<u8>> = Vec::new();
    if let Some(p) = path {
        r.push(p);
    }
    assert(views(r@) =~= optional(opt_view(path)));
    r
}

/// The requests of a step that adds to the allowlist, given the path of the
/// command and the paths that the step found out.
pub open spec fn stage_requests(
    args: Args,
    stage: Stage,
    cmd: Seq<u8>,
    found: Seq<Seq<u8>>,
) -> Seq<RequestView> {
    match stage {
        Stage::AllowPaths => path_requests(views(args.ro@), ro_bits(), true) + path_requests(
            views(args.rox@),
            rox_bits(),
            true,
        ) + path_requests(views(args.rw@), rw_bits(), true) + path_requests(
            views(args.rwx@),
            rwx_bits(),
            true,
        ) + path_requests(seq![cmd], exec_bits(), true),
        Stage::AllowInterpreter | Stage::AllowLoader => path_requests(found, exec_bits(), true),
        Stage::AllowDefaultLibs => lib_dir_requests() + ld_so_requests(),
        Stage::AllowLibraries => ld_so_requests() + path_requests(found, read_file_bits(), true)
            + lib_dir_requests(),
        Stage::AllowNss => nss_file_requests() + path_requests(found, read_file_bits(), true),
        _ => Seq::empty(),
    }
}

/// What is known of a launch.
pub struct LaunchView {
    pub args: Args,
    pub stage: Stage,
    pub user: Option<UserInfo>,
    pub command: Option<Command>,
    pub allow: AllowList,
    pub caps: CapStage,
    pub fds: FdStage,
}

/// A launch under way.
#[derive(Debug)]
pub struct Launch {
    args: Args,
    stage: Stage,
    user: Option<UserInfo>,
    command: Option<Command>,
    allow: AllowList,
    caps: CapStage,
    fds: FdStage,
}

impl View for Launch {
    type V = LaunchView;

    closed spec fn view(&self) -> LaunchView {
        LaunchView {
            args: self.args,
            stage: self.stage,
            user: self.user,
            command: self.command,
            allow: self.allow,
            caps: self.caps,
            fds: self.fds,
        }
    }
}

impl LaunchView {
    /// What the steps so far must have left behind: the user that was asked for, once
    /// looked up, the command that was asked for, once found, and capabilities and
    /// descriptors that were dealt with to the end.
    pub open spec fn valid(self) -> bool {
        &&& self.allow.wf()
        &&& enabled(self.args, self.stage)
        &&& self.passed(Stage::ResolveUser) && self.args.user is Some ==> self.user is Some
            && named_by(self.args.user->0@, self.user->0)
        &&& self.passed(Stage::ResolveCommand) ==> self.command is Some && runs(
            views(self.args.cmd@),
            self.command->0@,
        )
        &&& self.passed(Stage::DropCaps) && self.args.drop_caps ==> self.caps == CapStage::Done
        &&& self.stage == Stage::DropCaps ==> !caps_over(self.caps)
        &&& rank(self.stage) < rank(Stage::DropCaps) ==> self.caps == CapStage::ClearAmbient
        &&& self.passed(Stage::CloseFds) ==> self.fds == FdStage::Done
        &&& self.stage == Stage::CloseFds ==> !fds_over(self.fds)
        &&& rank(self.stage) < rank(Stage::CloseFds) ==> self.fds == first_fd_stage()
    }

    /// Whether a launch that is not over has come past a step.
    pub open spec fn passed(self, stage: Stage) -> bool {
        rank(stage) < rank(self.stage) < rank(Stage::Failed)
    }

    /// The launch after a step that succeeded, or did not.
    pub open spec fn advanced(self, ok: bool) -> LaunchView {
        LaunchView { stage: following(self.args, self.stage, ok), ..self }
    }

    /// The path of the command, once found.
    pub open spec fn cmd_path(self) -> Seq<u8> {
        self.command->0.path@
    }
}

/// Whether a step succeeds or fails with one call, and leaves nothing behind for
/// later steps.
pub open spec fn plain_step(stage: Stage) -> bool {
    rank(stage) > rank(Stage::EnforceLandlock) && stage != Stage::DropCaps && stage
        != Stage::CloseFds
}

/// Whether nothing is left to do about capabilities.
pub open spec fn caps_over(caps: CapStage) -> bool {
    caps == CapStage::Done || caps is Failed
}

/// Whether nothing is left to do about descriptors.
pub open spec fn fds_over(fds: FdStage) -> bool {
    fds == FdStage::Done || fds is Failed
}

impl Launch {
    /// Starts a launch.
    pub fn new(args: Args) -> (r: Launch)
        ensures
            r@.valid(),
            r@.args == args,
            r@.stage == first_enabled(args, Stage::ResolveUser),
            r@.user is None,
            r@.command is None,
            r@.allow@ == Map::<Seq<Comp>, (Seq<u8>, u64)>::empty(),
            r@.caps == CapStage::ClearAmbient,
            r@.fds == first_fd_stage(),
    {
        proof {
            lemma_first_enabled(args, Stage::ResolveUser);
            assert(enabled(args, Stage::ResolveCommand));
        }
        let stage = seek(&args, Stage::ResolveUser);
        Launch {
            args,
            stage,
            user: None,
            command: None,
            allow: AllowList::new(),
            caps: CapStage::ClearAmbient,
            fds: close_fds_before_exec(),
        }
    }

    /// The step to take.
    pub fn stage(&self) -> (r: Stage)
        ensures
            r == self@.stage,
    {
        self.stage
    }

    /// What was asked for.
    pub fn args(&self) -> (r: &Args)
        ensures
            *r == self@.args,
    {
        &self.args
    }

    /// The command, once found.
    pub fn command(&self) -> (r: Option<&Command>)
        ensures
            r == (match self@.command {
                Some(c) => Some(&c),
                None => None,
            }),
    {
        self.command.as_ref()
    }

    /// The user, once looked up.
    pub fn user(&self) -> (r: Option<&UserInfo>)
        ensures
            r == (match self@.user {
                Some(u) => Some(&u),
                None => None,
            }),
    {
        self.user.as_ref()
    }

    /// The allowlist so far.
    pub fn allow(&self) -> (r: &AllowList)
        ensures
            *r == self@.allow,
    {
        &self.allow
    }

    /// What is to be done next about capabilities.
    pub fn caps(&self) -> (r: CapStage)
        ensures
            r == self@.caps,
    {
        self.caps
    }

    /// What is to be done next about descriptors.
    pub fn fds(&self) -> (r: FdStage)
        ensures
            r == self@.fds,
    {
        self.fds
    }

    /// Takes in the user that was looked up, who must be the one that was asked for.
    pub fn user_resolved(&mut self, user: UserInfo)
        requires
            old(self)@.valid(),
            old(self)@.stage == Stage::ResolveUser,
            named_by(old(self)@.args.user->0@, user),
        ensures
            final(self)@.valid(),
            final(self)@ == (LaunchView { user: Some(user), ..old(self)@.advanced(true) }),
    {
        proof {
            lemma_next(self.args, self.stage);
        }
        self.stage = seek(&self.args, step_after(self.stage));
        self.user = Some(user);
    }

    /// Takes in where the command was found, and the canonical form of that path if it
    /// has one. The command is run from there, with the arguments that were given.
    pub fn command_resolved(&mut self, found: &[u8], canonical: &Option<Vec<u8>>)
        requires
            old(self)@.valid(),
            old(self)@.stage == Stage::ResolveCommand,
            old(self)@.args.cmd@.len() > 0,
            place_of(old(self)@.args.cmd@[0]@, found@),
        ensures
            final(self)@.valid(),
            final(self)@ == (LaunchView {
                command: final(self)@.command,
                ..old(self)@.advanced(true)
            }),
            final(self)@.command is Some,
            final(self)@.command->0@ == resolved_command(
                views(old(self)@.args.cmd@),
                found@,
                opt_view(*canonical),
            ),
    {
        proof {
            lemma_next(self.args, self.stage);
        }
        let command = resolve_command(&self.args.cmd, found, canonical);
        self.stage = seek(&self.args, step_after(self.stage));
        self.command = Some(command);
    }

    /// What is run to trace the libraries of the command, given the contents of the
    /// command's file.
    pub fn trace_command(&self, contents: &[u8]) -> (r: Command)
        requires
            self@.valid(),
            rank(Stage::ResolveCommand) < rank(self@.stage) < rank(Stage::Failed),
        ensures
            r@ == trace_command(self@.command->0@, shebang(contents@)),
            r.argv@.len() > 0,
    {
        match &self.command {
            Some(command) => {
                assert(command@.argv.len() == command.argv@.len());
                build_trace_command(command, &shebang_interpreter(contents))
            },
            None => Command { path: Vec::new(), argv: Vec::new() },
        }
    }

    /// Finds out the paths that a step adds to the allowlist, beside those that are
    /// fixed, from what was read for it.
    pub fn find(&self, reading: &Reading) -> (r: Vec<Vec<u8>>)
        requires
            reading@.complete(),
        ensures
            views(r@) == found_in(self@.stage, reading@),
    {
        let found = match (self.stage, reading) {
            (Stage::AllowInterpreter, Reading::Contents(data)) => list_optional(
                shebang_interpreter(data),
            ),
            (Stage::AllowLoader, Reading::Contents(data)) => list_optional(elf_interpreter(data)),
            (Stage::AllowLibraries, Reading::Libraries { reported, probes }) => {
                assert(views(reported@).len() == reported@.len());
                assert(probe_views(probes@).len() == probes@.len());
                collect_shared_objects(reported, probes)
            },
            (Stage::AllowNss, Reading::Listings(names)) => {
                assert(listing_views(names@).len() == names@.len());
                all_nss_modules(names)
            },
            _ => Vec::new(),
        };
        assert(views(found@) =~= found_in(self@.stage, reading@));
        found
    }

    /// The requests of a step that adds to the allowlist, given what it found out.
    pub fn requests(&self, found: &Vec<Vec<u8>>) -> (r: Vec<Request>)
        requires
            self@.valid(),
            adds_paths(self@.stage),
        ensures
            request_views(r@) == stage_requests(
                self@.args,
                self@.stage,
                self@.cmd_path(),
                views(found@),
            ),
    {
        let mut out: Vec<Request> = Vec::new();
        let ghost want = stage_requests(
            self@.args,
            self@.stage,
            self@.cmd_path(),
            views(found@),
        );
        match self.stage {
            Stage::AllowPaths => {
                push_paths(&mut out, &self.args.ro, access_ro(), true);
                push_paths(&mut out, &self.args.rox, access_rox(), true);
                push_paths(&mut out, &self.args.rw, access_rw(), true);
                push_paths(&mut out, &self.args.rwx, access_rwx(), true);
                if let Some(command) = &self.command {
                    let mut own: Vec<Vec<u8>> = Vec::new();
                    own.push(copy(&command.path));
                    assert(views(own@) =~= seq![self@.cmd_path()]);
                    push_paths(&mut out, &own, access_exec(), true);
                }
            },
            Stage::AllowInterpreter | Stage::AllowLoader => {
                push_paths(&mut out, found, access_exec(), true);
            },
            Stage::AllowDefaultLibs => {
                push_lib_dirs(&mut out);
                push_ld_so(&mut out);
            },
            Stage::AllowLibraries => {
                push_ld_so(&mut out);
                push_paths(&mut out, found, access_read_file(), true);
                push_lib_dirs(&mut out);
            },
            Stage::AllowNss => {
                push_nss_files(&mut out);
                push_paths(&mut out, found, access_read_file(), true);
            },
            _ => {},
        }
        assert(request_views(out@) =~= want);
        out
    }

    /// Takes in what the file system says of the paths of a step that adds to the
    /// allowlist, and adds them. The launch is over if a path that must exist does
    /// not.
    pub fn grant(&mut self, found: &Vec<Vec<u8>>, probes: &Vec<Probe>) -> (r: Result<
        (),
        MissingPath,
    >)
        requires
            old(self)@.valid(),
            adds_paths(old(self)@.stage),
            probes@.len() == stage_requests(
                old(self)@.args,
                old(self)@.stage,
                old(self)@.cmd_path(),
                views(found@),
            ).len(),
        ensures
            final(self)@.valid(),
            final(self)@.args == old(self)@.args,
            final(self)@.user == old(self)@.user,
            final(self)@.command == old(self)@.command,
            final(self)@.stage == following(old(self)@.args, old(self)@.stage, r is Ok),
            ({
                let requests = stage_requests(
                    old(self)@.args,
                    old(self)@.stage,
                    old(self)@.cmd_path(),
                    views(found@),
                );
                match r {
                    Ok(()) => {
                        &&& forall|k: int|
                            0 <= k < requests.len() ==> !refused(
                                #[trigger] requests[k],
                                probe_views(probes@)[k],
                            )
                        &&& final(self)@.allow@ == granted_all(
                            old(self)@.allow@,
                            requests,
                            probe_views(probes@),
                        )
                    },
                    Err(e) => exists|i: int|
                        #![trigger requests[i]]
                        first_refused(requests, probe_views(probes@), i) && e.path@
                            == requests[i].path && final(self)@.allow@ == granted_all(
                            old(self)@.allow@,
                            requests.take(i),
                            probe_views(probes@).take(i),
                        ),
                }
            }),
    {
        let requests = self.requests(found);
        let ghost want = request_views(requests@);
        assert(requests@.len() == want.len());
        let r = allow_all(&mut self.allow, &requests, probes);
        proof {
            lemma_next(self.args, self.stage);
        }
        match r {
            Ok(()) => {
                self.stage = seek(&self.args, step_after(self.stage));
                Ok(())
            },
            Err(e) => {
                proof {
                    let i = choose|i: int|
                        #![trigger requests@[i]]
                        first_refused(want, probe_views(probes@), i) && e.path@
                            == requests@[i].path@ && self.allow@ == granted_all(
                            old(self)@.allow@,
                            want.take(i),
                            probe_views(probes@).take(i),
                        );
                    assert(want[i].path == requests@[i].path@);
                }
                self.stage = Stage::Failed;
                Err(e)
            },
        }
    }

    /// The calls that put the allowlist in force.
    pub fn ruleset(&self) -> (r: Vec<RulesetCall>)
        requires
            self@.valid(),
        ensures
            r@ == ruleset_calls(self@.allow.entries().len(), self@.args.net),
    {
        enforce_landlock(&self.allow, &self.args.net)
    }

    /// Takes in how far the allowlist was put in force. In part is enough, not at
    /// all is a failure.
    pub fn enforced(&mut self, status: Enforcement)
        requires
            old(self)@.valid(),
            old(self)@.stage == Stage::EnforceLandlock,
        ensures
            final(self)@.valid(),
            final(self)@ == old(self)@.advanced(status != Enforcement::Not),
    {
        proof {
            lemma_next(self.args, self.stage);
        }
        match status {
            Enforcement::Not => {
                self.stage = Stage::Failed;
            },
            Enforcement::Fully | Enforcement::Partially => {
                self.stage = seek(&self.args, step_after(self.stage));
            },
        }
    }

    /// Takes in what came of the last thing that was done about capabilities. The step
    /// is over once nothing is left to do.
    pub fn caps_event(&mut self, event: CapEvent)
        requires
            old(self)@.valid(),
            old(self)@.stage == Stage::DropCaps,
        ensures
            final(self)@.valid(),
            ({
                let caps = next_stage(old(self)@.caps, event);
                let next = if caps_over(caps) {
                    old(self)@.advanced(caps == CapStage::Done)
                } else {
                    old(self)@
                };
                final(self)@ == (LaunchView { caps, ..next })
            }),
    {
        proof {
            lemma_next(self.args, self.stage);
        }
        self.caps = drop_caps(self.caps, event);
        match self.caps {
            CapStage::Done => {
                self.stage = seek(&self.args, step_after(self.stage));
            },
            CapStage::Failed(_) => {
                self.stage = Stage::Failed;
            },
            _ => {},
        }
    }

    /// Takes in what came of the last thing that was done about descriptors. The step
    /// is over once nothing is left to do.
    pub fn fds_event(&mut self, event: FdEvent)
        requires
            old(self)@.valid(),
            old(self)@.stage == Stage::CloseFds,
        ensures
            final(self)@.valid(),
            ({
                let fds = next_fd_stage(old(self)@.fds, event);
                let next = if fds_over(fds) {
                    old(self)@.advanced(fds == FdStage::Done)
                } else {
                    old(self)@
                };
                final(self)@ == (LaunchView { fds, ..next })
            }),
    {
        proof {
            lemma_next(self.args, self.stage);
        }
        self.fds = close_fds(self.fds, event);
        match self.fds {
            FdStage::Done => {
                self.stage = seek(&self.args, step_after(self.stage));
            },
            FdStage::Failed(_) => {
                self.stage = Stage::Failed;
            },
            _ => {},
        }
    }

    /// Takes in that a step succeeded that is a single call, or that any step failed.
    pub fn advance(&mut self, ok: bool)
        requires
            old(self)@.valid(),
            ok ==> plain_step(old(self)@.stage),
        ensures
            final(self)@.valid(),
            final(self)@ == old(self)@.advanced(ok),
    {
        proof {
            lemma_next(self.args, self.stage);
        }
        if ok {
            self.stage = seek(&self.args, step_after(self.stage));
        } else {
            self.stage = Stage::Failed;
        }
    }
}

/// What the next step passes over: no step that is part of the launch.
proof fn lemma_next(args: Args, stage: Stage)
    ensures
        ({
            let next = first_enabled(args, successor(stage));
            &&& enabled(args, next)
            &&& rank(next) > rank(stage) || next == Stage::Failed
            &&& rank(stage) < rank(Stage::ResolveCommand) ==> next == Stage::ResolveCommand
            &&& rank(stage) < rank(Stage::DropCaps) < rank(next) ==> !args.drop_caps
            &&& rank(stage) < rank(Stage::CloseFds) ==> rank(next) <= rank(Stage::CloseFds)
        }),
{
    lemma_first_enabled(args, successor(stage));
    assert(enabled(args, Stage::ResolveCommand));
    assert(enabled(args, Stage::CloseFds));
    assert(enabled(args, Stage::DropCaps) == args.drop_caps);
}

/// The first step from `stage` on is one that is part of the launch, and no step
/// between the two is.
proof fn lemma_first_enabled(args: Args, stage: Stage)
    ensures
        enabled(args, first_enabled(args, stage)),
        rank(first_enabled(args, stage)) >= rank(stage),
        forall|s: Stage|
            rank(stage) <= rank(s) < rank(first_enabled(args, stage)) ==> !#[trigger] enabled(
                args,
                s,
            ),
    decreases 17 - rank(stage),
{
    if !enabled(args, stage) && stage != Stage::Failed {
        lemma_first_enabled(args, successor(stage));
        assert forall|s: Stage|
            rank(stage) <= rank(s) < rank(first_enabled(args, stage)) implies !#[trigger] enabled(
            args,
            s,
        ) by {
            if rank(s) == rank(stage) {
                assert(s == stage);
            }
        }
    }
}

/// The step to take after steps that succeeded or did not.
pub open spec fn stage_after(args: Args, oks: Seq<bool>) -> Stage
    decreases oks.len(),
{
    if oks.len() == 0 {
        first_enabled(args, Stage::ResolveUser)
    } else {
        following(args, stage_after(args, oks.drop_last()), oks.last())
    }
}

/// Whether step `k` of a launch was `stage`, and succeeded.
pub open spec fn done_at(args: Args, oks: Seq<bool>, stage: Stage, k: int) -> bool {
    0 <= k < oks.len() && stage_after(args, oks.take(k)) == stage && oks[k]
}

/// Whether a step was taken and succeeded.
pub open spec fn carried_out(args: Args, oks: Seq<bool>, stage: Stage) -> bool {
    exists|k: int| done_at(args, oks, stage, k)
}

/// Steps come in their order, none twice: each is further on than all before it,
/// until one fails.
pub proof fn steps_come_in_order(args: Args, oks: Seq<bool>, k: int)
    requires
        0 <= k < oks.len(),
        stage_after(args, oks) != Stage::Failed,
    ensures
        rank(stage_after(args, oks.take(k))) < rank(stage_after(args, oks)),
    decreases oks.len(),
{
    let front = oks.drop_last();
    let n = oks.len() - 1;
    assert(front =~= oks.take(n));
    lemma_first_enabled(args, successor(stage_after(args, front)));
    if k < n {
        steps_come_in_order(args, front, k);
        assert(front.take(k) =~= oks.take(k));
    }
}

/// A step is taken only after every earlier step that is part of the launch was
/// taken and succeeded.
pub proof fn earlier_steps_succeeded(args: Args, oks: Seq<bool>, stage: Stage)
    requires
        stage_after(args, oks) != Stage::Failed,
        enabled(args, stage),
        rank(stage) < rank(stage_after(args, oks)),
    ensures
        carried_out(args, oks, stage),
    decreases oks.len(),
{
    if oks.len() == 0 {
        lemma_first_enabled(args, Stage::ResolveUser);
    } else {
        let front = oks.drop_last();
        let n = oks.len() - 1;
        assert(front =~= oks.take(n));
        let last = stage_after(args, front);
        lemma_first_enabled(args, successor(last));
        if rank(stage) < rank(last) {
            earlier_steps_succeeded(args, front, stage);
            let k = choose|k: int| done_at(args, front, stage, k);
            assert(front.take(k) =~= oks.take(k));
            assert(done_at(args, oks, stage, k));
        } else {
            assert(rank(stage) == rank(last));
            assert(stage == last);
            assert(done_at(args, oks, stage, n));
        }
    }
}

/// A failed step ends the launch: no step comes after it.
pub proof fn failure_ends_the_launch(args: Args, oks: Seq<bool>, k: int)
    requires
        0 <= k < oks.len(),
        !oks[k],
    ensures
        stage_after(args, oks) == Stage::Failed,
    decreases oks.len(),
{
    if k < oks.len() - 1 {
        failure_ends_the_launch(args, oks.drop_last(), k);
    }
}

/// The command runs only once everything that was asked for is in force.
pub proof fn command_runs_restricted(args: Args, oks: Seq<bool>)
    requires
        stage_after(args, oks) == Stage::Exec,
    ensures
        args.wants_landlock() ==> carried_out(args, oks, Stage::EnforceLandlock),
        !args.allow_new_privs ==> carried_out(args, oks, Stage::NoNewPrivs),
        args.drop_caps ==> carried_out(args, oks, Stage::DropCaps),
        args.seccomp_filter@.len() > 0 ==> carried_out(args, oks, Stage::InstallSeccomp),
        args.user is Some ==> carried_out(args, oks, Stage::SetGroups) && carried_out(
            args,
            oks,
            Stage::SetGids,
        ) && carried_out(args, oks, Stage::SetUids),
        carried_out(args, oks, Stage::CloseFds),
{
    if args.wants_landlock() {
        earlier_steps_succeeded(args, oks, Stage::EnforceLandlock);
    }
    if !args.allow_new_privs {
        earlier_steps_succeeded(args, oks, Stage::NoNewPrivs);
    }
    if args.drop_caps {
        earlier_steps_succeeded(args, oks, Stage::DropCaps);
    }
    if args.seccomp_filter@.len() > 0 {
        earlier_steps_succeeded(args, oks, Stage::InstallSeccomp);
    }
    if args.user is Some {
        earlier_steps_succeeded(args, oks, Stage::SetGroups);
        earlier_steps_succeeded(args, oks, Stage::SetGids);
        earlier_steps_succeeded(args, oks, Stage::SetUids);
    }
    earlier_steps_succeeded(args, oks, Stage::CloseFds);
}

/// The process takes on the identity of the user only after every restriction
/// that was asked for is in force, and its groups before its user.
pub proof fn identity_changes_last(args: Args, oks: Seq<bool>)
    requires
        ({
            let stage = stage_after(args, oks);
            stage == Stage::SetGroups || stage == Stage::SetGids || stage == Stage::SetUids
        }),
    ensures
        args.wants_landlock() ==> carried_out(args, oks, Stage::EnforceLandlock),
        !args.allow_new_privs ==> carried_out(args, oks, Stage::NoNewPrivs),
        args.drop_caps ==> carried_out(args, oks, Stage::DropCaps),
        args.seccomp_filter@.len() > 0 ==> carried_out(args, oks, Stage::InstallSeccomp),
        stage_after(args, oks) == Stage::SetUids ==> carried_out(args, oks, Stage::SetGroups)
            && carried_out(args, oks, Stage::SetGids),
{
    if args.wants_landlock() {
        earlier_steps_succeeded(args, oks, Stage::EnforceLandlock);
    }
    if !args.allow_new_privs {
        earlier_steps_succeeded(args, oks, Stage::NoNewPrivs);
    }
    if args.drop_caps {
        earlier_steps_succeeded(args, oks, Stage::DropCaps);
    }
    if args.seccomp_filter@.len() > 0 {
        earlier_steps_succeeded(args, oks, Stage::InstallSeccomp);
    }
    if stage_after(args, oks) == Stage::SetUids {
        lemma_stage_is_enabled(args, oks);
        earlier_steps_succeeded(args, oks, Stage::SetGroups);
        earlier_steps_succeeded(args, oks, Stage::SetGids);
    }
}

/// Every step that is taken is part of the launch.
proof fn lemma_stage_is_enabled(args: Args, oks: Seq<bool>)
    ensures
        enabled(args, stage_after(args, oks)),
{
    if oks.len() == 0 {
        lemma_first_enabled(args, Stage::ResolveUser);
    } else {
        lemma_first_enabled(args, successor(stage_after(args, oks.drop_last())));
    }
}

/// The user and the command are looked up before Landlock can hide what the
/// lookup needs.
pub proof fn lookups_come_before_landlock(args: Args, oks: Seq<bool>)
    requires
        stage_after(args, oks) == Stage::EnforceLandlock,
    ensures
        args.user is Some ==> carried_out(args, oks, Stage::ResolveUser),
        carried_out(args, oks, Stage::ResolveCommand),
{
    if args.user is Some {
        earlier_steps_succeeded(args, oks, Stage::ResolveUser);
    }
    earlier_steps_succeeded(args, oks, Stage::ResolveCommand);
}

/// Once the paths that were asked for are allowed, the command may be read and
/// executed, whatever is allowed before and after.
pub proof fn command_is_allowed(
    args: Args,
    cmd: Seq<u8>,
    found: Seq<Seq<u8>>,
    grants: Grants,
    probes: Seq<ProbeView>,
    more: Seq<RequestView>,
    more_probes: Seq<ProbeView>,
)
    requires
        probes.len() == stage_requests(args, Stage::AllowPaths, cmd, found).len(),
        more.len() == more_probes.len(),
        probes.last().exists,
    ensures
        covers(
            rights_at(
                granted_all(
                    granted_all(
                        grants,
                        stage_requests(args, Stage::AllowPaths, cmd, found),
                        probes,
                    ),
                    more,
                    more_probes,
                ),
                components_of(normalized(cmd, true, probes.last().canonical)),
            ),
            exec_bits(),
        ),
{
    let requests = stage_requests(args, Stage::AllowPaths, cmd, found);
    let n = requests.len() - 1;
    assert(path_requests(seq![cmd], exec_bits(), true).len() == 1);
    assert(requests[n] == (RequestView { path: cmd, access: exec_bits(), must_exist: true }));
    requests_stay_met(grants, requests, probes, n, more, more_probes);
}

/// A launch ends: after as many steps as there are, it is over.
pub proof fn launches_end(args: Args, oks: Seq<bool>)
    ensures
        stage_after(args, oks) == Stage::Failed || rank(stage_after(args, oks)) >= oks.len(),
        oks.len() >= rank(Stage::Failed) ==> stage_after(args, oks) == Stage::Failed,
    decreases oks.len(),
{
    if oks.len() > 0 {
        launches_end(args, oks.drop_last());
        lemma_first_enabled(args, successor(stage_after(args, oks.drop_last())));
    }
}

/// The rights that a step asks for on the paths it found out.
pub open spec fn found_rights(stage: Stage) -> u64 {
    if stage == Stage::AllowInterpreter || stage == Stage::AllowLoader {
        exec_bits()
    } else {
        read_file_bits()
    }
}

/// Whether a step finds out paths of its own.
pub open spec fn finds_paths(stage: Stage) -> bool {
    stage == Stage::AllowInterpreter || stage == Stage::AllowLoader || stage
        == Stage::AllowLibraries || stage == Stage::AllowNss
}

/// What the file system says of the paths of requests.
pub open spec fn looked_up(
    requests: Seq<RequestView>,
    look: spec_fn(Seq<u8>) -> ProbeView,
) -> Seq<ProbeView> {
    requests.map_values(|r: RequestView| look(r.path))
}

/// Once a step succeeded, every path that it found out exists and has the rights
/// that the step is about, whatever is allowed before and after: interpreters and
/// loaders may be executed and read, libraries and modules may be read.
pub proof fn found_paths_are_allowed(
    args: Args,
    stage: Stage,
    cmd: Seq<u8>,
    found: Seq<Seq<u8>>,
    i: int,
    look: spec_fn(Seq<u8>) -> ProbeView,
    grants: Grants,
    more: Seq<RequestView>,
    more_probes: Seq<ProbeView>,
)
    requires
        finds_paths(stage),
        0 <= i < found.len(),
        more.len() == more_probes.len(),
        forall|k: int|
            0 <= k < stage_requests(args, stage, cmd, found).len() ==> !refused(
                #[trigger] stage_requests(args, stage, cmd, found)[k],
                looked_up(stage_requests(args, stage, cmd, found), look)[k],
            ),
    ensures
        look(found[i]).exists,
        covers(
            rights_at(
                granted_all(
                    granted_all(
                        grants,
                        stage_requests(args, stage, cmd, found),
                        looked_up(stage_requests(args, stage, cmd, found), look),
                    ),
                    more,
                    more_probes,
                ),
                components_of(normalized(found[i], true, look(found[i]).canonical)),
            ),
            found_rights(stage),
        ),
{
    let requests = stage_requests(args, stage, cmd, found);
    let probes = looked_up(requests, look);
    let before: nat = if stage == Stage::AllowLibraries {
        ld_so_requests().len()
    } else if stage == Stage::AllowNss {
        nss_file_requests().len()
    } else {
        0
    };
    let k = before + i;
    assert(path_requests(found, found_rights(stage), true)[i] == (RequestView {
        path: found[i],
        access: found_rights(stage),
        must_exist: true,
    }));
    assert(requests[k] == path_requests(found, found_rights(stage), true)[i]);
    assert(!refused(requests[k], probes[k]));
    requests_stay_met(grants, requests, probes, k, more, more_probes);
}

/// The interpreter of a script is found out, and once it is allowed it may be
/// executed and read, whatever is allowed before and after.
pub proof fn script_interpreters_are_allowed(
    args: Args,
    cmd: Seq<u8>,
    contents: Seq<u8>,
    interpreter: Seq<u8>,
    look: spec_fn(Seq<u8>) -> ProbeView,
    grants: Grants,
    more: Seq<RequestView>,
    more_probes: Seq<ProbeView>,
)
    requires
        shebang(contents) == Some(interpreter),
        look(interpreter).exists,
        more.len() == more_probes.len(),
    ensures
        absolute(interpreter),
        found_in(Stage::AllowInterpreter, ReadingView::Contents(contents)) == seq![interpreter],
        ({
            let requests = stage_requests(
                args,
                Stage::AllowInterpreter,
                cmd,
                found_in(Stage::AllowInterpreter, ReadingView::Contents(contents)),
            );
            covers(
                rights_at(
                    granted_all(
                        granted_all(grants, requests, looked_up(requests, look)),
                        more,
                        more_probes,
                    ),
                    components_of(normalized(interpreter, true, look(interpreter).canonical)),
                ),
                exec_bits(),
            )
        }),
{
    interpreters_are_absolute(contents);
    let found = seq![interpreter];
    found_paths_are_allowed(
        args,
        Stage::AllowInterpreter,
        cmd,
        found,
        0,
        look,
        grants,
        more,
        more_probes,
    );
}

/// Any single wish that takes Landlock is enough for it, whatever else is asked for,
/// and without any such wish it is left alone.
pub proof fn any_restriction_takes_landlock(args: Args)
    ensures
        args.ro@.len() > 0 ==> args.wants_landlock(),
        args.rox@.len() > 0 ==> args.wants_landlock(),
        args.rw@.len() > 0 ==> args.wants_landlock(),
        args.rwx@.len() > 0 ==> args.wants_landlock(),
        args.default_libs ==> args.wants_landlock(),
        args.resolve_libs ==> args.wants_landlock(),
        args.allow_nss ==> args.wants_landlock(),
        args.net.connect_ports@.len() > 0 ==> args.wants_landlock(),
        args.net.bind_ports@.len() > 0 ==> args.wants_landlock(),
        args.net.deny_connect ==> args.wants_landlock(),
        args.net.deny_bind ==> args.wants_landlock(),
        args.net.scope_abstract_unix_socket ==> args.wants_landlock(),
        ({
            &&& args.ro@.len() == 0
            &&& args.rox@.len() == 0
            &&& args.rw@.len() == 0
            &&& args.rwx@.len() == 0
            &&& !args.default_libs
            &&& !args.resolve_libs
            &&& !args.allow_nss
            &&& args.net.connect_ports@.len() == 0
            &&& args.net.bind_ports@.len() == 0
            &&& !args.net.deny_connect
            &&& !args.net.deny_bind
            &&& !args.net.scope_abstract_unix_socket
        }) ==> !args.wants_landlock(),
{
}

/// A command that was to be restricted in any way that takes Landlock runs only under
/// Landlock, after the paths that were asked for, the command, and its interpreter
/// were allowed. A command that was not runs without it.
pub proof fn restricted_commands_run_under_landlock(args: Args, oks: Seq<bool>)
    requires
        stage_after(args, oks) == Stage::Exec,
    ensures
        args.ro@.len() > 0 ==> under_landlock(args, oks),
        args.rox@.len() > 0 ==> under_landlock(args, oks),
        args.rw@.len() > 0 ==> under_landlock(args, oks),
        args.rwx@.len() > 0 ==> under_landlock(args, oks),
        args.default_libs ==> under_landlock(args, oks),
        args.resolve_libs ==> under_landlock(args, oks),
        args.allow_nss ==> under_landlock(args, oks),
        args.net.connect_ports@.len() > 0 ==> under_landlock(args, oks),
        args.net.bind_ports@.len() > 0 ==> under_landlock(args, oks),
        args.net.deny_connect ==> under_landlock(args, oks),
        args.net.deny_bind ==> under_landlock(args, oks),
        args.net.scope_abstract_unix_socket ==> under_landlock(args, oks),
        ({
            &&& args.ro@.len() == 0
            &&& args.rox@.len() == 0
            &&& args.rw@.len() == 0
            &&& args.rwx@.len() == 0
            &&& !args.default_libs
            &&& !args.resolve_libs
            &&& !args.allow_nss
            &&& args.net.connect_ports@.len() == 0
            &&& args.net.bind_ports@.len() == 0
            &&& !args.net.deny_connect
            &&& !args.net.deny_bind
            &&& !args.net.scope_abstract_unix_socket
        }) ==> !carried_out(args, oks, Stage::EnforceLandlock),
{
    any_restriction_takes_landlock(args);
    if args.wants_landlock() {
        earlier_steps_succeeded(args, oks, Stage::AllowPaths);
        earlier_steps_succeeded(args, oks, Stage::AllowInterpreter);
        earlier_steps_succeeded(args, oks, Stage::EnforceLandlock);
    } else if carried_out(args, oks, Stage::EnforceLandlock) {
        lemma_done_is_enabled(args, oks, Stage::EnforceLandlock);
    }
}

/// Whether Landlock was put in force, after its allowlist was filled.
pub open spec fn under_landlock(args: Args, oks: Seq<bool>) -> bool {
    &&& carried_out(args, oks, Stage::AllowPaths)
    &&& carried_out(args, oks, Stage::AllowInterpreter)
    &&& carried_out(args, oks, Stage::EnforceLandlock)
}

proof fn lemma_done_is_enabled(args: Args, oks: Seq<bool>, stage: Stage)
    requires
        carried_out(args, oks, stage),
    ensures
        enabled(args, stage),
{
    let k = choose|k: int| done_at(args, oks, stage, k);
    lemma_stage_is_enabled(args, oks.take(k));
}

/// The allowlist is complete before it is put in force: every step that adds to it
/// and was asked for has been taken.
pub proof fn the_allowlist_is_filled_first(args: Args, oks: Seq<bool>)
    requires
        stage_after(args, oks) == Stage::EnforceLandlock,
    ensures
        carried_out(args, oks, Stage::AllowPaths),
        carried_out(args, oks, Stage::AllowInterpreter),
        args.default_libs ==> carried_out(args, oks, Stage::AllowDefaultLibs),
        args.resolve_libs ==> carried_out(args, oks, Stage::AllowLoader) && carried_out(
            args,
            oks,
            Stage::AllowLibraries,
        ),
        args.allow_nss ==> carried_out(args, oks, Stage::AllowNss),
{
    lemma_stage_is_enabled(args, oks);
    earlier_steps_succeeded(args, oks, Stage::AllowPaths);
    earlier_steps_succeeded(args, oks, Stage::AllowInterpreter);
    if args.default_libs {
        earlier_steps_succeeded(args, oks, Stage::AllowDefaultLibs);
    }
    if args.resolve_libs {
        earlier_steps_succeeded(args, oks, Stage::AllowLoader);
        earlier_steps_succeeded(args, oks, Stage::AllowLibraries);
    }
    if args.allow_nss {
        earlier_steps_succeeded(args, oks, Stage::AllowNss);
    }
}

/// Nothing is done that was not asked for.
pub proof fn only_what_was_asked_for_is_done(args: Args, oks: Seq<bool>)
    ensures
        carried_out(args, oks, Stage::ResolveUser) ==> args.user is Some,
        carried_out(args, oks, Stage::AllowDefaultLibs) ==> args.default_libs,
        carried_out(args, oks, Stage::AllowLoader) ==> args.resolve_libs,
        carried_out(args, oks, Stage::AllowLibraries) ==> args.resolve_libs,
        carried_out(args, oks, Stage::AllowNss) ==> args.allow_nss,
        carried_out(args, oks, Stage::NoNewPrivs) ==> !args.allow_new_privs,
        carried_out(args, oks, Stage::DropCaps) ==> args.drop_caps,
        carried_out(args, oks, Stage::InstallSeccomp) ==> args.seccomp_filter@.len() > 0,
        carried_out(args, oks, Stage::SetGroups) ==> args.user is Some,
        carried_out(args, oks, Stage::SetGids) ==> args.user is Some,
        carried_out(args, oks, Stage::SetUids) ==> args.user is Some,
{
    assert forall|stage: Stage| #[trigger] carried_out(args, oks, stage) implies enabled(
        args,
        stage,
    ) by {
        lemma_done_is_enabled(args, oks, stage);
    }
}

/// Later restrictions come after earlier ones, each only once what comes before it
/// is in force: Landlock, then no new privileges, capabilities, system calls, groups,
/// group ids, user ids, and descriptors last.
pub proof fn restrictions_come_one_after_the_other(args: Args, oks: Seq<bool>)
    ensures
        ({
            let stage = stage_after(args, oks);
            let done = |s: Stage| carried_out(args, oks, s);
            let landlock = args.wants_landlock() ==> done(Stage::EnforceLandlock);
            let privs = !args.allow_new_privs ==> done(Stage::NoNewPrivs);
            let caps = args.drop_caps ==> done(Stage::DropCaps);
            let calls = args.seccomp_filter@.len() > 0 ==> done(Stage::InstallSeccomp);
            let groups = args.user is Some ==> done(Stage::SetGroups);
            let gids = args.user is Some ==> done(Stage::SetGids);
            let uids = args.user is Some ==> done(Stage::SetUids);
            &&& stage == Stage::NoNewPrivs ==> landlock
            &&& stage == Stage::DropCaps ==> landlock && privs
            &&& stage == Stage::InstallSeccomp ==> landlock && privs && caps
            &&& stage == Stage::SetGroups ==> landlock && privs && caps && calls
            &&& stage == Stage::SetGids ==> landlock && privs && caps && calls && groups
            &&& stage == Stage::SetUids ==> landlock && privs && caps && calls && groups && gids
            &&& stage == Stage::CloseFds ==> landlock && privs && caps && calls && groups && gids
                && uids
            &&& stage == Stage::AllowPaths ==> done(Stage::ResolveCommand)
            &&& stage == Stage::AllowLibraries ==> done(Stage::AllowLoader)
        }),
{
    let stage = stage_after(args, oks);
    assert forall|s: Stage|
        stage != Stage::Failed && enabled(args, s) && rank(s) < rank(stage) implies #[trigger] carried_out(
        args,
        oks,
        s,
    ) by {
        earlier_steps_succeeded(args, oks, s);
    }
    lemma_stage_is_enabled(args, oks);
}

/// As many successes in a row.
pub open spec fn successes(n: nat) -> Seq<bool> {
    Seq::new(n, |i: int| true)
}

/// A launch in which every step succeeds gets to execute the command.
pub proof fn successful_launches_execute(args: Args) -> (n: nat)
    ensures
        n <= 16,
        stage_after(args, successes(n)) == Stage::Exec,
{
    lemma_first_enabled(args, Stage::ResolveUser);
    assert(enabled(args, Stage::Exec));
    assert(stage_after(args, successes(0)) == first_enabled(args, Stage::ResolveUser));
    lemma_reaches_exec(args, 0)
}

proof fn lemma_reaches_exec(args: Args, k: nat) -> (n: nat)
    requires
        k <= rank(stage_after(args, successes(k))) <= rank(Stage::Exec),
    ensures
        n <= 16,
        stage_after(args, successes(n)) == Stage::Exec,
    decreases 16 - rank(stage_after(args, successes(k))),
{
    let stage = stage_after(args, successes(k));
    if stage == Stage::Exec {
        k
    } else {
        let more = successes(k + 1);
        assert(more.drop_last() =~= successes(k));
        lemma_first_enabled(args, successor(stage));
        assert(enabled(args, Stage::Exec));
        lemma_reaches_exec(args, k + 1)
    }
}

/// What is asked for on which paths, at the first step that adds to the allowlist:
/// reading and listing for read-only paths, executing as well for read-execute paths,
/// every change for read-write paths, all rights for read-write-execute paths, and
/// executing and reading for the command. All of them must exist.
pub proof fn paths_are_asked_for_with_their_rights(
    args: Args,
    cmd: Seq<u8>,
    found: Seq<Seq<u8>>,
    r: RequestView,
)
    ensures
        stage_requests(args, Stage::AllowPaths, cmd, found).contains(r) <==> r.must_exist && {
            ||| r.access == 0xc && views(args.ro@).contains(r.path)
            ||| r.access == 0xd && views(args.rox@).contains(r.path)
            ||| r.access == 0xfffe && views(args.rw@).contains(r.path)
            ||| r.access == 0xffff && views(args.rwx@).contains(r.path)
            ||| r.access == 0x5 && r.path == cmd
        },
{
    let a = path_requests(views(args.ro@), ro_bits(), true);
    let b = path_requests(views(args.rox@), rox_bits(), true);
    let c = path_requests(views(args.rw@), rw_bits(), true);
    let d = path_requests(views(args.rwx@), rwx_bits(), true);
    let one = seq![cmd];
    let e = path_requests(one, exec_bits(), true);
    lemma_asks(views(args.ro@), ro_bits(), r);
    lemma_asks(views(args.rox@), rox_bits(), r);
    lemma_asks(views(args.rw@), rw_bits(), r);
    lemma_asks(views(args.rwx@), rwx_bits(), r);
    lemma_asks(one, exec_bits(), r);
    assert(one.contains(r.path) <==> r.path == cmd) by {
        assert(one[0] == cmd);
    }
    lemma_concat_contains(a, b, r);
    lemma_concat_contains(a + b, c, r);
    lemma_concat_contains(a + b + c, d, r);
    lemma_concat_contains(a + b + c + d, e, r);
}

proof fn lemma_asks(paths: Seq<Seq<u8>>, access: u64, r: RequestView)
    ensures
        path_requests(paths, access, true).contains(r) <==> r.must_exist && r.access == access
            && paths.contains(r.path),
{
    let all = path_requests(paths, access, true);
    if all.contains(r) {
        let i = choose|i: int| 0 <= i < all.len() && all[i] == r;
        assert(paths[i] == r.path);
    }
    if r.must_exist && r.access == access && paths.contains(r.path) {
        let i = choose|i: int| 0 <= i < paths.len() && paths[i] == r.path;
        assert(all[i] == r);
    }
}

proof fn lemma_concat_contains(a: Seq<RequestView>, b: Seq<RequestView>, r: RequestView)
    ensures
        (a + b).contains(r) <==> a.contains(r) || b.contains(r),
{
    let all = a + b;
    if a.contains(r) {
        let i = choose|i: int| 0 <= i < a.len() && a[i] == r;
        assert(all[i] == r);
    }
    if b.contains(r) {
        let i = choose|i: int| 0 <= i < b.len() && b[i] == r;
        assert(all[a.len() + i] == r);
    }
    if all.contains(r) {
        let i = choose|i: int| 0 <= i < all.len() && all[i] == r;
        if i < a.len() {
            assert(a[i] == r);
        } else {
            assert(b[i - a.len()] == r);
        }
    }
}

/// What is asked for at the other steps that add to the allowlist: interpreters and
/// loaders may be executed and read, libraries and modules may be read, and all of
/// these must exist. Beside the libraries that were found, the common library
/// directories and the configuration of the loader are asked for, and beside the
/// modules the files of name services.
pub proof fn found_paths_are_asked_for(
    args: Args,
    cmd: Seq<u8>,
    found: Seq<Seq<u8>>,
    r: RequestView,
)
    ensures
        stage_requests(args, Stage::AllowInterpreter, cmd, found).contains(r) <==> r.must_exist
            && r.access == 0x5 && found.contains(r.path),
        stage_requests(args, Stage::AllowLoader, cmd, found).contains(r) <==> r.must_exist
            && r.access == 0x5 && found.contains(r.path),
        stage_requests(args, Stage::AllowDefaultLibs, cmd, found).contains(r)
            <==> lib_dir_requests().contains(r) || ld_so_requests().contains(r),
        stage_requests(args, Stage::AllowLibraries, cmd, found).contains(r)
            <==> lib_dir_requests().contains(r) || ld_so_requests().contains(r) || (r.must_exist
            && r.access == 0x4 && found.contains(r.path)),
        stage_requests(args, Stage::AllowNss, cmd, found).contains(r)
            <==> nss_file_requests().contains(r) || (r.must_exist && r.access == 0x4
            && found.contains(r.path)),
{
    lemma_asks(found, exec_bits(), r);
    lemma_asks(found, read_file_bits(), r);
    let own = path_requests(found, read_file_bits(), true);
    lemma_concat_contains(lib_dir_requests(), ld_so_requests(), r);
    lemma_concat_contains(ld_so_requests(), own, r);
    lemma_concat_contains(ld_so_requests() + own, lib_dir_requests(), r);
    lemma_concat_contains(nss_file_requests(), own, r);
}

/// What each step finds out from what was read for it, and that no step finds out
/// anything from what was read for another.
pub proof fn steps_find_what_they_are_about(
    data: Seq<u8>,
    reported: Seq<Seq<u8>>,
    probes: Seq<ProbeView>,
    names: Seq<Seq<Seq<u8>>>,
    p: Seq<u8>,
    s: Seq<char>,
)
    ensures
        found_in(Stage::AllowInterpreter, ReadingView::Contents(data)).contains(p) <==> shebang(
            data,
        ) == Some(p),
        elf_parse(data) == Some(Some(s)) ==> found_in(
            Stage::AllowLoader,
            ReadingView::Contents(data),
        ) == seq![encode_utf8(s)],
        elf_parse(data) is None || elf_parse(data) == Some(None::<Seq<char>>) ==> found_in(
            Stage::AllowLoader,
            ReadingView::Contents(data),
        ).len() == 0,
        found_in(Stage::AllowLibraries, ReadingView::Libraries { reported, probes })
            == shared_objects(reported, probes),
        found_in(Stage::AllowNss, ReadingView::Listings(names)) == modules_below(
            nss_dirs(),
            names,
        ),
        found_in(Stage::AllowPaths, ReadingView::Contents(data)).len() == 0,
        found_in(Stage::AllowDefaultLibs, ReadingView::Contents(data)).len() == 0,
        found_in(Stage::AllowLibraries, ReadingView::Contents(data)).len() == 0,
        found_in(Stage::AllowNss, ReadingView::Contents(data)).len() == 0,
{
    let found = found_in(Stage::AllowInterpreter, ReadingView::Contents(data));
    if shebang(data) == Some(p) {
        assert(found[0] == p);
    }
}

/// A launch that is about to execute runs the command that was asked for, argument by
/// argument, as the user that was asked for, without capabilities if that was asked
/// for, and with all inherited descriptors closed.
pub proof fn executing_launches_are_complete(launch: LaunchView, i: int)
    requires
        launch.valid(),
        launch.stage == Stage::Exec,
    ensures
        launch.command is Some,
        launch.command->0@.argv.len() == launch.args.cmd@.len(),
        launch.command->0@.argv.len() > 0,
        launch.command->0@.argv[0] == launch.command->0.path@,
        0 < i < launch.args.cmd@.len() ==> launch.command->0@.argv[i] == launch.args.cmd@[i]@,
        launch.args.user matches Some(spec) ==> launch.user is Some && match parsed_u32(spec@) {
            Some(uid) => launch.user->0.uid == uid,
            None => launch.user->0.name@ == encode_utf8(spec@),
        },
        launch.args.drop_caps ==> launch.caps == CapStage::Done,
        launch.fds == FdStage::Done,
{
    running_keeps_the_arguments(views(launch.args.cmd@), launch.command->0@);
}

/// Capabilities and descriptors are worked on until all is done or something failed,
/// and no longer.
pub proof fn work_goes_on_until_it_is_over(caps: CapStage, fds: FdStage)
    ensures
        caps_over(caps) <==> !(caps is ClearAmbient || caps is ReadEffective || caps is ReadLast
            || caps is DropBounding || caps is ClearSets),
        fds_over(fds) <==> !(fds is CloseRange || fds is ReadLimit || fds is CloseEach),
{
}

} // verus!
