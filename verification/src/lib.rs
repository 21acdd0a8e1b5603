//! The decisions behind a command launcher that restricts what it launches.
//!
//! A launch is a series of steps, and [`launch::Launch`] says which step comes next
//! and what it takes. What a step has to work out stands in a module of its own:
//! which paths are allowed and with which rights, which Landlock calls put that in
//! force, which system calls are blocked by which rules, how capabilities are given
//! up, and who the command is run as. Whatever touches the system is left to the
//! caller, who hands back what came of it.

pub mod access;
pub mod allow;
pub mod bytes;
pub mod caps;
pub mod command;
pub mod defaults;
pub mod elf;
pub mod fds;
pub mod launch;
pub mod order;
pub mod path;
pub mod pathset;
pub mod ruleset;
pub mod seccomp;
pub mod syscall;
pub mod text;
pub mod trace;
pub mod user;
