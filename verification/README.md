# restricted-exec

A command launcher that restricts what it launches: a Landlock allowlist for the
file system, TCP ports and abstract UNIX sockets, a seccomp filter, no new
privileges, no capabilities, and another user.

```
restricted-exec [OPTIONS] -- COMMAND [ARGS]...
```

## Layout

- `src/` is a Verus library that holds every decision: which steps a launch takes
  and in which order, which paths are allowed and with which rights, which calls
  make up a Landlock ruleset, which system calls are blocked by which rules, how
  capabilities are given up, and what is handed to the kernel. Nothing in it touches
  the system.
- `app/` is the program around it. It parses the command line, makes the system
  calls, and hands back what came of them.
- `tests/` runs the library on concrete values.

## Steps of a launch

`launch::Launch` is at one step at a time and tells which. The user and the command
are looked up first. Then the allowlist is filled and put in force, new privileges
are ruled out, capabilities are dropped, system calls are blocked, the identity of
the user is taken on, and inherited file descriptors are closed. The command is
executed last. A step that was not asked for is passed over, and a step that fails
ends the launch.

## What is trusted

The bits of Landlock rights come from the `landlock` crate, namespace flags, error
numbers and the flag of `close_range` from `libc`, the interpreter of an ELF file from `goblin`, and UTF-8
decoding from the standard library. The functions that call them say in their
contracts what is taken from there.
