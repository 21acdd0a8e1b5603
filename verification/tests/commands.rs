use restricted_exec::command::{
    build_trace_command, c_string, command_query, copy_all, execv, find_command, has_slash, path_candidates,
    resolve_command, shebang_interpreter, which_in_path, Command, CommandError, CommandQuery,
    ExecError, FileStat,
};

fn args(v: &[&str]) -> Vec<Vec<u8>> {
    v.iter().map(|a| a.as_bytes().to_vec()).collect()
}

fn stat(is_file: bool, mode: u32) -> Option<FileStat> {
    Some(FileStat { is_file, mode })
}

#[test]
fn scripts_name_their_interpreter() {
    assert_eq!(shebang_interpreter(b"#!/bin/sh\necho"), Some(b"/bin/sh".to_vec()));
    assert_eq!(shebang_interpreter(b"#! \t/usr/bin/env python3\n"), Some(b"/usr/bin/env".to_vec()));
    assert_eq!(shebang_interpreter(b"#!/bin/sh"), Some(b"/bin/sh".to_vec()));
    assert_eq!(shebang_interpreter(b"#!/bin/sh\r\n"), Some(b"/bin/sh".to_vec()));
    assert_eq!(shebang_interpreter(b"#!/\xff -x\n"), Some(b"/\xff".to_vec()));
}

#[test]
fn other_files_have_no_interpreter() {
    assert_eq!(shebang_interpreter(b""), None);
    assert_eq!(shebang_interpreter(b"#"), None);
    assert_eq!(shebang_interpreter(b"#!"), None);
    assert_eq!(shebang_interpreter(b"#!\n/bin/sh"), None);
    assert_eq!(shebang_interpreter(b"#!   \n"), None);
    assert_eq!(shebang_interpreter(b"#!sh\n"), None);
    assert_eq!(shebang_interpreter(b" #!/bin/sh\n"), None);
    assert_eq!(shebang_interpreter(b"\x7fELF"), None);
}

#[test]
fn only_the_start_of_a_script_is_looked_at() {
    let mut script = b"#!/".to_vec();
    script.resize(5000, b'a');
    let found = shebang_interpreter(&script).unwrap();
    assert_eq!(found.len(), 4094);
    let mut script = b"#!".to_vec();
    script.resize(4096, b' ');
    script.extend_from_slice(b"/bin/sh\n");
    assert_eq!(shebang_interpreter(&script), None);
}

#[test]
fn a_script_is_traced_through_its_interpreter() {
    let cmd = Command { path: b"/s.py".to_vec(), argv: args(&["/s.py", "-v", "x"]) };
    let traced = build_trace_command(&cmd, &Some(b"/usr/bin/python3".to_vec()));
    assert_eq!(traced.path, b"/usr/bin/python3".to_vec());
    assert_eq!(traced.argv, args(&["/usr/bin/python3", "/s.py", "-v", "x"]));
}

#[test]
fn a_program_is_traced_itself() {
    let cmd = Command { path: b"/bin/ls".to_vec(), argv: args(&["/bin/ls", "-l"]) };
    let traced = build_trace_command(&cmd, &None);
    assert_eq!(traced.path, cmd.path);
    assert_eq!(traced.argv, cmd.argv);
}

#[test]
fn a_slash_makes_a_command_a_path() {
    assert_eq!(command_query(&args(&["./a"])), Ok(CommandQuery::Direct));
    assert_eq!(command_query(&args(&["ls", "/"])), Ok(CommandQuery::Search));
    assert_eq!(command_query(&vec![]), Err(CommandError::Missing));
    assert!(has_slash(b"a/b"));
    assert!(!has_slash(b"ab"));
}

#[test]
fn candidates_follow_the_search_path() {
    assert_eq!(
        path_candidates(b"/usr/bin:/bin/::/sbin", b"ls"),
        args(&["/usr/bin/ls", "/bin/ls", "ls", "/sbin/ls"])
    );
    assert_eq!(path_candidates(b"", b"ls"), args(&["ls"]));
}

#[test]
fn the_first_runnable_candidate_wins() {
    let path = Some(b"/a:/b:/c:/d:/e".to_vec());
    let stats = vec![
        None,
        stat(false, 0o755),
        stat(true, 0o644),
        stat(true, 0o010),
        stat(true, 0o755),
    ];
    assert_eq!(which_in_path(&path, b"x", &stats), Ok(b"/d/x".to_vec()));
}

#[test]
fn a_command_that_is_nowhere_is_an_error() {
    let path = Some(b"/a:/b".to_vec());
    let stats = vec![None, stat(true, 0o600)];
    assert_eq!(which_in_path(&path, b"x", &stats), Err(CommandError::NotFound));
    assert_eq!(which_in_path(&None, b"x", &vec![]), Err(CommandError::PathNotSet));
}

#[test]
fn a_resolved_command_is_its_own_first_argument() {
    let cmd = args(&["sh", "-c", "true"]);
    let r = resolve_command(&cmd, b"/bin/sh", &Some(b"/usr/bin/dash".to_vec()));
    assert_eq!(r.path, b"/usr/bin/dash".to_vec());
    assert_eq!(r.argv, args(&["/usr/bin/dash", "-c", "true"]));
    let r = resolve_command(&cmd, b"/bin/sh", &None);
    assert_eq!(r.path, b"/bin/sh".to_vec());
    assert_eq!(r.argv, args(&["/bin/sh", "-c", "true"]));
    assert_eq!(copy_all(&cmd), cmd);
}

#[test]
fn strings_for_the_kernel_end_in_nul() {
    assert_eq!(c_string(b"ls"), Some(b"ls\0".to_vec()));
    assert_eq!(c_string(b""), Some(b"\0".to_vec()));
    assert_eq!(c_string(b"a\0b"), None);
}

#[test]
fn a_command_is_handed_over_as_c_strings() {
    let cmd = Command { path: b"/bin/ls".to_vec(), argv: args(&["/bin/ls", "-l"]) };
    let v = execv(&cmd).unwrap();
    assert_eq!(v.path, b"/bin/ls\0".to_vec());
    assert_eq!(v.argv, args(&["/bin/ls\0", "-l\0"]));
}

#[test]
fn nul_bytes_stop_a_command() {
    let cmd = Command { path: b"/a\0".to_vec(), argv: args(&["\0"]) };
    assert_eq!(execv(&cmd).unwrap_err(), ExecError::CommandNul);
    let cmd = Command { path: b"/a".to_vec(), argv: args(&["/a", "b\0", "\0"]) };
    assert_eq!(execv(&cmd).unwrap_err(), ExecError::ArgumentNul(1));
}

#[test]
fn interpreters_are_absolute_paths_without_white_space() {
    for script in [&b"#!/bin/sh -e x\n"[..], b"#!./sh\n", b"#!\t/a\x0cb", b"#!env python"] {
        if let Some(p) = shebang_interpreter(script) {
            assert_eq!(p[0], b'/');
            assert!(!p.iter().any(|b| b.is_ascii_whitespace()));
        }
    }
    assert_eq!(shebang_interpreter(b"#!\t/a\x0cb"), Some(b"/a".to_vec()));
}

#[test]
fn a_command_is_found_where_it_says_or_along_the_search_path() {
    let path = Some(b"/a:/b".to_vec());
    let stats = vec![None, stat(true, 0o755)];
    assert_eq!(find_command(&args(&["./x", "y"]), &None, &vec![]), Ok(b"./x".to_vec()));
    assert_eq!(find_command(&args(&["x"]), &path, &stats), Ok(b"/b/x".to_vec()));
    assert_eq!(find_command(&vec![], &path, &stats), Err(CommandError::Missing));
    assert_eq!(find_command(&args(&["x"]), &None, &vec![]), Err(CommandError::PathNotSet));
    let stats = vec![None, stat(false, 0o755)];
    assert_eq!(find_command(&args(&["x"]), &path, &stats), Err(CommandError::NotFound));
}
