use restricted_exec::allow::Probe;
use restricted_exec::elf::{elf_interpreter, interpreter_path};
use restricted_exec::trace::{
    collect_shared_objects, resolve_used_shared_objects, trace_line, traced_libraries,
};

fn paths(v: &[&str]) -> Vec<Vec<u8>> {
    v.iter().map(|p| p.as_bytes().to_vec()).collect()
}

/// A 64-bit ELF file with one program header, of the given type, over `body`.
fn elf_file(header_type: u32, body: &[u8]) -> Vec<u8> {
    let mut f: Vec<u8> = vec![0x7f, b'E', b'L', b'F', 2, 1, 1, 0];
    f.extend_from_slice(&[0; 8]);
    f.extend_from_slice(&2u16.to_le_bytes());
    f.extend_from_slice(&62u16.to_le_bytes());
    f.extend_from_slice(&1u32.to_le_bytes());
    f.extend_from_slice(&0x400000u64.to_le_bytes());
    f.extend_from_slice(&64u64.to_le_bytes());
    f.extend_from_slice(&0u64.to_le_bytes());
    f.extend_from_slice(&0u32.to_le_bytes());
    for n in [64u16, 56, 1, 64, 0, 0] {
        f.extend_from_slice(&n.to_le_bytes());
    }
    f.extend_from_slice(&header_type.to_le_bytes());
    f.extend_from_slice(&4u32.to_le_bytes());
    for n in [120u64, 0, 0, body.len() as u64, body.len() as u64, 1] {
        f.extend_from_slice(&n.to_le_bytes());
    }
    f.extend_from_slice(body);
    f
}

#[test]
fn a_line_with_an_arrow_names_what_follows_it() {
    let line = "\tlibc.so.6 => /lib/x86_64-linux-gnu/libc.so.6 (0x00007f0000000000)";
    assert_eq!(trace_line(line), Some(b"/lib/x86_64-linux-gnu/libc.so.6".to_vec()));
}

#[test]
fn a_line_without_an_arrow_names_its_first_word() {
    let line = "  /lib64/ld-linux-x86-64.so.2 (0x00007f0000000000)";
    assert_eq!(trace_line(line), Some(b"/lib64/ld-linux-x86-64.so.2".to_vec()));
}

#[test]
fn virtual_and_missing_libraries_are_passed_over() {
    assert_eq!(trace_line("linux-vdso.so.1 (0x00007ffd00000000)"), None);
    assert_eq!(trace_line("libfoo.so => not found"), None);
    assert_eq!(trace_line("libfoo.so => relative/libfoo.so (0x0)"), None);
    assert_eq!(trace_line("libfoo.so =>"), None);
    assert_eq!(trace_line(""), None);
    assert_eq!(trace_line("   "), None);
    assert_eq!(trace_line("statically linked"), None);
}

#[test]
fn the_first_arrow_counts() {
    assert_eq!(trace_line("a => /b => /c"), Some(b"/b".to_vec()));
    assert_eq!(trace_line("/x=>/y"), Some(b"/y".to_vec()));
    assert_eq!(trace_line("\u{a0}/x\u{3000}y\r"), Some(b"/x".to_vec()));
}

#[test]
fn a_report_is_read_line_by_line() {
    let report = "linux-vdso.so.1 (0x1)\r\n\nliba.so => /lib/liba.so (0x2)\n/lib64/ld.so (0x3)";
    assert_eq!(traced_libraries(report), paths(&["/lib/liba.so", "/lib64/ld.so"]));
    assert_eq!(traced_libraries("/x\n"), paths(&["/x"]));
    assert!(traced_libraries("").is_empty());
}

#[test]
fn both_outputs_of_a_trace_are_read() {
    let found = resolve_used_shared_objects(true, b"a => /a.so", b"/b.so (0x1)\n").unwrap();
    assert_eq!(found, paths(&["/a.so", "/b.so"]));
}

#[test]
fn bytes_that_are_not_text_are_replaced() {
    let found = resolve_used_shared_objects(true, b"/a\xff.so (0x1)\n", b"\xfe").unwrap();
    assert_eq!(found, vec!["/a\u{fffd}.so".as_bytes().to_vec()]);
    let found = resolve_used_shared_objects(true, "/\u{e4}.so".as_bytes(), b"").unwrap();
    assert_eq!(found, vec!["/\u{e4}.so".as_bytes().to_vec()]);
}

#[test]
fn a_trace_that_fails_hands_back_what_it_wrote() {
    let e = resolve_used_shared_objects(false, b"out\xff", b"err").unwrap_err();
    assert_eq!(e.stdout, "out\u{fffd}");
    assert_eq!(e.stderr, "err");
}

#[test]
fn libraries_that_exist_are_kept_sorted_and_once() {
    let reported = paths(&["/usr/lib/b.so", "/lib/a.so", "/lib/gone.so", "/lib/b.so", "/z.so"]);
    let probe = |exists: bool, canonical: Option<&str>| Probe {
        exists,
        canonical: canonical.map(|c| c.as_bytes().to_vec()),
    };
    let probes = vec![
        probe(true, Some("/usr/lib/b.so")),
        probe(true, Some("/usr/lib/a.so")),
        probe(false, None),
        probe(true, Some("/usr/lib/b.so")),
        probe(true, None),
    ];
    assert_eq!(
        collect_shared_objects(&reported, &probes),
        paths(&["/usr/lib/a.so", "/usr/lib/b.so", "/z.so"])
    );
}

#[test]
fn an_elf_file_names_its_interpreter() {
    let file = elf_file(3, b"/lib64/ld-linux-x86-64.so.2\0");
    assert_eq!(elf_interpreter(&file), Some(b"/lib64/ld-linux-x86-64.so.2".to_vec()));
}

#[test]
fn an_elf_file_without_interpreter_has_none() {
    assert_eq!(elf_interpreter(&elf_file(4, b"/lib64/ld.so\0")), None);
}

#[test]
fn a_file_that_is_not_elf_has_no_interpreter() {
    assert_eq!(elf_interpreter(b"#!/bin/sh\necho\n"), None);
    assert_eq!(elf_interpreter(b""), None);
    assert_eq!(elf_interpreter(&elf_file(3, b"/x\0")[..40]), None);
}

#[test]
fn the_interpreter_is_what_parsing_found() {
    assert_eq!(interpreter_path(None), None);
    assert_eq!(interpreter_path(Some(None)), None);
    assert_eq!(interpreter_path(Some(Some("/ld.so".to_string()))), Some(b"/ld.so".to_vec()));
}

#[test]
fn only_absolute_paths_are_reported() {
    let report = "a => b.so\nc.so\n=> /d.so\n\t./e.so (0x1)\n/f.so";
    assert_eq!(traced_libraries(report), paths(&["/d.so", "/f.so"]));
}
