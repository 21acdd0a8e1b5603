//! The program interpreter of an ELF file.

use crate::path::opt_view;
use vstd::prelude::*;
use vstd::utf8::encode_utf8;

verus! {

/// The error that `goblin` reports.
#[verifier::external_type_specification]
#[verifier::external_body]
pub struct ExElfError(goblin::error::Error);

/// What `goblin::elf::Elf::parse` finds in a file: nothing if it cannot read the
/// file as ELF, else the interpreter, if the file names one.
pub uninterp spec fn elf_parse(data: Seq<u8>) -> Option<Option<Seq<char>>>;

/// `goblin::elf::Elf::parse`, and of what it returns the `interpreter`. The
/// result depends on the bytes alone.
#[verifier::external_body]
fn parse_interpreter(data: &[u8]) -> (r: Result<Option<String>, goblin::error::Error>)
    ensures
        r is Err <==> elf_parse(data@) is None,
        r matches Ok(i) ==> elf_parse(data@) == Some(
            match i {
                Some(s) => Some(s@),
                None => None,
            },
        ),
{
    let elf = goblin::elf::Elf::parse(data)?;
    Ok(elf.interpreter.map(String::from))
}

/// The path of the interpreter that was found, if any.
pub open spec fn interpreter_bytes(parsed: Option<Option<Seq<char>>>) -> Option<Seq<u8>> {
    match parsed {
        Some(Some(s)) => Some(encode_utf8(s)),
        _ => None,
    }
}

/// The path of an interpreter, given what parsing found: `None` if the file is not
/// ELF, else the interpreter, if there is one. A file that is not ELF has no
/// interpreter.
pub fn interpreter_path(parsed: Option<Option<String>>) -> (r: Option<Vec<u8>>)
    ensures
        opt_view(r) == interpreter_bytes(
            match parsed {
                Some(Some(s)) => Some(Some(s@)),
                Some(None) => Some(None),
                None => None,
            },
        ),
{
    match parsed {
        Some(Some(s)) => Some(s.as_str().as_bytes_vec()),
        _ => None,
    }
}

/// The interpreter that an ELF file names. A file that is not ELF, or that names
/// none, has none.
pub fn elf_interpreter(data: &[u8]) -> (r: Option<Vec<u8>>)
    ensures
        opt_view(r) == interpreter_bytes(elf_parse(data@)),
{
    match parse_interpreter(data) {
        Ok(i) => interpreter_path(Some(i)),
        Err(_) => interpreter_path(None),
    }
}

/// The interpreter that a file names is taken byte for byte, and a file that is not
/// ELF, or names none, has none.
pub proof fn interpreters_are_taken_as_named(s: Seq<char>)
    ensures
        interpreter_bytes(Some(Some(s))) == Some(encode_utf8(s)),
        interpreter_bytes(Some(None)) is None,
        interpreter_bytes(None) is None,
{
}

} // verus!
