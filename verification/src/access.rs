//! Landlock access rights as bit sets.

use vstd::prelude::*;

verus! {

/// The Landlock interface versions that rights are chosen for.
#[derive(Debug, Clone, Copy, PartialEq, Eq, Structural)]
pub enum LandlockAbi {
    V1,
    V2,
    V3,
    V4,
    V5,
    V6,
}

/// The newest interface version that the launcher makes use of.
pub const ABI_CEILING: LandlockAbi = LandlockAbi::V6;

/// The file system rights that are granted one by one.
#[derive(Debug, Clone, Copy, PartialEq, Eq, Structural)]
pub enum FsRight {
    Execute,
    ReadFile,
    ReadDir,
}

/// The network rights.
#[derive(Debug, Clone, Copy, PartialEq, Eq, Structural)]
pub enum NetRight {
    BindTcp,
    ConnectTcp,
}

/// The bit of each file system right.
pub open spec fn fs_bit(right: FsRight) -> u64 {
    match right {
        FsRight::Execute => 0x1,
        FsRight::ReadFile => 0x4,
        FsRight::ReadDir => 0x8,
    }
}

/// The bit of each network right.
pub open spec fn net_bit(right: NetRight) -> u64 {
    match right {
        NetRight::BindTcp => 0x1,
        NetRight::ConnectTcp => 0x2,
    }
}

/// All rights that change the file system: write, remove and make of every
/// kind, then, as the versions added them, refer, truncate and device ioctl.
pub open spec fn write_bits(abi: LandlockAbi) -> u64 {
    match abi {
        LandlockAbi::V1 => 0x1ff2,
        LandlockAbi::V2 => 0x3ff2,
        LandlockAbi::V3 | LandlockAbi::V4 => 0x7ff2,
        LandlockAbi::V5 | LandlockAbi::V6 => 0xfff2,
    }
}

/// All rights: the changing ones, and execute, read file and read directory.
pub open spec fn all_bits(abi: LandlockAbi) -> u64 {
    match abi {
        LandlockAbi::V1 => 0x1fff,
        LandlockAbi::V2 => 0x3fff,
        LandlockAbi::V3 | LandlockAbi::V4 => 0x7fff,
        LandlockAbi::V5 | LandlockAbi::V6 => 0xffff,
    }
}

/// The rights that make sense for something that is not a directory: execute,
/// write file, read file, and, as the versions added them, truncate and device
/// ioctl.
pub open spec fn file_bits(abi: LandlockAbi) -> u64 {
    match abi {
        LandlockAbi::V1 | LandlockAbi::V2 => 0x7,
        LandlockAbi::V3 | LandlockAbi::V4 => 0x4007,
        LandlockAbi::V5 | LandlockAbi::V6 => 0xc007,
    }
}

/// The value of a `landlock::AccessFs` variant: one bit per right, as the kernel
/// interface numbers them.
#[verifier::external_body]
fn access_fs(right: FsRight) -> (r: u64)
    ensures
        r == fs_bit(right),
{
    match right {
        FsRight::Execute => landlock::AccessFs::Execute as u64,
        FsRight::ReadFile => landlock::AccessFs::ReadFile as u64,
        FsRight::ReadDir => landlock::AccessFs::ReadDir as u64,
    }
}

/// The value of a `landlock::AccessNet` variant.
#[verifier::external_body]
pub(crate) fn access_net(right: NetRight) -> (r: u64)
    ensures
        r == net_bit(right),
{
    match right {
        NetRight::BindTcp => landlock::AccessNet::BindTcp as u64,
        NetRight::ConnectTcp => landlock::AccessNet::ConnectTcp as u64,
    }
}

/// `landlock::AccessFs::from_write`: the rights of a version that change the file
/// system.
#[verifier::external_body]
fn access_fs_from_write(abi: LandlockAbi) -> (r: u64)
    ensures
        r == write_bits(abi),
{
    let abi = match abi {
        LandlockAbi::V1 => landlock::ABI::V1,
        LandlockAbi::V2 => landlock::ABI::V2,
        LandlockAbi::V3 => landlock::ABI::V3,
        LandlockAbi::V4 => landlock::ABI::V4,
        LandlockAbi::V5 => landlock::ABI::V5,
        LandlockAbi::V6 => landlock::ABI::V6,
    };
    landlock::AccessFs::from_write(abi).bits()
}

/// `landlock::AccessFs::from_all`: every right of a version.
#[verifier::external_body]
pub(crate) fn access_fs_from_all(abi: LandlockAbi) -> (r: u64)
    ensures
        r == all_bits(abi),
{
    let abi = match abi {
        LandlockAbi::V1 => landlock::ABI::V1,
        LandlockAbi::V2 => landlock::ABI::V2,
        LandlockAbi::V3 => landlock::ABI::V3,
        LandlockAbi::V4 => landlock::ABI::V4,
        LandlockAbi::V5 => landlock::ABI::V5,
        LandlockAbi::V6 => landlock::ABI::V6,
    };
    <landlock::AccessFs as landlock::Access>::from_all(abi).bits()
}

/// `landlock::AccessFs::from_file`: the rights of a version that apply to
/// something that is not a directory.
#[verifier::external_body]
pub(crate) fn access_fs_from_file(abi: LandlockAbi) -> (r: u64)
    ensures
        r == file_bits(abi),
{
    let abi = match abi {
        LandlockAbi::V1 => landlock::ABI::V1,
        LandlockAbi::V2 => landlock::ABI::V2,
        LandlockAbi::V3 => landlock::ABI::V3,
        LandlockAbi::V4 => landlock::ABI::V4,
        LandlockAbi::V5 => landlock::ABI::V5,
        LandlockAbi::V6 => landlock::ABI::V6,
    };
    landlock::AccessFs::from_file(abi).bits()
}

/// What `--ro` grants: reading files and listing directories.
pub open spec fn ro_bits() -> u64 {
    0xc
}

/// What `--rox` grants: reading and executing.
pub open spec fn rox_bits() -> u64 {
    0xd
}

/// What `--rw` grants: reading, and every right that changes the file system.
pub open spec fn rw_bits() -> u64 {
    0xfffe
}

/// What `--rwx` grants: everything.
pub open spec fn rwx_bits() -> u64 {
    0xffff
}

/// What a program and its interpreters are granted: being executed and read.
pub open spec fn exec_bits() -> u64 {
    0x5
}

/// What a shared library is granted: being read.
pub open spec fn read_file_bits() -> u64 {
    0x4
}

/// The rights of a read-only path.
pub fn access_ro() -> (r: u64)
    ensures
        r == ro_bits(),
{
    assert(0x4u64 | 0x8u64 == 0xcu64) by (bit_vector);
    access_fs(FsRight::ReadFile) | access_fs(FsRight::ReadDir)
}

/// The rights of a path that is read and executed.
pub fn access_rox() -> (r: u64)
    ensures
        r == rox_bits(),
{
    assert(0xcu64 | 0x1u64 == 0xdu64) by (bit_vector);
    access_ro() | access_fs(FsRight::Execute)
}

/// The rights of a path that is read and written.
pub fn access_rw() -> (r: u64)
    ensures
        r == rw_bits(),
{
    assert(0xcu64 | 0xfff2u64 == 0xfffeu64) by (bit_vector);
    access_ro() | access_fs_from_write(ABI_CEILING)
}

/// The rights of a path that is read, written and executed.
pub fn access_rwx() -> (r: u64)
    ensures
        r == rwx_bits(),
{
    assert(0xfffeu64 | 0x1u64 == 0xffffu64) by (bit_vector);
    access_rw() | access_fs(FsRight::Execute)
}

/// The rights of a program that is to be run.
pub fn access_exec() -> (r: u64)
    ensures
        r == exec_bits(),
{
    assert(0x1u64 | 0x4u64 == 0x5u64) by (bit_vector);
    access_fs(FsRight::Execute) | access_fs(FsRight::ReadFile)
}

/// The rights of a shared library.
pub fn access_read_file() -> (r: u64)
    ensures
        r == read_file_bits(),
{
    access_fs(FsRight::ReadFile)
}

/// Whether every right of `part` is among the rights of `whole`.
pub open spec fn covers(whole: u64, part: u64) -> bool {
    whole & part == part
}

/// Each path option grants what the narrower ones grant: read-only is the
/// least, read-write-execute the most, and only the options with execute let a
/// program be run.
pub proof fn path_options_are_nested()
    ensures
        covers(rox_bits(), ro_bits()),
        covers(rw_bits(), ro_bits()),
        covers(rwx_bits(), rw_bits()),
        covers(rwx_bits(), rox_bits()),
        covers(rox_bits(), fs_bit(FsRight::Execute)),
        covers(rwx_bits(), fs_bit(FsRight::Execute)),
        !covers(ro_bits(), fs_bit(FsRight::Execute)),
        !covers(rw_bits(), fs_bit(FsRight::Execute)),
        ro_bits() & write_bits(ABI_CEILING) == 0,
        rox_bits() & write_bits(ABI_CEILING) == 0,
        covers(rw_bits(), write_bits(ABI_CEILING)),
        rwx_bits() == all_bits(ABI_CEILING),
{
    assert(0xdu64 & 0xcu64 == 0xcu64 && 0xfffeu64 & 0xcu64 == 0xcu64 && 0xffffu64 & 0xfffeu64
        == 0xfffeu64 && 0xffffu64 & 0xdu64 == 0xdu64 && 0xdu64 & 0x1u64 == 0x1u64 && 0xffffu64
        & 0x1u64 == 0x1u64 && 0xcu64 & 0x1u64 != 0x1u64 && 0xfffeu64 & 0x1u64 != 0x1u64 && 0xcu64
        & 0xfff2u64 == 0u64 && 0xdu64 & 0xfff2u64 == 0u64 && 0xfffeu64 & 0xfff2u64 == 0xfff2u64)
        by (bit_vector);
}

} // verus!
