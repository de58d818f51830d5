//! Access-right algebra: bit-sets for filesystem, network, and scope
//! capabilities, and the version-relative capability groups that resolve
//! against a kernel ABI generation.

use vstd::prelude::*;
use crate::strutil::str_eq;

verus! {

/// Ordinal kernel-generation ranking.  Valid versions are `1..=ABI_MAX`;
/// versions above the newest known generation behave like the newest one,
/// since no later right is known to this catalog.
pub type AbiVersion = u32;

/// Largest accepted ABI version.
pub const ABI_MAX: u32 = 0x7fff_ffff;

// Filesystem capabilities, one bit each.
pub const FS_EXECUTE: u64 = 0x1;
pub const FS_WRITE_FILE: u64 = 0x2;
pub const FS_READ_FILE: u64 = 0x4;
pub const FS_READ_DIR: u64 = 0x8;
pub const FS_REMOVE_DIR: u64 = 0x10;
pub const FS_REMOVE_FILE: u64 = 0x20;
pub const FS_MAKE_CHAR: u64 = 0x40;
pub const FS_MAKE_DIR: u64 = 0x80;
pub const FS_MAKE_REG: u64 = 0x100;
pub const FS_MAKE_SOCK: u64 = 0x200;
pub const FS_MAKE_FIFO: u64 = 0x400;
pub const FS_MAKE_BLOCK: u64 = 0x800;
pub const FS_MAKE_SYM: u64 = 0x1000;
pub const FS_REFER: u64 = 0x2000;
pub const FS_TRUNCATE: u64 = 0x4000;
pub const FS_IOCTL_DEV: u64 = 0x8000;

// Network capabilities.
pub const NET_BIND_TCP: u64 = 0x1;
pub const NET_CONNECT_TCP: u64 = 0x2;

// Scope-isolation capabilities.
pub const SCOPE_ABSTRACT_UNIX_SOCKET: u64 = 0x1;
pub const SCOPE_SIGNAL: u64 = 0x2;

/// All filesystem rights introduced at or before `v`.
pub open spec fn spec_fs_from_all(v: AbiVersion) -> u64 {
    if v <= 1 {
        0x1fff
    } else if v == 2 {
        0x3fff
    } else if v <= 4 {
        0x7fff
    } else {
        0xffff
    }
}

/// The filesystem read rights, identical in every generation.
pub open spec fn spec_fs_from_read(v: AbiVersion) -> u64 {
    FS_EXECUTE | FS_READ_FILE | FS_READ_DIR
}

/// `read_execute` group: read rights plus `refer` where the generation has it.
pub open spec fn spec_fs_read_execute(v: AbiVersion) -> u64 {
    spec_fs_from_read(v) | (spec_fs_from_all(v) & FS_REFER)
}

/// `read_write` group: all rights of the generation minus `execute`.
pub open spec fn spec_fs_read_write(v: AbiVersion) -> u64 {
    spec_fs_from_all(v) & !FS_EXECUTE
}

/// All network rights introduced at or before `v`.
pub open spec fn spec_net_from_all(v: AbiVersion) -> u64 {
    if v >= 4 {
        NET_BIND_TCP | NET_CONNECT_TCP
    } else {
        0
    }
}

/// All scope rights introduced at or before `v`.
pub open spec fn spec_scope_from_all(v: AbiVersion) -> u64 {
    if v >= 6 {
        SCOPE_ABSTRACT_UNIX_SOCKET | SCOPE_SIGNAL
    } else {
        0
    }
}

#[verifier::when_used_as_spec(spec_fs_from_all)]
pub fn fs_from_all(v: AbiVersion) -> (r: u64)
    ensures
        r == spec_fs_from_all(v),
{
    if v <= 1 {
        0x1fff
    } else if v == 2 {
        0x3fff
    } else if v <= 4 {
        0x7fff
    } else {
        0xffff
    }
}

#[verifier::when_used_as_spec(spec_fs_from_read)]
pub fn fs_from_read(v: AbiVersion) -> (r: u64)
    ensures
        r == spec_fs_from_read(v),
{
    FS_EXECUTE | FS_READ_FILE | FS_READ_DIR
}

#[verifier::when_used_as_spec(spec_fs_read_execute)]
pub fn fs_read_execute(v: AbiVersion) -> (r: u64)
    ensures
        r == spec_fs_read_execute(v),
{
    fs_from_read(v) | (fs_from_all(v) & FS_REFER)
}

#[verifier::when_used_as_spec(spec_fs_read_write)]
pub fn fs_read_write(v: AbiVersion) -> (r: u64)
    ensures
        r == spec_fs_read_write(v),
{
    fs_from_all(v) & !FS_EXECUTE
}

#[verifier::when_used_as_spec(spec_net_from_all)]
pub fn net_from_all(v: AbiVersion) -> (r: u64)
    ensures
        r == spec_net_from_all(v),
{
    if v >= 4 {
        NET_BIND_TCP | NET_CONNECT_TCP
    } else {
        0
    }
}

#[verifier::when_used_as_spec(spec_scope_from_all)]
pub fn scope_from_all(v: AbiVersion) -> (r: u64)
    ensures
        r == spec_scope_from_all(v),
{
    if v >= 6 {
        SCOPE_ABSTRACT_UNIX_SOCKET | SCOPE_SIGNAL
    } else {
        0
    }
}

/// Why a symbolic access item could not be turned into a bit-set.
#[derive(Clone, Copy, Debug, PartialEq, Eq, Structural)]
pub enum AccessItemError {
    /// The item is not part of the capability vocabulary of this domain.
    Unknown,
    /// The item names an `abi.*` group but the fragment declares no target
    /// version.
    MissingVersion,
}

/// Meaning of one filesystem access item at an optional target version.
pub open spec fn spec_fs_item_bits(s: Seq<char>, abi: Option<AbiVersion>) -> Result<
    u64,
    AccessItemError,
> {
    if s == "abi.all"@ {
        match abi {
            Some(v) => Ok(spec_fs_from_all(v)),
            None => Err(AccessItemError::MissingVersion),
        }
    } else if s == "abi.read_execute"@ {
        match abi {
            Some(v) => Ok(spec_fs_read_execute(v)),
            None => Err(AccessItemError::MissingVersion),
        }
    } else if s == "abi.read_write"@ {
        match abi {
            Some(v) => Ok(spec_fs_read_write(v)),
            None => Err(AccessItemError::MissingVersion),
        }
    } else if s == "execute"@ {
        Ok(FS_EXECUTE)
    } else if s == "write_file"@ {
        Ok(FS_WRITE_FILE)
    } else if s == "read_file"@ {
        Ok(FS_READ_FILE)
    } else if s == "read_dir"@ {
        Ok(FS_READ_DIR)
    } else if s == "remove_dir"@ {
        Ok(FS_REMOVE_DIR)
    } else if s == "remove_file"@ {
        Ok(FS_REMOVE_FILE)
    } else if s == "make_char"@ {
        Ok(FS_MAKE_CHAR)
    } else if s == "make_dir"@ {
        Ok(FS_MAKE_DIR)
    } else if s == "make_reg"@ {
        Ok(FS_MAKE_REG)
    } else if s == "make_sock"@ {
        Ok(FS_MAKE_SOCK)
    } else if s == "make_fifo"@ {
        Ok(FS_MAKE_FIFO)
    } else if s == "make_block"@ {
        Ok(FS_MAKE_BLOCK)
    } else if s == "make_sym"@ {
        Ok(FS_MAKE_SYM)
    } else if s == "refer"@ {
        Ok(FS_REFER)
    } else if s == "truncate"@ {
        Ok(FS_TRUNCATE)
    } else if s == "ioctl_dev"@ {
        Ok(FS_IOCTL_DEV)
    } else if s == "v1.all"@ {
        Ok(spec_fs_from_all(1))
    } else if s == "v1.read_execute"@ {
        Ok(spec_fs_read_execute(1))
    } else if s == "v1.read_write"@ {
        Ok(spec_fs_read_write(1))
    } else if s == "v2.all"@ {
        Ok(spec_fs_from_all(2))
    } else if s == "v2.read_execute"@ {
        Ok(spec_fs_read_execute(2))
    } else if s == "v2.read_write"@ {
        Ok(spec_fs_read_write(2))
    } else if s == "v3.all"@ {
        Ok(spec_fs_from_all(3))
    } else if s == "v3.read_execute"@ {
        Ok(spec_fs_read_execute(3))
    } else if s == "v3.read_write"@ {
        Ok(spec_fs_read_write(3))
    } else if s == "v4.all"@ {
        Ok(spec_fs_from_all(4))
    } else if s == "v4.read_execute"@ {
        Ok(spec_fs_read_execute(4))
    } else if s == "v4.read_write"@ {
        Ok(spec_fs_read_write(4))
    } else if s == "v5.all"@ {
        Ok(spec_fs_from_all(5))
    } else if s == "v5.read_execute"@ {
        Ok(spec_fs_read_execute(5))
    } else if s == "v5.read_write"@ {
        Ok(spec_fs_read_write(5))
    } else if s == "v6.all"@ {
        Ok(spec_fs_from_all(6))
    } else if s == "v6.read_execute"@ {
        Ok(spec_fs_read_execute(6))
    } else if s == "v6.read_write"@ {
        Ok(spec_fs_read_write(6))
    } else {
        Err(AccessItemError::Unknown)
    }
}

/// Resolves one filesystem access item against an optional target version.
pub fn fs_item_bits(item: &str, abi: Option<AbiVersion>) -> (r: Result<u64, AccessItemError>)
    ensures
        r == spec_fs_item_bits(item@, abi),
{
    if str_eq(item, "abi.all") {
        match abi {
            Some(v) => Ok(fs_from_all(v)),
            None => Err(AccessItemError::MissingVersion),
        }
    } else if str_eq(item, "abi.read_execute") {
        match abi {
            Some(v) => Ok(fs_read_execute(v)),
            None => Err(AccessItemError::MissingVersion),
        }
    } else if str_eq(item, "abi.read_write") {
        match abi {
            Some(v) => Ok(fs_read_write(v)),
            None => Err(AccessItemError::MissingVersion),
        }
    } else if str_eq(item, "execute") {
        Ok(FS_EXECUTE)
    } else if str_eq(item, "write_file") {
        Ok(FS_WRITE_FILE)
    } else if str_eq(item, "read_file") {
        Ok(FS_READ_FILE)
    } else if str_eq(item, "read_dir") {
        Ok(FS_READ_DIR)
    } else if str_eq(item, "remove_dir") {
        Ok(FS_REMOVE_DIR)
    } else if str_eq(item, "remove_file") {
        Ok(FS_REMOVE_FILE)
    } else if str_eq(item, "make_char") {
        Ok(FS_MAKE_CHAR)
    } else if str_eq(item, "make_dir") {
        Ok(FS_MAKE_DIR)
    } else if str_eq(item, "make_reg") {
        Ok(FS_MAKE_REG)
    } else if str_eq(item, "make_sock") {
        Ok(FS_MAKE_SOCK)
    } else if str_eq(item, "make_fifo") {
        Ok(FS_MAKE_FIFO)
    } else if str_eq(item, "make_block") {
        Ok(FS_MAKE_BLOCK)
    } else if str_eq(item, "make_sym") {
        Ok(FS_MAKE_SYM)
    } else if str_eq(item, "refer") {
        Ok(FS_REFER)
    } else if str_eq(item, "truncate") {
        Ok(FS_TRUNCATE)
    } else if str_eq(item, "ioctl_dev") {
        Ok(FS_IOCTL_DEV)
    } else if str_eq(item, "v1.all") {
        Ok(fs_from_all(1))
    } else if str_eq(item, "v1.read_execute") {
        Ok(fs_read_execute(1))
    } else if str_eq(item, "v1.read_write") {
        Ok(fs_read_write(1))
    } else if str_eq(item, "v2.all") {
        Ok(fs_from_all(2))
    } else if str_eq(item, "v2.read_execute") {
        Ok(fs_read_execute(2))
    } else if str_eq(item, "v2.read_write") {
        Ok(fs_read_write(2))
    } else if str_eq(item, "v3.all") {
        Ok(fs_from_all(3))
    } else if str_eq(item, "v3.read_execute") {
        Ok(fs_read_execute(3))
    } else if str_eq(item, "v3.read_write") {
        Ok(fs_read_write(3))
    } else if str_eq(item, "v4.all") {
        Ok(fs_from_all(4))
    } else if str_eq(item, "v4.read_execute") {
        Ok(fs_read_execute(4))
    } else if str_eq(item, "v4.read_write") {
        Ok(fs_read_write(4))
    } else if str_eq(item, "v5.all") {
        Ok(fs_from_all(5))
    } else if str_eq(item, "v5.read_execute") {
        Ok(fs_read_execute(5))
    } else if str_eq(item, "v5.read_write") {
        Ok(fs_read_write(5))
    } else if str_eq(item, "v6.all") {
        Ok(fs_from_all(6))
    } else if str_eq(item, "v6.read_execute") {
        Ok(fs_read_execute(6))
    } else if str_eq(item, "v6.read_write") {
        Ok(fs_read_write(6))
    } else {
        Err(AccessItemError::Unknown)
    }
}

/// Meaning of one network access item at an optional target version.
pub open spec fn spec_net_item_bits(s: Seq<char>, abi: Option<AbiVersion>) -> Result<
    u64,
    AccessItemError,
> {
    if s == "abi.all"@ {
        match abi {
            Some(v) => Ok(spec_net_from_all(v)),
            None => Err(AccessItemError::MissingVersion),
        }
    } else if s == "bind_tcp"@ {
        Ok(NET_BIND_TCP)
    } else if s == "connect_tcp"@ {
        Ok(NET_CONNECT_TCP)
    } else if s == "v4.all"@ {
        Ok(spec_net_from_all(4))
    } else if s == "v5.all"@ {
        Ok(spec_net_from_all(5))
    } else if s == "v6.all"@ {
        Ok(spec_net_from_all(6))
    } else {
        Err(AccessItemError::Unknown)
    }
}

/// Resolves one network access item against an optional target version.
pub fn net_item_bits(item: &str, abi: Option<AbiVersion>) -> (r: Result<u64, AccessItemError>)
    ensures
        r == spec_net_item_bits(item@, abi),
{
    if str_eq(item, "abi.all") {
        match abi {
            Some(v) => Ok(net_from_all(v)),
            None => Err(AccessItemError::MissingVersion),
        }
    } else if str_eq(item, "bind_tcp") {
        Ok(NET_BIND_TCP)
    } else if str_eq(item, "connect_tcp") {
        Ok(NET_CONNECT_TCP)
    } else if str_eq(item, "v4.all") {
        Ok(net_from_all(4))
    } else if str_eq(item, "v5.all") {
        Ok(net_from_all(5))
    } else if str_eq(item, "v6.all") {
        Ok(net_from_all(6))
    } else {
        Err(AccessItemError::Unknown)
    }
}

/// Meaning of one scope item at an optional target version.
pub open spec fn spec_scope_item_bits(s: Seq<char>, abi: Option<AbiVersion>) -> Result<
    u64,
    AccessItemError,
> {
    if s == "abi.all"@ {
        match abi {
            Some(v) => Ok(spec_scope_from_all(v)),
            None => Err(AccessItemError::MissingVersion),
        }
    } else if s == "abstract_unix_socket"@ {
        Ok(SCOPE_ABSTRACT_UNIX_SOCKET)
    } else if s == "signal"@ {
        Ok(SCOPE_SIGNAL)
    } else if s == "v6.all"@ {
        Ok(spec_scope_from_all(6))
    } else {
        Err(AccessItemError::Unknown)
    }
}

/// Resolves one scope item against an optional target version.
pub fn scope_item_bits(item: &str, abi: Option<AbiVersion>) -> (r: Result<u64, AccessItemError>)
    ensures
        r == spec_scope_item_bits(item@, abi),
{
    if str_eq(item, "abi.all") {
        match abi {
            Some(v) => Ok(scope_from_all(v)),
            None => Err(AccessItemError::MissingVersion),
        }
    } else if str_eq(item, "abstract_unix_socket") {
        Ok(SCOPE_ABSTRACT_UNIX_SOCKET)
    } else if str_eq(item, "signal") {
        Ok(SCOPE_SIGNAL)
    } else if str_eq(item, "v6.all") {
        Ok(scope_from_all(6))
    } else {
        Err(AccessItemError::Unknown)
    }
}

} // verus!
