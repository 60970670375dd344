//! An in-memory POSIX-style filesystem with a node-like synchronous API,
//! together with the cross-worker primitives that surround it: a lock
//! registry, a bus registry with an event emitter, a small key-value store,
//! and a per-worker scratch-allocation table.
//!
//! The filesystem state is owned by a single [`fs::Fs`] value; every
//! operation is a method on it whose contract states the effect on the
//! abstract tree (a map from paths to nodes).

pub mod ext;
pub mod fs;
pub mod laws;
pub mod bus;
pub mod emitter;
pub mod facade;
pub mod kv;
pub mod lock;
pub mod tls;
pub mod node;
pub mod path;

use vstd::prelude::*;

verus! {

/// Mask of the file-type bits inside a mode word.
pub const S_IFMT: u32 = 0o170000;

/// Type bits of a directory.
pub const S_IFDIR: u32 = 0o040000;

/// Type bits of a regular file.
pub const S_IFREG: u32 = 0o100000;

/// Type bits of a symbolic link.
pub const S_IFLNK: u32 = 0o120000;

/// Write permission for the owner.
pub const S_IWUSR: u32 = 0o200;

/// Write permission for the group.
pub const S_IWGRP: u32 = 0o020;

/// Write permission for others.
pub const S_IWOTH: u32 = 0o002;

/// Permissions a directory is created with when the caller names none.
pub const DEFAULT_PERM_DIR: u32 = 0o777;

/// Permissions a file is created with when the caller names none.
pub const DEFAULT_PERM_FILE: u32 = 0o666;

/// POSIX-style error codes raised by the filesystem facade.
#[derive(Clone, Copy, Debug, PartialEq, Eq, Structural)]
pub enum ErrorCode {
    /// No such file or directory.
    NoEnt,
    /// Path already exists.
    Exist,
    /// Illegal operation on a directory.
    IsDir,
    /// Not a directory.
    NotDir,
    /// Directory not empty.
    NotEmpty,
    /// Resource busy or locked.
    Busy,
    /// Permission denied.
    Access,
    /// Bad file descriptor.
    BadFd,
    /// Invalid argument.
    Inval,
    /// Underlying storage stat failed.
    Fault,
    /// Too many levels of symbolic links.
    Loop,
}

impl ErrorCode {
    /// The conventional POSIX name of this error code.
    pub fn name(&self) -> (r: &'static str)
        ensures
            r@ == self.spec_name(),
    {
        match self {
            ErrorCode::NoEnt => "ENOENT",
            ErrorCode::Exist => "EEXIST",
            ErrorCode::IsDir => "EISDIR",
            ErrorCode::NotDir => "ENOTDIR",
            ErrorCode::NotEmpty => "ENOTEMPTY",
            ErrorCode::Busy => "EBUSY",
            ErrorCode::Access => "EACCES",
            ErrorCode::BadFd => "EBADF",
            ErrorCode::Inval => "EINVAL",
            ErrorCode::Fault => "EFAULT",
            ErrorCode::Loop => "ELOOP",
        }
    }

    /// What `name` returns, as a sequence of characters.
    pub open spec fn spec_name(self) -> Seq<char> {
        match self {
            ErrorCode::NoEnt => "ENOENT"@,
            ErrorCode::Exist => "EEXIST"@,
            ErrorCode::IsDir => "EISDIR"@,
            ErrorCode::NotDir => "ENOTDIR"@,
            ErrorCode::NotEmpty => "ENOTEMPTY"@,
            ErrorCode::Busy => "EBUSY"@,
            ErrorCode::Access => "EACCES"@,
            ErrorCode::BadFd => "EBADF"@,
            ErrorCode::Inval => "EINVAL"@,
            ErrorCode::Fault => "EFAULT"@,
            ErrorCode::Loop => "ELOOP"@,
        }
    }
}

} // verus!
