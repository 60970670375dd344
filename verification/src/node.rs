//! The data model: attribute records, nodes (one per live path), open
//! handles, user-visible stat records and directory entries.

#![allow(non_snake_case)]

use vstd::prelude::*;
use crate::{S_IFMT, S_IFREG, S_IFDIR, S_IFLNK, DEFAULT_PERM_DIR, DEFAULT_PERM_FILE};

verus! {

/// Block size reported by the storage engine.
pub const BLOCK_SIZE: usize = 512;

/// Default size of the backing region in bytes (256 MiB).
pub const REGION_SIZE: usize = 0x10000000;

/// The POSIX-style attribute record kept for every live path.
#[derive(Clone, Copy, Debug, PartialEq, Eq, Structural)]
pub struct Attr {
    /// Inode number; unique per live path.
    pub ino: usize,
    /// Type bits and permission bits.
    pub mode: u32,
    /// Owning user id.
    pub uid: u32,
    /// Owning group id.
    pub gid: u32,
    /// One plus the number of recorded aliases.
    pub nlink: u32,
    /// Last access, in milliseconds.
    pub atime: u64,
    /// Last content change, in milliseconds.
    pub mtime: u64,
    /// Last metadata change, in milliseconds.
    pub ctime: u64,
    /// Creation time, in milliseconds.
    pub birthtime: u64,
    /// Set on internal hardlink aliases, which resolve transparently.
    pub link: bool,
    /// Set on user-visible symbolic links.
    pub symlink: bool,
}

/// Whether a node holds file content or directory structure.
#[derive(Clone, Copy, Debug, PartialEq, Eq, Structural)]
pub enum NodeKind {
    /// A regular file (also the storage shape of links).
    File,
    /// A directory.
    Dir,
}

/// One stored node: a path together with its kind, content and attributes.
#[derive(Debug)]
pub struct Node {
    /// The normalized path this node lives at.
    pub path: String,
    /// File or directory.
    pub kind: NodeKind,
    /// Byte content; empty for directories. For links this holds the
    /// UTF-8 bytes of the target path.
    pub content: Vec<u8>,
    /// The attribute record.
    pub attr: Attr,
}

/// The mathematical value of a node: everything but its path.
pub struct NodeV {
    /// File or directory.
    pub kind: NodeKind,
    /// Byte content.
    pub content: Seq<u8>,
    /// The attribute record.
    pub attr: Attr,
}

impl View for Node {
    type V = NodeV;

    open spec fn view(&self) -> NodeV {
        NodeV { kind: self.kind, content: self.content@, attr: self.attr }
    }
}

/// An open file: descriptor, path, cursor and the open flags.
#[derive(Debug)]
pub struct FileHandle {
    /// The descriptor, at least 3.
    pub fd: usize,
    /// The path the handle was opened at.
    pub path: String,
    /// Current cursor position.
    pub pos: usize,
    /// Open flags, in storage-engine encoding.
    pub flags: u32,
}

/// An open directory: descriptor, path and enumeration cursor.
#[derive(Debug)]
pub struct DirHandle {
    /// The descriptor, at least 3.
    pub fd: usize,
    /// The path the handle was opened at.
    pub path: String,
    /// How many entries have been handed out so far.
    pub pos: usize,
}

/// A tagged open handle: either a file or a directory.
#[derive(Debug)]
pub enum Handle {
    /// An open file.
    File(FileHandle),
    /// An open directory.
    Dir(DirHandle),
}

/// The mathematical value of an open handle.
pub struct HandleV {
    /// True for file handles, false for directory handles.
    pub is_file: bool,
    /// The path the handle was opened at.
    pub path: Seq<char>,
    /// Cursor (byte position for files, entry count for directories).
    pub pos: nat,
    /// Open flags; zero for directory handles.
    pub flags: u32,
}

impl Handle {
    /// The descriptor of the handle.
    pub fn fd(&self) -> (r: usize)
        ensures
            r == self.spec_fd(),
    {
        match self {
            Handle::File(f) => f.fd,
            Handle::Dir(d) => d.fd,
        }
    }

    /// The descriptor, for specifications.
    pub open spec fn spec_fd(self) -> usize {
        match self {
            Handle::File(f) => f.fd,
            Handle::Dir(d) => d.fd,
        }
    }
}

impl View for Handle {
    type V = HandleV;

    open spec fn view(&self) -> HandleV {
        match self {
            Handle::File(f) => HandleV { is_file: true, path: f.path@, pos: f.pos as nat, flags: f.flags },
            Handle::Dir(d) => HandleV { is_file: false, path: d.path@, pos: d.pos as nat, flags: 0 },
        }
    }
}

/// A recorded hardlink group: a target path and its alias paths.
#[derive(Debug)]
pub struct LinkSet {
    /// The path the aliases point at.
    pub target: String,
    /// The alias paths, in creation order.
    pub aliases: Vec<String>,
}

/// User-visible stat record, with times in milliseconds.
#[derive(Clone, Copy, Debug, PartialEq, Eq, Structural)]
pub struct NodeStats {
    /// Device identifier; this store reports zero.
    pub dev: u64,
    /// Inode number.
    pub ino: usize,
    /// Type and permission bits.
    pub mode: u32,
    /// Link count.
    pub nlink: u32,
    /// Owning user id.
    pub uid: u32,
    /// Owning group id.
    pub gid: u32,
    /// Special-device id; always zero here.
    pub rdev: u64,
    /// Content size in bytes.
    pub size: usize,
    /// Block size of the store.
    pub blksize: usize,
    /// Blocks figure; this store reports its block size, as the engine does.
    pub blocks: usize,
    /// Last access, in milliseconds.
    pub atimeMs: u64,
    /// Last content change, in milliseconds.
    pub mtimeMs: u64,
    /// Last metadata change, in milliseconds.
    pub ctimeMs: u64,
    /// Creation time, in milliseconds.
    pub birthtimeMs: u64,
}

impl NodeStats {
    /// True when the mode's type bits mark a regular file.
    pub fn isFile(&self) -> (r: bool)
        ensures
            r == (self.mode & S_IFMT == S_IFREG),
    {
        self.mode & S_IFMT == S_IFREG
    }

    /// True when the mode's type bits mark a directory.
    pub fn isDirectory(&self) -> (r: bool)
        ensures
            r == (self.mode & S_IFMT == S_IFDIR),
    {
        self.mode & S_IFMT == S_IFDIR
    }

    /// This store has no block devices.
    pub fn isBlockDevice(&self) -> (r: bool)
        ensures
            r == false,
    {
        false
    }

    /// This store has no character devices.
    pub fn isCharacterDevice(&self) -> (r: bool)
        ensures
            r == false,
    {
        false
    }

    /// This store has no FIFOs.
    pub fn isFIFO(&self) -> (r: bool)
        ensures
            r == false,
    {
        false
    }

    /// This store has no sockets.
    pub fn isSocket(&self) -> (r: bool)
        ensures
            r == false,
    {
        false
    }

    /// True when the mode's type bits mark a symbolic link.
    pub fn isSymbolicLink(&self) -> (r: bool)
        ensures
            r == (self.mode & S_IFMT == S_IFLNK),
    {
        self.mode & S_IFMT == S_IFLNK
    }
}

/// A directory entry: name, parent path, and what the child is.
#[derive(Debug)]
pub struct Dirent {
    /// The entry's own name.
    pub name: String,
    /// The directory the entry sits in.
    pub path: String,
    /// True for files (links included).
    pub file: bool,
    /// True for user-visible symbolic links.
    pub symlink: bool,
}

/// The mathematical value of a directory entry.
pub struct DirentV {
    /// The entry's own name.
    pub name: Seq<char>,
    /// The directory the entry sits in.
    pub path: Seq<char>,
    /// True for files.
    pub file: bool,
    /// True for user-visible symbolic links.
    pub symlink: bool,
}

impl View for Dirent {
    type V = DirentV;

    open spec fn view(&self) -> DirentV {
        DirentV { name: self.name@, path: self.path@, file: self.file, symlink: self.symlink }
    }
}

impl Dirent {
    /// True for regular files.
    pub fn isFile(&self) -> (r: bool)
        ensures
            r == self.file,
    {
        self.file
    }

    /// True for directories.
    pub fn isDirectory(&self) -> (r: bool)
        ensures
            r == !self.file,
    {
        !self.file
    }

    /// This store has no block devices.
    pub fn isBlockDevice(&self) -> (r: bool)
        ensures
            r == false,
    {
        false
    }

    /// This store has no character devices.
    pub fn isCharacterDevice(&self) -> (r: bool)
        ensures
            r == false,
    {
        false
    }

    /// This store has no FIFOs.
    pub fn isFIFO(&self) -> (r: bool)
        ensures
            r == false,
    {
        false
    }

    /// This store has no sockets.
    pub fn isSocket(&self) -> (r: bool)
        ensures
            r == false,
    {
        false
    }

    /// True for user-visible symbolic links.
    pub fn isSymbolicLink(&self) -> (r: bool)
        ensures
            r == self.symlink,
    {
        self.symlink
    }

    /// The entry's own name.
    pub fn name(&self) -> (r: String)
        ensures
            r@ == self.name@,
    {
        self.name.clone()
    }

    /// The directory the entry sits in.
    pub fn path(&self) -> (r: String)
        ensures
            r@ == self.path@,
    {
        self.path.clone()
    }
}

/// What an encoded read yields: decoded text, or raw bytes.
#[derive(Debug)]
pub enum FileData {
    /// The content decoded as UTF-8 text.
    Text(String),
    /// The raw bytes.
    Bytes(Vec<u8>),
}

/// Free-space and node counts of the store, with an optional dump.
#[derive(Debug)]
pub struct StatFs {
    /// Block size.
    pub bsize: usize,
    /// Total blocks in the region.
    pub blocks: usize,
    /// Free blocks.
    pub bfree: usize,
    /// Blocks available to unprivileged use.
    pub bavail: usize,
    /// Number of file nodes.
    pub files: usize,
    /// A free-files figure; this store reports zero.
    pub ffree: usize,
    /// Number of directory nodes, the root included.
    pub dirs: usize,
    /// When a dump was asked for, one entry per node in storage order.
    pub dump: Option<Vec<DumpEntry>>,
}

/// One node of a full dump: path, attributes and content.
#[derive(Debug)]
pub struct DumpEntry {
    /// The node's path.
    pub path: String,
    /// The attribute record.
    pub attr: Attr,
    /// Content size in bytes.
    pub size: usize,
    /// File content; empty for directories.
    pub content: Vec<u8>,
    /// Names of the children, for directories.
    pub children: Vec<String>,
}

/// The permissions a fresh node gets when the caller names none.
pub fn get_default_permissions(is_dir: bool) -> (r: u32)
    ensures
        r == (if is_dir { DEFAULT_PERM_DIR } else { DEFAULT_PERM_FILE }),
{
    if is_dir {
        DEFAULT_PERM_DIR
    } else {
        DEFAULT_PERM_FILE
    }
}

/// Keeps only the permission bits of a mode word.
pub fn sanitize_permissions(p: u32) -> (r: u32)
    ensures
        r == spec_sanitize_permissions(p),
{
    p & (DEFAULT_PERM_DIR | DEFAULT_PERM_FILE)
}

/// What `sanitize_permissions` keeps: the low permission bits.
pub open spec fn spec_sanitize_permissions(p: u32) -> u32 {
    p & (DEFAULT_PERM_DIR | DEFAULT_PERM_FILE)
}

} // verus!
