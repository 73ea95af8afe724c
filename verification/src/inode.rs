//! The data model of the virtual tree: inode records, attribute records,
//! errno replies, and the fixed protocol constants.

use vstd::prelude::*;

verus! {

/// The reserved identifier of the root directory inode.
pub const ROOT_INO: u64 = 1;

/// Sentinel file handle returned by opendir and expected by readdir.
pub const DIR_FH: u64 = 200679;

/// Sentinel file handle returned by open and expected by read.
pub const FIL_FH: u64 = 220705;

/// Block size reported in attribute records.
pub const BLKSIZE: u64 = 512;

/// Open flags that ask for write access; any of them is refused with EROFS.
/// These are the Linux fcntl bits O_WRONLY, O_RDWR, O_CREAT, O_EXCL,
/// O_TRUNC and O_APPEND.
pub const FORBIDDEN_OPEN_FLAGS: i32 = 0x1 | 0x2 | 0x40 | 0x80 | 0x200 | 0x400;

/// The "keep cache" bit returned with every successful open and opendir.
pub const KEEP_CACHE_FLAG: u32 = 2;

/// Seconds of validity granted to attribute and entry replies.
pub const TTL_SECS: u64 = 1;

/// An upper bound on how many inodes the table accepts; it keeps every
/// readdir pseudo-offset well inside the signed 64-bit offset type.
pub const MAX_INODES: u64 = 0x4000_0000_0000_0000;

/// The errno replies the handler produces.
#[derive(Clone, Copy, PartialEq, Eq, Structural, Debug)]
pub enum Errno {
    Enoent,
    Enotdir,
    Ebadf,
    Eisdir,
    Einval,
    Erofs,
    Eio,
}

impl Errno {
    /// The Linux errno value of this reply.
    pub open spec fn spec_code(self) -> i32 {
        match self {
            Errno::Enoent => 2,
            Errno::Eio => 5,
            Errno::Ebadf => 9,
            Errno::Enotdir => 20,
            Errno::Eisdir => 21,
            Errno::Einval => 22,
            Errno::Erofs => 30,
        }
    }

    /// The Linux errno value handed back to the kernel bridge.
    pub fn code(&self) -> (c: i32)
        ensures
            c == self.spec_code(),
    {
        match self {
            Errno::Enoent => 2,
            Errno::Eio => 5,
            Errno::Ebadf => 9,
            Errno::Enotdir => 20,
            Errno::Eisdir => 21,
            Errno::Einval => 22,
            Errno::Erofs => 30,
        }
    }
}

/// Whether an inode is a directory or a regular file.
#[derive(Clone, Copy, PartialEq, Eq, Structural, Debug)]
pub enum InodeKind {
    Directory,
    RegularFile,
}

/// Where a file inode's payload lives: the host path of its source archive,
/// the full path of the entry inside that archive, and the positions of both
/// in the loaded state.
pub struct FileSource {
    pub archive_path: Vec<u8>,
    pub entry_path: Vec<u8>,
    pub archive_index: usize,
    pub entry_index: usize,
}

/// One node of the virtual tree. Directories have `size == 0` and no source;
/// regular files carry the archive position their payload is read from.
pub struct Inode {
    pub kind: InodeKind,
    pub size: u64,
    pub name: Vec<u8>,
    pub parent: u64,
    pub children: Vec<u64>,
    pub src: Option<FileSource>,
}

/// The attribute record of one inode. All timestamps are fixed at the epoch
/// and are supplied by the caller-side bridge, so they do not appear here.
#[derive(Clone, Copy, PartialEq, Eq, Structural, Debug)]
pub struct Attr {
    pub ino: u64,
    pub size: u64,
    pub blocks: u64,
    pub kind: InodeKind,
    pub perm: u16,
    pub nlink: u32,
    pub uid: u32,
    pub gid: u32,
    pub rdev: u32,
    pub blksize: u32,
}

/// The number of 512-byte blocks a payload of `size` bytes occupies.
pub open spec fn spec_blocks_of(size: u64) -> u64 {
    (size / 512 + if size % 512 == 0 { 0 as u64 } else { 1 as u64 }) as u64
}

/// The attribute record of inode `n` under identifier `ino`, with the mount's
/// fixed owner and group.
pub open spec fn spec_attr_of(n: Inode, ino: u64, uid: u32, gid: u32) -> Attr {
    Attr {
        ino,
        size: n.size,
        blocks: spec_blocks_of(n.size),
        kind: n.kind,
        perm: if n.kind == InodeKind::Directory { 0o555 } else { 0o444 },
        nlink: if n.kind == InodeKind::Directory { 2 } else { 1 },
        uid,
        gid,
        rdev: 0,
        blksize: 512,
    }
}

/// Compute the number of 512-byte blocks a payload of `size` bytes occupies.
pub fn blocks_of(size: u64) -> (b: u64)
    ensures
        b == spec_blocks_of(size),
{
    if size % 512 == 0 {
        size / 512
    } else {
        size / 512 + 1
    }
}

/// Build the attribute record of inode `n` under identifier `ino`.
pub fn attr_of(n: &Inode, ino: u64, uid: u32, gid: u32) -> (a: Attr)
    ensures
        a == spec_attr_of(*n, ino, uid, gid),
{
    let is_dir = match n.kind {
        InodeKind::Directory => true,
        InodeKind::RegularFile => false,
    };
    Attr {
        ino,
        size: n.size,
        blocks: blocks_of(n.size),
        kind: n.kind,
        perm: if is_dir { 0o555 } else { 0o444 },
        nlink: if is_dir { 2 } else { 1 },
        uid,
        gid,
        rdev: 0,
        blksize: 512,
    }
}

/// The structural view of one inode: its identifier, its name, its parent and
/// its children, parents and children linked by identifier.
pub struct InodeTreeItem<P> {
    pub inode: u64,
    pub path: P,
    pub children: Vec<u64>,
    pub parent: u64,
}

impl<P> InodeTreeItem<P> {
    /// Assemble a structural view from its four parts.
    pub fn new(inode: u64, path: P, parent: u64, children: Vec<u64>) -> (r: InodeTreeItem<P>)
        ensures
            r.inode == inode,
            r.path == path,
            r.parent == parent,
            r.children == children,
    {
        InodeTreeItem { inode, path, children, parent }
    }
}

/// A directory entry as readdir reports it: a child directory or a child
/// file, carrying its name.
pub enum DirChild<Path> {
    Dir(Path),
    File(Path),
}

impl<Path> DirChild<Path> {
    /// The name carried by the entry, whichever kind it is.
    pub open spec fn spec_name(self) -> Path {
        match self {
            DirChild::Dir(p) => p,
            DirChild::File(p) => p,
        }
    }

    /// Whether the entry is a directory.
    pub open spec fn spec_is_dir(self) -> bool {
        self matches DirChild::Dir(_)
    }

    /// The name carried by the entry, whichever kind it is.
    pub fn name(&self) -> (r: &Path)
        ensures
            *r == self.spec_name(),
    {
        match self {
            DirChild::Dir(p) => p,
            DirChild::File(p) => p,
        }
    }
}

/// One regular-file entry of an archive as the tree builder records it: its
/// final name, the index of the entry within the archive, and its payload
/// size in bytes.
pub struct File {
    pub name: Vec<u8>,
    pub index: usize,
    pub size: u64,
}

/// One readdir reply element: the named child's inode number, the
/// pseudo-offset at which it stands, and its name and kind.
pub struct DirEntry {
    pub ino: u64,
    pub offset: i64,
    pub child: DirChild<Vec<u8>>,
}

impl View for DirEntry {
    type V = (u64, i64, bool, Seq<u8>);

    open spec fn view(&self) -> (u64, i64, bool, Seq<u8>) {
        (self.ino, self.offset, self.child.spec_is_dir(), self.child.spec_name()@)
    }
}

} // verus!
