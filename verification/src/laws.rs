//! The laws of the handler: properties that hold of every well-formed state,
//! stated over the same spec functions the handler contracts use.

use vstd::prelude::*;
use crate::inode::{Attr, Errno, InodeKind, ROOT_INO, DIR_FH, FIL_FH, FORBIDDEN_OPEN_FLAGS};
use crate::table::{
    has_ino, node, tree_wf, node_ok, child_link_ok, children_distinct, spec_find_child,
    lemma_find_in_found, lemma_find_in_miss,
};
use crate::archive::archive_entries;
use crate::fs::{
    FuseFs, spec_getattr, spec_lookup, spec_open_common, spec_listing, spec_readdir, spec_resume,
    spec_read, file_link_ok,
};

verus! {

/// Every inode a directory lists as a child is held by the table, so getattr
/// answers for it.
pub proof fn lemma_children_exist(fs: FuseFs, p: u64, j: int)
    requires
        tree_wf(fs.inodes()),
        has_ino(fs.inodes(), p),
        0 <= j < node(fs.inodes(), p).children@.len(),
    ensures
        has_ino(fs.inodes(), node(fs.inodes(), p).children@[j]),
        spec_getattr(fs, node(fs.inodes(), p).children@[j]) is Ok,
{
    assert(node_ok(fs.inodes(), p - 1));
    assert(child_link_ok(fs.inodes(), p - 1, j));
}

/// Every inode but the root stands in the children list of the directory its
/// parent field names.
pub proof fn lemma_parent_exists(fs: FuseFs, i: u64)
    requires
        tree_wf(fs.inodes()),
        has_ino(fs.inodes(), i),
        i != ROOT_INO,
    ensures
        has_ino(fs.inodes(), node(fs.inodes(), i).parent),
        node(fs.inodes(), node(fs.inodes(), i).parent).kind == InodeKind::Directory,
        node(fs.inodes(), node(fs.inodes(), i).parent).children@.contains(i),
{
    assert(node_ok(fs.inodes(), i - 1));
}

/// No inode has two parents: wherever one inode stands in two children lists,
/// the lists belong to the same directory and the positions coincide.
pub proof fn lemma_parent_unique(fs: FuseFs, p1: u64, j1: int, p2: u64, j2: int)
    requires
        tree_wf(fs.inodes()),
        has_ino(fs.inodes(), p1),
        has_ino(fs.inodes(), p2),
        0 <= j1 < node(fs.inodes(), p1).children@.len(),
        0 <= j2 < node(fs.inodes(), p2).children@.len(),
        node(fs.inodes(), p1).children@[j1] == node(fs.inodes(), p2).children@[j2],
    ensures
        p1 == p2,
        j1 == j2,
{
    assert(node_ok(fs.inodes(), p1 - 1));
    assert(node_ok(fs.inodes(), p2 - 1));
    assert(child_link_ok(fs.inodes(), p1 - 1, j1));
    assert(child_link_ok(fs.inodes(), p2 - 1, j2));
    if j1 != j2 {
        assert(children_distinct(fs.inodes(), p1 - 1));
        if j1 < j2 {
            assert(node(fs.inodes(), p1).children@[j1] != node(fs.inodes(), p1).children@[j2]);
        } else {
            assert(node(fs.inodes(), p1).children@[j2] != node(fs.inodes(), p1).children@[j1]);
        }
    }
}

/// Within one directory, the names of the children are pairwise distinct.
pub proof fn lemma_child_names_distinct(fs: FuseFs, d: u64, j: int, k: int)
    requires
        tree_wf(fs.inodes()),
        has_ino(fs.inodes(), d),
        0 <= j < k < node(fs.inodes(), d).children@.len(),
    ensures
        node(fs.inodes(), node(fs.inodes(), d).children@[j]).name@ != node(
            fs.inodes(),
            node(fs.inodes(), d).children@[k]).name@,
{
    assert(node_ok(fs.inodes(), d - 1));
    assert(children_distinct(fs.inodes(), d - 1));
    assert(child_link_ok(fs.inodes(), d - 1, j));
    assert(child_link_ok(fs.inodes(), d - 1, k));
}

/// Reading a whole file returns exactly its payload: `size` bytes, equal
/// byte-for-byte to the archive entry the inode points at.
pub proof fn lemma_read_whole_file(fs: FuseFs, ino: u64)
    requires
        fs.wf(),
        has_ino(fs.inodes(), ino),
        node(fs.inodes(), ino).kind == InodeKind::RegularFile,
        node(fs.inodes(), ino).size <= u32::MAX,
    ensures
        spec_read(fs, ino, FIL_FH, 0, node(fs.inodes(), ino).size as u32) matches Ok(d) && {
            let s = node(fs.inodes(), ino).src->Some_0;
            &&& d.len() == node(fs.inodes(), ino).size
            &&& d =~= archive_entries(
                fs.blobs()[s.archive_index as int].bytes@,
            )->Some_0[s.entry_index as int].2
        },
{
    assert(node_ok(fs.inodes(), ino - 1));
    assert(fs.inodes()[ino - 1].src matches Some(s) ==> file_link_ok(
        s,
        fs.inodes()[ino - 1].size,
        fs.blobs(),
    ));
    let s = node(fs.inodes(), ino).src->Some_0;
    let m = archive_entries(fs.blobs()[s.archive_index as int].bytes@)->Some_0;
    assert(m[s.entry_index as int].2.subrange(0, m[s.entry_index as int].2.len() as int)
        =~= m[s.entry_index as int].2);
}

/// Reading at or past the end of a file returns the empty buffer.
pub proof fn lemma_read_past_end(fs: FuseFs, ino: u64, offset: i64, size: u32)
    requires
        fs.wf(),
        has_ino(fs.inodes(), ino),
        node(fs.inodes(), ino).kind == InodeKind::RegularFile,
        0 <= offset,
        node(fs.inodes(), ino).size <= offset,
    ensures
        spec_read(fs, ino, FIL_FH, offset, size) == Result::<Seq<u8>, Errno>::Ok(
            Seq::<u8>::empty(),
        ),
{
    assert(node_ok(fs.inodes(), ino - 1));
    assert(fs.inodes()[ino - 1].src matches Some(s) ==> file_link_ok(
        s,
        fs.inodes()[ino - 1].size,
        fs.blobs(),
    ));
    let s = node(fs.inodes(), ino).src->Some_0;
    let m = archive_entries(fs.blobs()[s.archive_index as int].bytes@)->Some_0;
    let data = m[s.entry_index as int].2;
    assert(data.subrange(data.len() as int, data.len() as int) =~= Seq::<u8>::empty());
}

/// A read of zero bytes returns the empty buffer.
pub proof fn lemma_read_zero(fs: FuseFs, ino: u64, offset: i64)
    requires
        fs.wf(),
        has_ino(fs.inodes(), ino),
        node(fs.inodes(), ino).kind == InodeKind::RegularFile,
        0 <= offset,
    ensures
        spec_read(fs, ino, FIL_FH, offset, 0) == Result::<Seq<u8>, Errno>::Ok(Seq::<u8>::empty()),
{
    assert(node_ok(fs.inodes(), ino - 1));
    assert(fs.inodes()[ino - 1].src matches Some(s) ==> file_link_ok(
        s,
        fs.inodes()[ino - 1].size,
        fs.blobs(),
    ));
    let s = node(fs.inodes(), ino).src->Some_0;
    let m = archive_entries(fs.blobs()[s.archive_index as int].bytes@)->Some_0;
    let data = m[s.entry_index as int].2;
    if offset <= data.len() {
        assert(data.subrange(offset as int, offset as int) =~= Seq::<u8>::empty());
    } else {
        assert(data.subrange(data.len() as int, data.len() as int) =~= Seq::<u8>::empty());
    }
}

/// A read that spans the last byte of the file returns fewer than `size`
/// bytes: exactly the bytes from `offset` to the end.
pub proof fn lemma_read_spans_end(fs: FuseFs, ino: u64, offset: i64, size: u32)
    requires
        fs.wf(),
        has_ino(fs.inodes(), ino),
        node(fs.inodes(), ino).kind == InodeKind::RegularFile,
        0 <= offset < node(fs.inodes(), ino).size,
        node(fs.inodes(), ino).size < offset + size,
    ensures
        spec_read(fs, ino, FIL_FH, offset, size) matches Ok(d) && d.len() == node(
            fs.inodes(),
            ino,
        ).size - offset && d.len() < size,
{
    assert(node_ok(fs.inodes(), ino - 1));
    assert(fs.inodes()[ino - 1].src matches Some(s) ==> file_link_ok(
        s,
        fs.inodes()[ino - 1].size,
        fs.blobs(),
    ));
}

/// lookup and the full readdir listing agree: where the listing names a child
/// `name` (beyond `.` and `..`), lookup succeeds with that child's inode, and
/// where lookup succeeds, the listing holds such an entry.
pub proof fn lemma_lookup_readdir_agree(fs: FuseFs, p: u64, name: Seq<u8>)
    requires
        tree_wf(fs.inodes()),
        has_ino(fs.inodes(), p),
        node(fs.inodes(), p).kind == InodeKind::Directory,
    ensures
        spec_lookup(fs, p, name) matches Ok(a) ==> exists|j: int|
            2 <= j < spec_listing(fs.inodes(), p).len() && (#[trigger] spec_listing(
                fs.inodes(),
                p,
            )[j]).3 == name && spec_listing(fs.inodes(), p)[j].0 == a.ino,
        forall|j: int|
            2 <= j < spec_listing(fs.inodes(), p).len() && (#[trigger] spec_listing(
                fs.inodes(),
                p,
            )[j]).3 == name ==> (spec_lookup(fs, p, name) matches Ok(a) && a.ino == spec_listing(
                fs.inodes(),
                p,
            )[j].0),
{
    let s = fs.inodes();
    let cs = node(s, p).children@;
    let full = spec_listing(s, p);
    assert(node_ok(s, p - 1));
    if spec_lookup(fs, p, name) is Ok {
        let c = spec_find_child(s, p, name)->Some_0;
        lemma_find_in_found(s, cs, name);
        let j0 = choose|j: int| 0 <= j < cs.len() && #[trigger] cs[j] == c && node(s, cs[j]).name@
            == name;
        assert(full[j0 + 2].3 == name && full[j0 + 2].0 == c);
        assert(spec_lookup(fs, p, name)->Ok_0.ino == c);
    }
    assert forall|j: int|
        2 <= j < full.len() && (#[trigger] full[j]).3 == name implies spec_lookup(
        fs,
        p,
        name,
    ) matches Ok(a) && a.ino == full[j].0 by {
        assert(full[j].0 == cs[j - 2] && full[j].3 == node(s, cs[j - 2]).name@);
        if spec_find_child(s, p, name) is None {
            lemma_find_in_miss(s, cs, name);
            assert(node(s, cs[j - 2]).name@ != name);
            assert(false);
        }
        let c = spec_find_child(s, p, name)->Some_0;
        lemma_find_in_found(s, cs, name);
        let j0 = choose|jj: int| 0 <= jj < cs.len() && #[trigger] cs[jj] == c && node(
            s,
            cs[jj],
        ).name@ == name;
        if j0 != j - 2 {
            assert(children_distinct(s, p - 1));
            if j0 < j - 2 {
                assert(node(s, cs[j0]).name@ != node(s, cs[j - 2]).name@);
            } else {
                assert(node(s, cs[j - 2]).name@ != node(s, cs[j0]).name@);
            }
            assert(false);
        }
        assert(spec_lookup(fs, p, name)->Ok_0.ino == c);
    }
}

/// getattr is a pure function of the sealed state and the identifier: any two
/// replies meeting its contract are the same.
pub proof fn lemma_getattr_deterministic(
    fs: FuseFs,
    ino: u64,
    r1: Result<Attr, Errno>,
    r2: Result<Attr, Errno>,
)
    requires
        r1 == spec_getattr(fs, ino),
        r2 == spec_getattr(fs, ino),
    ensures
        r1 == r2,
{
}

/// read is a pure function of the sealed state and its arguments: any two
/// replies meeting its contract are the same.
pub proof fn lemma_read_deterministic(
    fs: FuseFs,
    ino: u64,
    fh: u64,
    offset: i64,
    size: u32,
    r1: Result<Seq<u8>, Errno>,
    r2: Result<Seq<u8>, Errno>,
)
    requires
        r1 == spec_read(fs, ino, fh, offset, size),
        r2 == spec_read(fs, ino, fh, offset, size),
    ensures
        r1 == r2,
{
}

/// A readdir at offset zero yields the full listing, and one batch followed
/// by the reply that resumes after the batch's last pseudo-offset restores
/// the full listing.
pub proof fn lemma_readdir_resume(fs: FuseFs, ino: u64, o: i64)
    requires
        tree_wf(fs.inodes()),
        has_ino(fs.inodes(), ino),
        node(fs.inodes(), ino).kind == InodeKind::Directory,
        1 <= o < spec_listing(fs.inodes(), ino).len(),
    ensures
        spec_readdir(fs, ino, DIR_FH, 0) == Result::<Seq<(u64, i64, bool, Seq<u8>)>, Errno>::Ok(
            spec_listing(fs.inodes(), ino),
        ),
        spec_readdir(fs, ino, DIR_FH, o) matches Ok(rest) && spec_listing(fs.inodes(), ino).take(
            o + 1,
        ) + rest =~= spec_listing(fs.inodes(), ino),
{
    let full = spec_listing(fs.inodes(), ino);
    assert(full.skip(spec_resume(0, full.len())) =~= full);
    assert(spec_resume(o, full.len()) == o + 1);
    assert(full.take(o + 1) + full.skip(o + 1) =~= full);
}

/// Under the handler invariant, read never reports an internal-consistency
/// failure: every file record carries a payload source and that source
/// resolves, so neither EINVAL nor EIO is ever the reply.
pub proof fn lemma_read_no_internal_errors(fs: FuseFs, ino: u64, fh: u64, offset: i64, size: u32)
    requires
        fs.wf(),
    ensures
        spec_read(fs, ino, fh, offset, size) != Result::<Seq<u8>, Errno>::Err(Errno::Einval),
        spec_read(fs, ino, fh, offset, size) != Result::<Seq<u8>, Errno>::Err(Errno::Eio),
{
    if fh == FIL_FH && has_ino(fs.inodes(), ino) && node(fs.inodes(), ino).kind
        != InodeKind::Directory {
        assert(node_ok(fs.inodes(), ino - 1));
        assert(fs.inodes()[ino - 1].src matches Some(s) ==> file_link_ok(
            s,
            fs.inodes()[ino - 1].size,
            fs.blobs(),
        ));
    }
}

/// Last-wins deduplication: when `j` is the last regular occurrence of a
/// file's entry path within its archive, and the file records an occurrence
/// no earlier than `j` (as placement guarantees), then it records exactly
/// occurrence `j` and carries that occurrence's payload length.
pub proof fn lemma_last_wins(fs: FuseFs, f: u64, j: int)
    requires
        fs.wf(),
        has_ino(fs.inodes(), f),
        node(fs.inodes(), f).src is Some,
        ({
            let t = node(fs.inodes(), f).src->Some_0;
            let m = archive_entries(fs.blobs()[t.archive_index as int].bytes@)->Some_0;
            &&& t.entry_index >= j
            &&& 0 <= j < m.len()
            &&& m[j].1 && m[j].0 == t.entry_path@
            &&& forall|k: int|
                j < k < m.len() ==> !((#[trigger] m[k]).1 && m[k].0 == t.entry_path@)
        }),
    ensures
        ({
            let t = node(fs.inodes(), f).src->Some_0;
            let m = archive_entries(fs.blobs()[t.archive_index as int].bytes@)->Some_0;
            t.entry_index == j && node(fs.inodes(), f).size == m[j].2.len()
        }),
{
    let t = node(fs.inodes(), f).src->Some_0;
    assert(fs.inodes()[f - 1].src matches Some(s) ==> file_link_ok(
        s,
        fs.inodes()[f - 1].size,
        fs.blobs(),
    ));
    let m = archive_entries(fs.blobs()[t.archive_index as int].bytes@)->Some_0;
    if t.entry_index > j {
        assert(m[t.entry_index as int].1 && m[t.entry_index as int].0 == t.entry_path@);
        assert(false);
    }
}

/// Any write-like open flag is refused with EROFS, whatever the inode is.
pub proof fn lemma_open_readonly(fs: FuseFs, ino: u64, flags: i32, fh: u64)
    requires
        flags & FORBIDDEN_OPEN_FLAGS != 0,
    ensures
        spec_open_common(fs, ino, flags, fh) == Result::<(u64, u32), Errno>::Err(Errno::Erofs),
{
}

} // verus!
