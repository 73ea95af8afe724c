//! The filesystem: the inode table built from the loaded archives, and the
//! protocol handler operations that the kernel bridge invokes.
//!
//! The state is built once by `init` and never changes afterwards; every
//! handler operation takes `&self`, so each reply is a function of the sealed
//! state and the request arguments alone.

use vstd::prelude::*;
use crate::archive::{TarEntry, archive_entries, decode_archive};
use crate::inode::{
    Attr, DirChild, DirEntry, Errno, FileSource, Inode, InodeKind, InodeTreeItem, spec_attr_of,
    attr_of, ROOT_INO, DIR_FH, FIL_FH, FORBIDDEN_OPEN_FLAGS, KEEP_CACHE_FLAG, MAX_INODES,
};
use crate::table::{
    Tree, has_ino, node, tree_wf, node_ok, spec_find_child, lemma_find_child_valid, copy_bytes,
    entry_link_ok, foreign_kept_at, src_stable_at, lemma_find_in_miss, lemma_find_in_found,
    keeps_identity, children_extended, keeps_foreign_files, src_stable, lemma_prefix_push,
    lemma_prefix_refl, lemma_extension_trans, lemma_find_child_stable, resolve_from, spec_split,
    path_ok, blocked_at, fill_claim, children_distinct, child_link_ok, lemma_resolve_stable,
};

verus! {

/// One source file handed to the mount: its name inside the source directory
/// and its raw bytes.
pub struct SourceFile {
    pub name: Vec<u8>,
    pub bytes: Vec<u8>,
}

/// One loaded archive: the name it was found under and its raw, still
/// compressed bytes.
pub struct ArchiveBlob {
    pub path: Vec<u8>,
    pub bytes: Vec<u8>,
}

/// The file source `s` with payload length `size` points into `blobs`: at the
/// archive whose path it names, and within that archive's decoded entry list
/// at a regular entry bearing its entry path, whose payload is `size` bytes.
pub open spec fn file_link_ok(s: FileSource, size: u64, blobs: Seq<ArchiveBlob>) -> bool {
    &&& s.archive_index < blobs.len()
    &&& blobs[s.archive_index as int].path@ == s.archive_path@
    &&& archive_entries(blobs[s.archive_index as int].bytes@) matches Some(m) && s.entry_index
        < m.len() && m[s.entry_index as int].0 == s.entry_path@ && m[s.entry_index as int].1
        && m[s.entry_index as int].2.len() == size
}

/// Every file record points at a real entry of a loaded archive.
pub open spec fn links_wf(inodes: Seq<Inode>, blobs: Seq<ArchiveBlob>) -> bool {
    forall|i: int|
        0 <= i < inodes.len() ==> ((#[trigger] inodes[i].src) matches Some(s) ==> file_link_ok(
            s,
            inodes[i].size,
            blobs,
        ))
}

/// Entry `j` of the decoded entry list `m` landed on the file inode `f`:
/// the entry's component path reaches `f` below `top`, and `f` records this
/// archive and this entry path at an occurrence no earlier than `j`.
pub open spec fn placed_file_at(
    s: Seq<Inode>,
    top: u64,
    a: usize,
    m: Seq<(Seq<u8>, bool, Seq<u8>)>,
    j: int,
    f: u64,
) -> bool {
    &&& has_ino(s, f)
    &&& resolve_from(s, top, spec_split(m[j].0)) == Option::Some(f)
    &&& node(s, f).kind == InodeKind::RegularFile
    &&& node(s, f).src matches Some(t) && t.archive_index == a && t.entry_path@ == m[j].0
        && t.entry_index >= j
}

/// Every regular entry of the decoded entry list `m` whose path passes the
/// component filter is materialized below `top`, unless the table overflowed
/// or a node of the wrong shape blocks its path.
pub open spec fn archive_subtree_placed(
    s: Seq<Inode>,
    top: u64,
    a: usize,
    m: Seq<(Seq<u8>, bool, Seq<u8>)>,
) -> bool {
    forall|j: int|
        0 <= j < m.len() ==> ((#[trigger] m[j]).1 && path_ok(m[j].0) ==> s.len() >= MAX_INODES || (
        exists|l: int|
            1 <= l <= spec_split(m[j].0).len() && #[trigger] blocked_at(
                s,
                top,
                spec_split(m[j].0),
                l,
                a,
                m[j].0,
            )) || (exists|f: u64| #[trigger] placed_file_at(s, top, a, m, j, f)))
}

/// The blob at position `a` backs the root child `c`: it is named by the
/// child's name with the `.crate` extension restored, it decodes, and its
/// entries are materialized below `c`.
pub open spec fn blob_backs_child(s: Seq<Inode>, blobs: Seq<ArchiveBlob>, a: usize, c: u64) -> bool {
    &&& blobs[a as int].path@ == node(s, c).name@ + crate_ext()
    &&& archive_entries(blobs[a as int].bytes@) is Some
    &&& archive_subtree_placed(s, c, a, archive_entries(blobs[a as int].bytes@)->Some_0)
}

/// The root child at position `j` is backed by some loaded archive.
pub open spec fn root_child_backed(s: Seq<Inode>, blobs: Seq<ArchiveBlob>, j: int) -> bool {
    exists|a: usize|
        a < blobs.len() && #[trigger] blob_backs_child(
            s,
            blobs,
            a,
            node(s, ROOT_INO).children@[j],
        )
}

/// Every child of the root is backed by a loaded archive.
pub open spec fn roots_backed(s: Seq<Inode>, blobs: Seq<ArchiveBlob>) -> bool {
    forall|j: int|
        0 <= j < node(s, ROOT_INO).children@.len() ==> #[trigger] root_child_backed(s, blobs, j)
}

/// A name with the `.crate` extension is its stem with the extension back.
proof fn lemma_stem_extends(name: Seq<u8>)
    requires
        spec_has_crate_ext(name),
    ensures
        spec_stem(name) + crate_ext() == name,
{
    assert(spec_stem(name) + crate_ext() =~= name);
}

/// A placement blocked for one archive stays blocked across the loading of
/// a different archive: such a load never hands a node the blocked archive's
/// identity.
proof fn lemma_blocked_stable_cross(
    s1: Seq<Inode>,
    s2: Seq<Inode>,
    top: u64,
    cv: Seq<Seq<u8>>,
    l: int,
    a: usize,
    epath: Seq<u8>,
    b: usize,
)
    requires
        tree_wf(s1),
        tree_wf(s2),
        has_ino(s1, top),
        1 <= l <= cv.len(),
        a != b,
        keeps_identity(s1, s2),
        children_extended(s1, s2),
        src_stable(s1, s2, b),
        blocked_at(s1, top, cv, l, a, epath),
    ensures
        blocked_at(s2, top, cv, l, a, epath),
{
    lemma_resolve_stable(s1, s2, top, cv.take(l));
    let x = resolve_from(s1, top, cv.take(l))->Some_0;
    assert(s2[x - 1].kind == s1[x - 1].kind);
    if l == cv.len() && node(s1, x).kind != InodeKind::Directory {
        let t = node(s1, x).src->Some_0;
        assert(node_ok(s2, x - 1));
        assert(s2[x - 1].src is Some);
        let t2 = s2[x - 1].src->Some_0;
        assert(src_stable_at(s1, s2, x - 1, b));
        if t2.archive_index == b {
            assert(t2.archive_index != a);
        } else {
            assert(s2[x - 1].src == s1[x - 1].src);
        }
    }
}

/// A materialized subtree of one archive survives the loading of another:
/// the later load keeps every record's identity, only appends children, and
/// touches no file of the earlier archive.
proof fn lemma_archive_placed_stable(
    s1: Seq<Inode>,
    s2: Seq<Inode>,
    top: u64,
    a: usize,
    b: usize,
    m: Seq<(Seq<u8>, bool, Seq<u8>)>,
)
    requires
        tree_wf(s1),
        tree_wf(s2),
        has_ino(s1, top),
        a != b,
        keeps_identity(s1, s2),
        children_extended(s1, s2),
        keeps_foreign_files(s1, s2, b),
        src_stable(s1, s2, b),
        archive_subtree_placed(s1, top, a, m),
    ensures
        archive_subtree_placed(s2, top, a, m),
{
    assert forall|j: int|
        0 <= j < m.len() implies ((#[trigger] m[j]).1 && path_ok(m[j].0) ==> s2.len()
        >= MAX_INODES || (exists|l: int|
        1 <= l <= spec_split(m[j].0).len() && #[trigger] blocked_at(
            s2,
            top,
            spec_split(m[j].0),
            l,
            a,
            m[j].0,
        )) || (exists|f: u64| #[trigger] placed_file_at(s2, top, a, m, j, f))) by {
        if m[j].1 && path_ok(m[j].0) {
            if s1.len() >= MAX_INODES {
            } else if exists|l: int|
                1 <= l <= spec_split(m[j].0).len() && #[trigger] blocked_at(
                    s1,
                    top,
                    spec_split(m[j].0),
                    l,
                    a,
                    m[j].0,
                ) {
                let l = choose|l: int|
                    1 <= l <= spec_split(m[j].0).len() && #[trigger] blocked_at(
                        s1,
                        top,
                        spec_split(m[j].0),
                        l,
                        a,
                        m[j].0,
                    );
                lemma_blocked_stable_cross(s1, s2, top, spec_split(m[j].0), l, a, m[j].0, b);
            } else {
                let f = choose|f: u64| #[trigger] placed_file_at(s1, top, a, m, j, f);
                lemma_resolve_stable(s1, s2, top, spec_split(m[j].0));
                assert(s2[f - 1].kind == s1[f - 1].kind);
                assert(foreign_kept_at(s1, s2, f - 1, b));
                assert(s2[f - 1].size == s1[f - 1].size && s2[f - 1].src == s1[f - 1].src);
                assert(placed_file_at(s2, top, a, m, j, f));
            }
        }
    }
}

/// Copy a list of identifiers.
fn copy_inos(v: &[u64]) -> (r: Vec<u64>)
    ensures
        r@ == v@,
{
    let mut r: Vec<u64> = Vec::new();
    let n = v.len();
    let mut i: usize = 0;
    while i < n
        invariant
            i <= n,
            n == v@.len(),
            r@ == v@.take(i as int),
        decreases n - i,
    {
        r.push(v[i]);
        proof {
            assert(r@ =~= v@.take(i as int + 1));
        }
        i += 1;
    }
    proof {
        assert(v@.take(n as int) =~= v@);
    }
    r
}

/// The bytes of the `.crate` extension.
pub open spec fn crate_ext() -> Seq<u8> {
    seq![46u8, 99u8, 114u8, 97u8, 116u8, 101u8]
}

/// Whether a file name carries the `.crate` extension.
pub open spec fn spec_has_crate_ext(name: Seq<u8>) -> bool {
    name.len() >= 6 && name.skip(name.len() - 6) == crate_ext()
}

/// The file stem: the name with the `.crate` extension cut off.
pub open spec fn spec_stem(name: Seq<u8>) -> Seq<u8> {
    name.take(name.len() - 6)
}

/// Whether `name` ends in `.crate`.
fn has_crate_extension(name: &[u8]) -> (r: bool)
    ensures
        r == spec_has_crate_ext(name@),
{
    let n = name.len();
    if n < 6 {
        return false;
    }
    let r = name[n - 6] == 46 && name[n - 5] == 99 && name[n - 4] == 114 && name[n - 3] == 97
        && name[n - 2] == 116 && name[n - 1] == 101;
    proof {
        let m = n - 6 as int;
        assert(forall|k: int| 0 <= k < 6 ==> name@.skip(m)[k] == name@[m + k]);
        if r {
            assert(name@.skip(m) =~= crate_ext());
        } else {
            if name@.skip(m) == crate_ext() {
                assert(name@[m] == 46 && name@[m + 1] == 99 && name@[m + 2] == 114 && name@[m + 3]
                    == 97 && name@[m + 4] == 116 && name@[m + 5] == 101);
            }
        }
    }
    r
}

/// The protocol handler state: the sealed inode table, the loaded archives,
/// and the source files still waiting to be loaded by `init`.
pub struct FuseFs {
    tree: Tree,
    archives: Vec<ArchiveBlob>,
    pending: Vec<SourceFile>,
    uid: u32,
    gid: u32,
}

impl FuseFs {
    /// The inode records, by identifier order.
    pub closed spec fn inodes(&self) -> Seq<Inode> {
        self.tree@
    }

    /// The loaded archives, in load order.
    pub closed spec fn blobs(&self) -> Seq<ArchiveBlob> {
        self.archives@
    }

    /// The fixed owner reported in every attribute record.
    pub closed spec fn uid_spec(&self) -> u32 {
        self.uid
    }

    /// The fixed group reported in every attribute record.
    pub closed spec fn gid_spec(&self) -> u32 {
        self.gid
    }

    /// The source files still waiting to be loaded.
    pub closed spec fn pending_files(&self) -> Seq<SourceFile> {
        self.pending@
    }

    /// The handler invariant: the tree is structurally sound and every file
    /// record points at a real entry of a loaded archive.
    pub open spec fn wf(&self) -> bool {
        &&& tree_wf(self.inodes())
        &&& links_wf(self.inodes(), self.blobs())
    }

    /// A handler over the given source files, owned by `uid`/`gid`, with an
    /// empty tree; `init` builds the tree.
    pub fn new(files: Vec<SourceFile>, uid: u32, gid: u32) -> (fs: FuseFs)
        ensures
            fs.wf(),
            fs.uid_spec() == uid,
            fs.gid_spec() == gid,
            fs.inodes().len() == 1,
            node(fs.inodes(), ROOT_INO).kind == InodeKind::Directory,
            node(fs.inodes(), ROOT_INO).children@ == Seq::<u64>::empty(),
            fs.blobs().len() == 0,
            fs.pending_files() == files@,
    {
        let fs = FuseFs { tree: Tree::new(), archives: Vec::new(), pending: files, uid, gid };
        proof {
            assert forall|i: int|
                0 <= i < fs.inodes().len() implies ((#[trigger] fs.inodes()[i].src) matches Some(s)
                ==> file_link_ok(s, fs.inodes()[i].size, fs.blobs())) by {
                assert(fs.inodes()[i].src is None);
            }
        }
        fs
    }

    /// Load one source file. The archive is loaded exactly when the file
    /// name carries the `.crate` extension, its stem is not yet a child of
    /// the root, the table has room, and the bytes decode as a gzip tar
    /// archive; then a directory named by the stem is created under the root
    /// and the archive's entries are materialized below it. Any other source
    /// file is skipped and the state is left as it was.
    pub fn load_archive(&mut self, name: Vec<u8>, bytes: Vec<u8>) -> (loaded: bool)
        requires
            old(self).wf(),
        ensures
            final(self).wf(),
            final(self).uid_spec() == old(self).uid_spec(),
            final(self).gid_spec() == old(self).gid_spec(),
            loaded == (spec_has_crate_ext(name@) && spec_find_child(
                old(self).inodes(),
                ROOT_INO,
                spec_stem(name@),
            ) is None && old(self).inodes().len() < MAX_INODES && archive_entries(bytes@) is Some),
            loaded ==> spec_find_child(final(self).inodes(), ROOT_INO, spec_stem(name@)) is Some,
            loaded ==> archive_subtree_placed(
                final(self).inodes(),
                spec_find_child(final(self).inodes(), ROOT_INO, spec_stem(name@))->Some_0,
                (final(self).blobs().len() - 1) as usize,
                archive_entries(bytes@)->Some_0,
            ),
            loaded ==> final(self).blobs() == old(self).blobs().push(
                (ArchiveBlob { path: name, bytes }),
            ),
            loaded ==> keeps_identity(old(self).inodes(), final(self).inodes()),
            loaded ==> children_extended(old(self).inodes(), final(self).inodes()),
            loaded ==> keeps_foreign_files(
                old(self).inodes(),
                final(self).inodes(),
                (final(self).blobs().len() - 1) as usize,
            ),
            loaded ==> src_stable(
                old(self).inodes(),
                final(self).inodes(),
                (final(self).blobs().len() - 1) as usize,
            ),
            loaded ==> final(self).inodes().len() > old(self).inodes().len(),
            loaded ==> node(final(self).inodes(), ROOT_INO).children@ == node(
                old(self).inodes(),
                ROOT_INO,
            ).children@.push(
                spec_find_child(final(self).inodes(), ROOT_INO, spec_stem(name@))->Some_0,
            ),
            !loaded ==> final(self).inodes() == old(self).inodes() && final(self).blobs() == old(
                self,
            ).blobs(),
            final(self).pending_files() == old(self).pending_files(),
    {
        if !has_crate_extension(name.as_slice()) {
            return false;
        }
        let name_len = name.len();
        let stem = copy_prefix(name.as_slice(), name_len - 6);
        let already = match self.tree.find_child_by_name(ROOT_INO, stem.as_slice()) {
            Option::Some(_) => true,
            Option::None => false,
        };
        if already {
            return false;
        }
        if (self.tree.len() as u64) >= MAX_INODES {
            return false;
        }
        match decode_archive(&bytes) {
            Option::None => {
                // not a well-formed gzip tar archive: skip it
                false
            }
            Option::Some(entries) => {
                let ghost s_pre = self.inodes();
                let ghost b_pre = self.blobs();
                let top = self.tree.insert(ROOT_INO, InodeKind::Directory, stem, 0, Option::None);
                proof {
                    assert forall|i: int|
                        0 <= i < self.inodes().len() implies ((
                    #[trigger] self.inodes()[i].src) matches Some(s) ==> file_link_ok(
                        s,
                        self.inodes()[i].size,
                        self.blobs(),
                    )) by {
                        if i < s_pre.len() {
                            if i != 0 {
                                assert(self.inodes()[i] == s_pre[i]);
                            } else {
                                assert(self.inodes()[i].src == s_pre[i].src && self.inodes()[i].size
                                    == s_pre[i].size);
                            }
                        } else {
                            assert(self.inodes()[i].src is None);
                        }
                    }
                }
                let aidx = self.archives.len();
                let apath2 = copy_bytes(name.as_slice());
                let ghost s_mid = self.inodes();
                self.archives.push(ArchiveBlob { path: name, bytes });
                proof {
                    assert forall|i: int|
                        0 <= i < self.inodes().len() implies ((
                    #[trigger] self.inodes()[i].src) matches Some(s) ==> file_link_ok(
                        s,
                        self.inodes()[i].size,
                        self.blobs(),
                    )) by {
                        if self.inodes()[i].src is Some {
                            let s = self.inodes()[i].src->Some_0;
                            assert(file_link_ok(s, self.inodes()[i].size, b_pre.push(
                                self.blobs()[aidx as int],
                            )) == file_link_ok(s, self.inodes()[i].size, self.blobs()));
                            assert(self.blobs()[s.archive_index as int]
                                == b_pre[s.archive_index as int]);
                        }
                    }
                }
                let ghost s_fill = self.inodes();
                let ghost blobs_now = self.blobs();
                proof {
                    assert forall|i: int|
                        0 <= i < s_fill.len() implies ((#[trigger] s_fill[i].src) matches Some(s)
                        ==> s.archive_index != aidx) by {
                        if s_fill[i].src is Some {
                            let s = s_fill[i].src->Some_0;
                            assert(file_link_ok(s, s_fill[i].size, blobs_now));
                        }
                    }
                    // the insert of the stem directory keeps every old record's
                    // identity and only appends one child to the root
                    assert forall|i: int|
                        0 <= i < s_pre.len() implies (#[trigger] s_fill[i]).kind == s_pre[i].kind
                        && s_fill[i].name == s_pre[i].name && s_fill[i].parent
                        == s_pre[i].parent by {
                        if i != 0 {
                            assert(s_fill[i] == s_pre[i]);
                        }
                    }
                    assert forall|i: int|
                        0 <= i < s_pre.len() implies (#[trigger] s_pre[i].children)@.is_prefix_of(
                        s_fill[i].children@,
                    ) by {
                        if i == 0 {
                            lemma_prefix_push(s_pre[0].children@, top);
                        } else {
                            assert(s_fill[i] == s_pre[i]);
                            lemma_prefix_refl(s_pre[i].children@);
                        }
                    }
                    assert(keeps_identity(s_pre, s_fill));
                    assert(children_extended(s_pre, s_fill));
                }
                proof {
                    assert(top != ROOT_INO);
                }
                let out = self.tree.fill_tree(top, aidx, &apath2, &entries);
                proof {
                    lemma_extension_trans(s_pre, s_fill, self.inodes());
                    // the stem insert changes no payload source, so the two
                    // preservation aggregates chain through it
                    assert forall|i: int|
                        0 <= i < s_pre.len() implies #[trigger] foreign_kept_at(
                        s_pre,
                        self.inodes(),
                        i,
                        aidx,
                    ) by {
                        assert(s_fill[i].size == s_pre[i].size && s_fill[i].src == s_pre[i].src);
                        assert(foreign_kept_at(s_fill, self.inodes(), i, aidx));
                    }
                    assert forall|i: int|
                        0 <= i < self.inodes().len() implies #[trigger] src_stable_at(
                        s_pre,
                        self.inodes(),
                        i,
                        aidx,
                    ) by {
                        assert(src_stable_at(s_fill, self.inodes(), i, aidx));
                        if i < s_fill.len() {
                            if i < s_pre.len() {
                                assert(s_fill[i].src == s_pre[i].src);
                            } else {
                                assert(s_fill[i].src is None);
                            }
                        }
                    }
                }
                proof {
                    let blob = blobs_now[aidx as int];
                    assert(blob.path@ == apath2@);
                    assert(archive_entries(blob.bytes@) == Some(
                        entries@.map_values(|e: TarEntry| e@),
                    ));
                    let m = entries@.map_values(|e: TarEntry| e@);
                    assert forall|i: int|
                        0 <= i < self.inodes().len() implies ((
                    #[trigger] self.inodes()[i].src) matches Some(s) ==> file_link_ok(
                        s,
                        self.inodes()[i].size,
                        self.blobs(),
                    )) by {
                        if self.inodes()[i].src is Some {
                            let s = self.inodes()[i].src->Some_0;
                            if s.archive_index == aidx {
                                assert(entry_link_ok(s, self.inodes()[i].size, apath2@, entries@));
                                assert(m[s.entry_index as int] == entries@[s.entry_index as int]@);
                            } else {
                                assert(src_stable_at(s_fill, self.inodes(), i, aidx));
                                assert(i < s_fill.len() && self.inodes()[i].src == s_fill[i].src);
                                assert(foreign_kept_at(s_fill, self.inodes(), i, aidx));
                                assert(file_link_ok(s, s_fill[i].size, blobs_now));
                            }
                        }
                    }
                    // the stem directory survives below the root: children are
                    // only appended and names never change
                    let cs_mid = node(s_fill, ROOT_INO).children@;
                    let cs_fin = node(self.inodes(), ROOT_INO).children@;
                    let j = cs_mid.len() - 1;
                    assert(cs_mid[j] == top);
                    assert(cs_mid.is_prefix_of(cs_fin));
                    assert(cs_mid =~= cs_fin.subrange(0, cs_mid.len() as int));
                    assert(cs_fin[j] == top);
                    assert(node(self.inodes(), top).name == node(s_fill, top).name);
                    assert(node(self.inodes(), top).name@ == spec_stem(name@));
                    if spec_find_child(self.inodes(), ROOT_INO, spec_stem(name@)) is None {
                        lemma_find_in_miss(self.inodes(), cs_fin, spec_stem(name@));
                        assert(node(self.inodes(), cs_fin[j]).name@ != spec_stem(name@));
                        assert(false);
                    }
                    // the found child IS the stem directory: names under the
                    // root are pairwise distinct
                    let r = spec_find_child(self.inodes(), ROOT_INO, spec_stem(name@))->Some_0;
                    lemma_find_in_found(self.inodes(), cs_fin, spec_stem(name@));
                    let jr = choose|jj: int|
                        0 <= jj < cs_fin.len() && #[trigger] cs_fin[jj] == r && node(
                            self.inodes(),
                            cs_fin[jj],
                        ).name@ == spec_stem(name@);
                    if jr != j {
                        assert(node_ok(self.inodes(), 0));
                        assert(children_distinct(self.inodes(), 0));
                        if jr < j {
                            assert(node(self.inodes(), cs_fin[jr]).name@ != node(
                                self.inodes(),
                                cs_fin[j],
                            ).name@);
                        } else {
                            assert(node(self.inodes(), cs_fin[j]).name@ != node(
                                self.inodes(),
                                cs_fin[jr],
                            ).name@);
                        }
                        assert(false);
                    }
                    assert(r == top);
                    // the root gained exactly this one child: the stem directory
                    assert(self.inodes()[0] == s_fill[0]);
                    assert(node(self.inodes(), ROOT_INO).children@ == node(
                        s_pre,
                        ROOT_INO,
                    ).children@.push(top));
                    // every entry's fate carries over to the decoded view
                    assert forall|jj: int|
                        0 <= jj < m.len() implies ((#[trigger] m[jj]).1 && path_ok(m[jj].0)
                        ==> self.inodes().len() >= MAX_INODES || (exists|l: int|
                        1 <= l <= spec_split(m[jj].0).len() && #[trigger] blocked_at(
                            self.inodes(),
                            top,
                            spec_split(m[jj].0),
                            l,
                            aidx,
                            m[jj].0,
                        )) || (exists|f: u64| #[trigger] placed_file_at(
                            self.inodes(),
                            top,
                            aidx,
                            m,
                            jj,
                            f,
                        ))) by {
                        assert(m[jj] == entries@[jj]@);
                        assert(fill_claim(self.inodes(), top, aidx, entries@, jj, out@[jj]));
                        if m[jj].1 && path_ok(m[jj].0) {
                            match out@[jj] {
                                Option::Some(f) => {
                                    assert(placed_file_at(self.inodes(), top, aidx, m, jj, f));
                                }
                                Option::None => {
                                    if self.inodes().len() < MAX_INODES {
                                        let l = choose|l: int|
                                            1 <= l <= spec_split(entries@[jj].path@).len()
                                                && #[trigger] blocked_at(
                                                self.inodes(),
                                                top,
                                                spec_split(entries@[jj].path@),
                                                l,
                                                aidx,
                                                entries@[jj].path@,
                                            );
                                        assert(blocked_at(
                                            self.inodes(),
                                            top,
                                            spec_split(m[jj].0),
                                            l,
                                            aidx,
                                            m[jj].0,
                                        ));
                                    }
                                }
                            }
                        }
                    }
                    assert(archive_subtree_placed(self.inodes(), top, aidx, m));
                    assert(aidx == (self.blobs().len() - 1) as usize);
                }
                true
            }
        }
    }

    /// Build the tree from a fresh state: load every pending source file in
    /// directory order. Files without the `.crate` extension, archives that
    /// do not decode, and archives whose stem is already taken are skipped;
    /// the others are loaded. Always succeeds; afterwards every pending
    /// `.crate` file that decodes (unless the table overflowed) has its stem
    /// as a child of the root, and that child carries a materialized archive
    /// of the same name.
    #[verifier::loop_isolation(false)]
    pub fn init(&mut self) -> (r: Result<(), i32>)
        requires
            old(self).wf(),
            old(self).inodes().len() == 1,
            old(self).blobs().len() == 0,
            node(old(self).inodes(), ROOT_INO).children@ == Seq::<u64>::empty(),
        ensures
            final(self).wf(),
            final(self).uid_spec() == old(self).uid_spec(),
            final(self).gid_spec() == old(self).gid_spec(),
            final(self).pending_files() == old(self).pending_files(),
            r is Ok,
            forall|k: int|
                0 <= k < old(self).pending_files().len() ==> {
                    let f = #[trigger] old(self).pending_files()[k];
                    spec_has_crate_ext(f.name@) && archive_entries(f.bytes@) is Some
                        && final(self).inodes().len() < MAX_INODES ==> (spec_find_child(
                        final(self).inodes(),
                        ROOT_INO,
                        spec_stem(f.name@),
                    ) matches Some(c) && exists|a: usize|
                        a < final(self).blobs().len() && #[trigger] blob_backs_child(
                            final(self).inodes(),
                            final(self).blobs(),
                            a,
                            c,
                        ))
                },
    {
        let n = self.pending.len();
        let mut k: usize = 0;
        while k < n
            invariant
                self.wf(),
                k <= n,
                n == self.pending_files().len(),
                self.pending_files() == old(self).pending_files(),
                self.uid_spec() == old(self).uid_spec(),
                self.gid_spec() == old(self).gid_spec(),
                forall|kk: int|
                    0 <= kk < k ==> {
                        let f = #[trigger] self.pending_files()[kk];
                        spec_has_crate_ext(f.name@) && archive_entries(f.bytes@) is Some
                            && self.inodes().len() < MAX_INODES ==> spec_find_child(
                            self.inodes(),
                            ROOT_INO,
                            spec_stem(f.name@),
                        ) is Some
                    },
                roots_backed(self.inodes(), self.blobs()),
            decreases n - k,
        {
            let ghost s_before = self.inodes();
            let ghost b_before = self.blobs();
            let name = copy_bytes(self.pending[k].name.as_slice());
            let bytes = copy_bytes(self.pending[k].bytes.as_slice());
            let ghost namev = name@;
            let loaded = self.load_archive(name, bytes);
            let blob_count = self.archives.len();
            proof {
                assert(blob_count == self.blobs().len());
                assert forall|kk: int| 0 <= kk < k + 1 implies {
                    let f = #[trigger] self.pending_files()[kk];
                    spec_has_crate_ext(f.name@) && archive_entries(f.bytes@) is Some
                        && self.inodes().len() < MAX_INODES ==> spec_find_child(
                        self.inodes(),
                        ROOT_INO,
                        spec_stem(f.name@),
                    ) is Some
                } by {
                    let f = self.pending_files()[kk];
                    if spec_has_crate_ext(f.name@) && archive_entries(f.bytes@) is Some
                        && self.inodes().len() < MAX_INODES {
                        if kk < k {
                            // settled on an earlier round; the found child survives
                            assert(s_before.len() <= self.inodes().len());
                            assert(spec_find_child(s_before, ROOT_INO, spec_stem(f.name@))
                                is Some);
                            if loaded {
                                lemma_find_child_stable(
                                    s_before,
                                    self.inodes(),
                                    ROOT_INO,
                                    spec_stem(f.name@),
                                );
                            }
                        } else {
                            // this round's file: loaded, or its stem was taken
                            if !loaded {
                                assert(spec_find_child(s_before, ROOT_INO, spec_stem(f.name@))
                                    is Some);
                            }
                        }
                    }
                }
                // every root child is still backed by a loaded archive
                assert forall|j: int|
                    0 <= j < node(self.inodes(), ROOT_INO).children@.len() implies
                    #[trigger] root_child_backed(self.inodes(), self.blobs(), j) by {
                    assert(roots_backed(s_before, b_before));
                    let c = node(self.inodes(), ROOT_INO).children@[j];
                    if !loaded {
                        assert(self.inodes() == s_before && self.blobs() == b_before);
                        assert(c == node(s_before, ROOT_INO).children@[j]);
                        assert(root_child_backed(s_before, b_before, j));
                        let a = choose|a: usize|
                            a < b_before.len() && #[trigger] blob_backs_child(
                                s_before,
                                b_before,
                                a,
                                node(s_before, ROOT_INO).children@[j],
                            );
                        assert(blob_backs_child(
                            self.inodes(),
                            self.blobs(),
                            a,
                            node(self.inodes(), ROOT_INO).children@[j],
                        ));
                        assert(root_child_backed(self.inodes(), self.blobs(), j));
                    } else {
                        let aidx: usize = (blob_count - 1) as usize;
                        assert(aidx + 1 == self.blobs().len());
                        let topc = spec_find_child(
                            self.inodes(),
                            ROOT_INO,
                            spec_stem(namev),
                        )->Some_0;
                        let newc = node(self.inodes(), ROOT_INO).children@;
                        let oldc = node(s_before, ROOT_INO).children@;
                        assert(newc == oldc.push(topc));
                        if j < oldc.len() {
                            assert(c == oldc[j]);
                            assert(oldc[j] == node(s_before, ROOT_INO).children@[j]);
                            assert(root_child_backed(s_before, b_before, j));
                            let a = choose|a: usize|
                                a < b_before.len() && #[trigger] blob_backs_child(
                                    s_before,
                                    b_before,
                                    a,
                                    node(s_before, ROOT_INO).children@[j],
                                );
                            assert(node_ok(s_before, 0));
                            assert(child_link_ok(s_before, 0, j));
                            assert(has_ino(s_before, c));
                            assert(self.blobs()[a as int] == b_before[a as int]);
                            assert(self.inodes()[c - 1].name == s_before[c - 1].name);
                            assert(a != aidx);
                            lemma_archive_placed_stable(
                                s_before,
                                self.inodes(),
                                c,
                                a,
                                aidx,
                                archive_entries(b_before[a as int].bytes@)->Some_0,
                            );
                            assert(blob_backs_child(
                                self.inodes(),
                                self.blobs(),
                                a,
                                node(self.inodes(), ROOT_INO).children@[j],
                            ));
                            assert(root_child_backed(self.inodes(), self.blobs(), j));
                        } else {
                            assert(c == topc);
                            lemma_find_child_valid(self.inodes(), ROOT_INO, spec_stem(namev));
                            lemma_stem_extends(namev);
                            assert(self.blobs()[aidx as int].path@ == namev);
                            assert(node(self.inodes(), topc).name@ == spec_stem(namev));
                            assert(blob_backs_child(
                                self.inodes(),
                                self.blobs(),
                                aidx,
                                node(self.inodes(), ROOT_INO).children@[j],
                            ));
                            assert(root_child_backed(self.inodes(), self.blobs(), j));
                        }
                    }
                }
            }
            k += 1;
        }
        proof {
            // assemble: the stem child of every decodable crate is backed
            assert forall|kk: int| 0 <= kk < n implies {
                let f = #[trigger] self.pending_files()[kk];
                spec_has_crate_ext(f.name@) && archive_entries(f.bytes@) is Some
                    && self.inodes().len() < MAX_INODES ==> (spec_find_child(
                    self.inodes(),
                    ROOT_INO,
                    spec_stem(f.name@),
                ) matches Some(c) && exists|a: usize|
                    a < self.blobs().len() && #[trigger] blob_backs_child(
                        self.inodes(),
                        self.blobs(),
                        a,
                        c,
                    ))
            } by {
                let f = self.pending_files()[kk];
                if spec_has_crate_ext(f.name@) && archive_entries(f.bytes@) is Some
                    && self.inodes().len() < MAX_INODES {
                    let c = spec_find_child(self.inodes(), ROOT_INO, spec_stem(f.name@))->Some_0;
                    let rootc = node(self.inodes(), ROOT_INO).children@;
                    lemma_find_in_found(self.inodes(), rootc, spec_stem(f.name@));
                    let j = choose|j: int|
                        0 <= j < rootc.len() && #[trigger] rootc[j] == c && node(
                            self.inodes(),
                            rootc[j],
                        ).name@ == spec_stem(f.name@);
                    assert(roots_backed(self.inodes(), self.blobs()));
                    assert(node(self.inodes(), ROOT_INO).children@[j] == c);
                    assert(root_child_backed(self.inodes(), self.blobs(), j));
                    let a = choose|a: usize|
                        a < self.blobs().len() && #[trigger] blob_backs_child(
                            self.inodes(),
                            self.blobs(),
                            a,
                            node(self.inodes(), ROOT_INO).children@[j],
                        );
                    assert(blob_backs_child(self.inodes(), self.blobs(), a, c));
                }
            }
        }
        Result::Ok(())
    }
}

/// What getattr replies: the attribute record of `ino`, or ENOENT.
pub open spec fn spec_getattr(fs: FuseFs, ino: u64) -> Result<Attr, Errno> {
    if has_ino(fs.inodes(), ino) {
        Result::Ok(spec_attr_of(node(fs.inodes(), ino), ino, fs.uid_spec(), fs.gid_spec()))
    } else {
        Result::Err(Errno::Enoent)
    }
}

/// What lookup replies: ENOENT for an unknown parent, ENOTDIR for a parent
/// that is no directory, the named child's attribute record on a hit, and
/// ENOENT on a miss.
pub open spec fn spec_lookup(fs: FuseFs, parent: u64, name: Seq<u8>) -> Result<Attr, Errno> {
    if !has_ino(fs.inodes(), parent) {
        Result::Err(Errno::Enoent)
    } else if node(fs.inodes(), parent).kind != InodeKind::Directory {
        Result::Err(Errno::Enotdir)
    } else {
        match spec_find_child(fs.inodes(), parent, name) {
            Option::Some(c) => Result::Ok(
                spec_attr_of(node(fs.inodes(), c), c, fs.uid_spec(), fs.gid_spec()),
            ),
            Option::None => Result::Err(Errno::Enoent),
        }
    }
}

/// What opendir and open reply: EROFS whenever a write-like flag is set
/// (before the inode is even looked at), ENOENT for an unknown inode, and
/// otherwise the given sentinel handle with the keep-cache bit.
pub open spec fn spec_open_common(fs: FuseFs, ino: u64, flags: i32, fh: u64) -> Result<
    (u64, u32),
    Errno,
> {
    if flags & FORBIDDEN_OPEN_FLAGS != 0 {
        Result::Err(Errno::Erofs)
    } else if !has_ino(fs.inodes(), ino) {
        Result::Err(Errno::Enoent)
    } else {
        Result::Ok((fh, KEEP_CACHE_FLAG))
    }
}

/// The full directory listing of `ino`: `.` at pseudo-offset 0, `..` at 1
/// (the parent, or the root itself), then the children in insertion order at
/// 2, 3, .... Each element is (inode, pseudo-offset, is-directory, name).
pub open spec fn spec_listing(s: Seq<Inode>, ino: u64) -> Seq<(u64, i64, bool, Seq<u8>)> {
    Seq::new(
        node(s, ino).children@.len() + 2,
        |i: int|
            if i == 0 {
                (ino, 0i64, true, seq![46u8])
            } else if i == 1 {
                (node(s, ino).parent, 1i64, true, seq![46u8, 46u8])
            } else {
                let c = node(s, ino).children@[i - 2];
                (c, i as i64, node(s, c).kind == InodeKind::Directory, node(s, c).name@)
            },
    )
}

/// Where a readdir call at `offset` resumes in the full listing: an offset of
/// zero (or below) asks for the whole listing; a positive offset names the
/// last pseudo-offset the caller saw, so the reply resumes right after it.
pub open spec fn spec_resume(offset: i64, len: nat) -> int {
    let start: int = if offset <= 0 {
        0
    } else {
        offset + 1
    };
    if start <= len {
        start
    } else {
        len as int
    }
}

/// What readdir replies: ENOENT for an unknown inode, EBADF for a handle
/// other than the directory sentinel, ENOTDIR for a file, and otherwise the
/// tail of the full listing from the resume point on.
pub open spec fn spec_readdir(fs: FuseFs, ino: u64, fh: u64, offset: i64) -> Result<
    Seq<(u64, i64, bool, Seq<u8>)>,
    Errno,
> {
    if !has_ino(fs.inodes(), ino) {
        Result::Err(Errno::Enoent)
    } else if fh != DIR_FH {
        Result::Err(Errno::Ebadf)
    } else if node(fs.inodes(), ino).kind != InodeKind::Directory {
        Result::Err(Errno::Enotdir)
    } else {
        let full = spec_listing(fs.inodes(), ino);
        Result::Ok(full.skip(spec_resume(offset, full.len())))
    }
}

/// What read replies: EBADF for a handle other than the file sentinel, ENOENT
/// for an unknown inode, EISDIR for a directory, EINVAL for a file record
/// without a payload source, EIO where the source does not resolve, and
/// otherwise the payload bytes from `offset` on, at most `size` of them,
/// empty once `offset` passes the end.
pub open spec fn spec_read(fs: FuseFs, ino: u64, fh: u64, offset: i64, size: u32) -> Result<
    Seq<u8>,
    Errno,
> {
    if fh != FIL_FH {
        Result::Err(Errno::Ebadf)
    } else if !has_ino(fs.inodes(), ino) {
        Result::Err(Errno::Enoent)
    } else if node(fs.inodes(), ino).kind == InodeKind::Directory {
        Result::Err(Errno::Eisdir)
    } else if node(fs.inodes(), ino).src is None {
        Result::Err(Errno::Einval)
    } else {
        let s = node(fs.inodes(), ino).src->Some_0;
        if s.archive_index >= fs.blobs().len() {
            Result::Err(Errno::Eio)
        } else {
            match archive_entries(fs.blobs()[s.archive_index as int].bytes@) {
                Option::None => Result::Err(Errno::Eio),
                Option::Some(m) => {
                    if s.entry_index >= m.len() {
                        Result::Err(Errno::Eio)
                    } else {
                        let data = m[s.entry_index as int].2;
                        let start: int = if offset <= data.len() {
                            offset as int
                        } else {
                            data.len() as int
                        };
                        let end: int = if offset + size <= data.len() {
                            offset + size
                        } else {
                            data.len() as int
                        };
                        Result::Ok(data.subrange(start, end))
                    }
                }
            }
        }
    }
}

impl FuseFs {
    /// Reply to getattr: the attribute record of `ino`, or ENOENT.
    pub fn getattr(&self, ino: u64) -> (r: Result<Attr, Errno>)
        ensures
            r == spec_getattr(*self, ino),
    {
        match self.tree.get(ino) {
            Option::Some(n) => Result::Ok(attr_of(n, ino, self.uid, self.gid)),
            Option::None => Result::Err(Errno::Enoent),
        }
    }

    /// Reply to lookup: scan the children of `parent` for one named `name`
    /// and reply with its attribute record.
    pub fn lookup(&self, parent: u64, name: &[u8]) -> (r: Result<Attr, Errno>)
        requires
            tree_wf(self.inodes()),
        ensures
            r == spec_lookup(*self, parent, name@),
    {
        let pn = match self.tree.get(parent) {
            Option::Some(pn) => pn,
            Option::None => {
                return Result::Err(Errno::Enoent);
            }
        };
        match pn.kind {
            InodeKind::RegularFile => Result::Err(Errno::Enotdir),
            InodeKind::Directory => {
                match self.tree.find_child_by_name(parent, name) {
                    Option::Some(c) => {
                        proof {
                            lemma_find_child_valid(self.inodes(), parent, name@);
                        }
                        match self.tree.get(c) {
                            Option::Some(cn) => Result::Ok(attr_of(cn, c, self.uid, self.gid)),
                            Option::None => Result::Err(Errno::Enoent),
                        }
                    }
                    Option::None => Result::Err(Errno::Enoent),
                }
            }
        }
    }

    /// Reply to opendir: refuse write-like flags with EROFS before anything
    /// else, then hand out the directory sentinel handle.
    pub fn opendir(&self, ino: u64, flags: i32) -> (r: Result<(u64, u32), Errno>)
        ensures
            r == spec_open_common(*self, ino, flags, DIR_FH),
            flags & FORBIDDEN_OPEN_FLAGS != 0 ==> r == Result::<(u64, u32), Errno>::Err(
                Errno::Erofs,
            ),
    {
        if flags & FORBIDDEN_OPEN_FLAGS != 0 {
            return Result::Err(Errno::Erofs);
        }
        match self.tree.get(ino) {
            Option::Some(_) => Result::Ok((DIR_FH, KEEP_CACHE_FLAG)),
            Option::None => Result::Err(Errno::Enoent),
        }
    }

    /// Reply to open: refuse write-like flags with EROFS before anything
    /// else, then hand out the file sentinel handle.
    pub fn open(&self, ino: u64, flags: i32) -> (r: Result<(u64, u32), Errno>)
        ensures
            r == spec_open_common(*self, ino, flags, FIL_FH),
            flags & FORBIDDEN_OPEN_FLAGS != 0 ==> r == Result::<(u64, u32), Errno>::Err(
                Errno::Erofs,
            ),
    {
        if flags & FORBIDDEN_OPEN_FLAGS != 0 {
            return Result::Err(Errno::Erofs);
        }
        match self.tree.get(ino) {
            Option::Some(_) => Result::Ok((FIL_FH, KEEP_CACHE_FLAG)),
            Option::None => Result::Err(Errno::Enoent),
        }
    }

    /// Reply to readdir: the tail of the full listing of `ino` from the
    /// resume point the offset names.
    #[verifier::loop_isolation(false)]
    pub fn readdir(&self, ino: u64, fh: u64, offset: i64) -> (r: Result<Vec<DirEntry>, Errno>)
        requires
            tree_wf(self.inodes()),
        ensures
            match r {
                Result::Ok(v) => spec_readdir(*self, ino, fh, offset) == Result::<
                    Seq<(u64, i64, bool, Seq<u8>)>,
                    Errno,
                >::Ok(v@.map_values(|e: DirEntry| e@)),
                Result::Err(err) => spec_readdir(*self, ino, fh, offset) == Result::<
                    Seq<(u64, i64, bool, Seq<u8>)>,
                    Errno,
                >::Err(err),
            },
    {
        let nref = match self.tree.get(ino) {
            Option::Some(n) => n,
            Option::None => {
                return Result::Err(Errno::Enoent);
            }
        };
        if fh != DIR_FH {
            return Result::Err(Errno::Ebadf);
        }
        match nref.kind {
            InodeKind::RegularFile => {
                return Result::Err(Errno::Enotdir);
            }
            InodeKind::Directory => {}
        }
        let ghost full = spec_listing(self.inodes(), ino);
        let count = nref.children.len();
        proof {
            assert(node_ok(self.inodes(), ino - 1));
            assert(full.len() == count + 2);
            assert(count + 2 <= MAX_INODES + 2);
        }
        let start_u: u64 = if offset <= 0 {
            0
        } else {
            (offset as u64) + 1
        };
        let ghost start = spec_resume(offset, full.len());
        let mut out: Vec<DirEntry> = Vec::new();
        if start_u == 0 {
            let mut dot: Vec<u8> = Vec::new();
            dot.push(46);
            proof {
                assert(dot@ =~= seq![46u8]);
            }
            out.push(DirEntry { ino, offset: 0, child: DirChild::Dir(dot) });
            proof {
                assert(out@.map_values(|e: DirEntry| e@) =~~= full.subrange(0, 1));
            }
        }
        if start_u <= 1 {
            let mut dotdot: Vec<u8> = Vec::new();
            dotdot.push(46);
            dotdot.push(46);
            proof {
                assert(dotdot@ =~= seq![46u8, 46u8]);
            }
            out.push(DirEntry { ino: nref.parent, offset: 1, child: DirChild::Dir(dotdot) });
            proof {
                assert(out@.map_values(|e: DirEntry| e@) =~~= full.subrange(start, 2));
            }
        }
        let first_child: u64 = if start_u <= 2 {
            0
        } else {
            start_u - 2
        };
        let mut ci: usize = if first_child < count as u64 {
            first_child as usize
        } else {
            count
        };
        proof {
            assert(out@.map_values(|e: DirEntry| e@) =~~= full.subrange(
                if start <= ci + 2 {
                    start
                } else {
                    ci + 2
                },
                ci + 2,
            ));
        }
        while ci < count
            invariant
                ci <= count,
                out@.map_values(|e: DirEntry| e@) == full.subrange(
                    if start <= ci + 2 {
                        start
                    } else {
                        ci + 2
                    },
                    ci + 2,
                ),
                start <= ci + 2 || ci + 2 == count + 2,
            decreases count - ci,
        {
            proof {
                assert(node_ok(self.inodes(), ino - 1));
                assert(crate::table::child_link_ok(self.inodes(), ino - 1, ci as int));
            }
            let c = nref.children[ci];
            let cn = match self.tree.get(c) {
                Option::Some(cn) => cn,
                Option::None => {
                    // a well-formed directory lists only held inodes
                    proof {
                        assert(false);
                    }
                    return Result::Err(Errno::Eio);
                }
            };
            let name = copy_bytes(cn.name.as_slice());
            let child = match cn.kind {
                InodeKind::Directory => DirChild::Dir(name),
                InodeKind::RegularFile => DirChild::File(name),
            };
            let off: i64 = ((ci as u64) + 2) as i64;
            proof {
                assert(ci + 2 <= MAX_INODES + 2 < 0x7fff_ffff_ffff_ffff);
                assert(off == ci + 2);
            }
            out.push(DirEntry { ino: c, offset: off, child });
            proof {
                assert(full[ci + 2] == (
                    c,
                    (ci + 2) as i64,
                    node(self.inodes(), c).kind == InodeKind::Directory,
                    node(self.inodes(), c).name@,
                ));
                assert(out@.map_values(|e: DirEntry| e@) =~~= full.subrange(
                    if start <= ci + 3 {
                        start
                    } else {
                        ci + 3
                    },
                    ci + 3,
                ));
            }
            ci += 1;
        }
        proof {
            assert(out@.map_values(|e: DirEntry| e@) =~~= full.skip(start));
        }
        Result::Ok(out)
    }

    /// Reply to read: locate the payload of `ino` in its source archive,
    /// decode that archive afresh, and hand back at most `size` bytes from
    /// `offset` on.
    #[verifier::loop_isolation(false)]
    pub fn read(&self, ino: u64, fh: u64, offset: i64, size: u32) -> (r: Result<Vec<u8>, Errno>)
        requires
            self.wf(),
            0 <= offset,
        ensures
            match r {
                Result::Ok(v) => spec_read(*self, ino, fh, offset, size) == Result::<
                    Seq<u8>,
                    Errno,
                >::Ok(v@),
                Result::Err(err) => spec_read(*self, ino, fh, offset, size) == Result::<
                    Seq<u8>,
                    Errno,
                >::Err(err),
            },
    {
        if fh != FIL_FH {
            return Result::Err(Errno::Ebadf);
        }
        let nref = match self.tree.get(ino) {
            Option::Some(n) => n,
            Option::None => {
                return Result::Err(Errno::Enoent);
            }
        };
        match nref.kind {
            InodeKind::Directory => {
                return Result::Err(Errno::Eisdir);
            }
            InodeKind::RegularFile => {}
        }
        let srcref = match &nref.src {
            Option::Some(s) => s,
            Option::None => {
                return Result::Err(Errno::Einval);
            }
        };
        proof {
            assert(self.inodes()[ino - 1].src matches Some(s) ==> file_link_ok(
                s,
                self.inodes()[ino - 1].size,
                self.blobs(),
            ));
            assert(file_link_ok(*srcref, nref.size, self.blobs()));
        }
        let blob = &self.archives[srcref.archive_index];
        let entries = match decode_archive(&blob.bytes) {
            Option::Some(es) => es,
            Option::None => {
                // the invariant ties every file record to an archive that decodes
                proof {
                    assert(false);
                }
                return Result::Err(Errno::Eio);
            }
        };
        let ghost m = archive_entries(blob.bytes@)->Some_0;
        proof {
            assert(m == entries@.map_values(|e: TarEntry| e@));
            assert(m[srcref.entry_index as int] == entries@[srcref.entry_index as int]@);
        }
        let entry = &entries[srcref.entry_index];
        let data = &entry.data;
        let dlen = data.len();
        let start_u: u64 = if (offset as u64) <= (dlen as u64) {
            offset as u64
        } else {
            dlen as u64
        };
        let want: u64 = (offset as u64) + (size as u64);
        let end_u: u64 = if want <= (dlen as u64) {
            want
        } else {
            dlen as u64
        };
        let first: usize = start_u as usize;
        let end: usize = end_u as usize;
        let mut out: Vec<u8> = Vec::new();
        let mut i: usize = first;
        while i < end
            invariant
                first <= i <= end || i == first,
                out@ =~= data@.subrange(first as int, i as int),
            decreases end - i,
        {
            out.push(data[i]);
            proof {
                assert(out@ =~= data@.subrange(first as int, i as int + 1));
            }
            i += 1;
        }
        proof {
            assert(out@ =~= data@.subrange(first as int, end as int));
        }
        Result::Ok(out)
    }

    /// The structural view of one inode: its identifier, name, parent and
    /// children, or `None` for an identifier the table does not hold.
    pub fn tree_item(&self, ino: u64) -> (r: Option<InodeTreeItem<Vec<u8>>>)
        ensures
            r matches Some(it) ==> has_ino(self.inodes(), ino) && it.inode == ino && it.path@
                == node(self.inodes(), ino).name@ && it.parent == node(self.inodes(), ino).parent
                && it.children@ == node(self.inodes(), ino).children@,
            r is None ==> !has_ino(self.inodes(), ino),
    {
        match self.tree.get(ino) {
            Option::Some(n) => Option::Some(
                InodeTreeItem::new(
                    ino,
                    copy_bytes(n.name.as_slice()),
                    n.parent,
                    copy_inos(n.children.as_slice()),
                ),
            ),
            Option::None => Option::None,
        }
    }
}

/// Copy the first `n` bytes of a byte string.
fn copy_prefix(v: &[u8], n: usize) -> (r: Vec<u8>)
    requires
        n <= v@.len(),
    ensures
        r@ == v@.take(n as int),
{
    let mut r: Vec<u8> = Vec::new();
    let mut i: usize = 0;
    while i < n
        invariant
            i <= n,
            n <= v@.len(),
            r@ == v@.take(i as int),
        decreases n - i,
    {
        r.push(v[i]);
        proof {
            assert(r@ =~= v@.take(i as int + 1));
        }
        i += 1;
    }
    r
}

} // verus!
