//! The inode table: an arena of inode records addressed by identifier, with
//! the structural invariants of the virtual tree.
//!
//! Identifiers are handed out by a monotonic counter starting right after the
//! reserved root identifier; the record of identifier `i` sits at position
//! `i - 1` of the arena, so the counter is the arena length itself.

use vstd::prelude::*;
use crate::inode::{Inode, InodeKind, FileSource, File, ROOT_INO, MAX_INODES};
use crate::archive::TarEntry;

verus! {

/// Whether `ino` is an identifier the table holds.
pub open spec fn has_ino(s: Seq<Inode>, ino: u64) -> bool {
    1 <= ino <= s.len()
}

/// The record of identifier `ino`.
pub open spec fn node(s: Seq<Inode>, ino: u64) -> Inode {
    s[ino - 1]
}

/// Child `j` of the record at position `i` is a held identifier, is not the
/// root, and names `i + 1` as its parent.
pub open spec fn child_link_ok(s: Seq<Inode>, i: int, j: int) -> bool {
    let c = s[i].children@[j];
    &&& 2 <= c <= s.len()
    &&& s[c - 1].parent == i + 1
}

/// No two children of the record at position `i` are the same identifier or
/// share a name.
pub open spec fn children_distinct(s: Seq<Inode>, i: int) -> bool {
    forall|j: int, k: int|
        #![trigger s[i].children@[j], s[i].children@[k]]
        0 <= j < k < s[i].children@.len() ==> s[i].children@[j] != s[i].children@[k]
            && s[s[i].children@[j] - 1].name@ != s[s[i].children@[k] - 1].name@
}

/// The local well-formedness of the record at position `i`.
pub open spec fn node_ok(s: Seq<Inode>, i: int) -> bool {
    let n = s[i];
    &&& n.children@.len() <= s.len()
    &&& (n.kind == InodeKind::RegularFile ==> n.children@.len() == 0 && n.src is Some)
    &&& (n.kind == InodeKind::Directory ==> n.size == 0 && n.src is None)
    &&& (i > 0 ==> 1 <= n.parent <= s.len() && s[n.parent - 1].kind == InodeKind::Directory
        && s[n.parent - 1].children@.contains((i + 1) as u64))
    &&& forall|j: int| 0 <= j < n.children@.len() ==> #[trigger] child_link_ok(s, i, j)
    &&& children_distinct(s, i)
}

/// The structural invariant of the table: the root is a directory that is its
/// own parent, every child link is consistent with the parent field on the
/// other side, files have no children, directories have no payload, and the
/// names under one directory are pairwise distinct.
pub open spec fn tree_wf(s: Seq<Inode>) -> bool {
    &&& 1 <= s.len() <= MAX_INODES
    &&& s[0].kind == InodeKind::Directory
    &&& s[0].parent == ROOT_INO
    &&& forall|i: int| 0 <= i < s.len() ==> #[trigger] node_ok(s, i)
}

/// Find the first identifier in `cs` whose record is named `name`.
pub open spec fn find_in(s: Seq<Inode>, cs: Seq<u64>, name: Seq<u8>) -> Option<u64>
    decreases cs.len(),
{
    if cs.len() == 0 {
        Option::None
    } else if node(s, cs[0]).name@ == name {
        Option::Some(cs[0])
    } else {
        find_in(s, cs.drop_first(), name)
    }
}

/// Find the child of `parent` named `name`.
pub open spec fn spec_find_child(s: Seq<Inode>, parent: u64, name: Seq<u8>) -> Option<u64> {
    find_in(s, node(s, parent).children@, name)
}

/// Skipping a prefix of candidates none of which match leaves the search
/// result unchanged.
proof fn lemma_find_in_skip(s: Seq<Inode>, cs: Seq<u64>, name: Seq<u8>, i: int)
    requires
        0 <= i <= cs.len(),
        forall|k: int| 0 <= k < i ==> node(s, #[trigger] cs[k]).name@ != name,
    ensures
        find_in(s, cs, name) == find_in(s, cs.skip(i), name),
    decreases i,
{
    if i > 0 {
        assert(node(s, cs[0]).name@ != name);
        lemma_find_in_skip(s, cs.drop_first(), name, i - 1);
        assert(cs.drop_first().skip(i - 1) =~= cs.skip(i));
    } else {
        assert(cs.skip(0) =~= cs);
    }
}

/// A matching candidate after a non-matching prefix is the search result.
proof fn lemma_find_in_hit(s: Seq<Inode>, cs: Seq<u64>, name: Seq<u8>, i: int)
    requires
        0 <= i < cs.len(),
        forall|k: int| 0 <= k < i ==> node(s, #[trigger] cs[k]).name@ != name,
        node(s, cs[i]).name@ == name,
    ensures
        find_in(s, cs, name) == Option::Some(cs[i]),
{
    lemma_find_in_skip(s, cs, name, i);
    assert(cs.skip(i)[0] == cs[i]);
}

/// Whatever the search returns is a child with the sought name.
pub proof fn lemma_find_in_found(s: Seq<Inode>, cs: Seq<u64>, name: Seq<u8>)
    requires
        find_in(s, cs, name) is Some,
    ensures
        exists|j: int|
            0 <= j < cs.len() && #[trigger] cs[j] == find_in(s, cs, name)->Some_0
                && node(s, cs[j]).name@ == name,
    decreases cs.len(),
{
    if cs.len() > 0 {
        if node(s, cs[0]).name@ == name {
            assert(cs[0] == find_in(s, cs, name)->Some_0);
        } else {
            lemma_find_in_found(s, cs.drop_first(), name);
            let j0 = choose|j: int|
                0 <= j < cs.drop_first().len() && #[trigger] cs.drop_first()[j] == find_in(
                    s,
                    cs.drop_first(),
                    name,
                )->Some_0 && node(s, cs.drop_first()[j]).name@ == name;
            assert(cs[j0 + 1] == cs.drop_first()[j0]);
        }
    }
}

/// A failed search means no child bears the sought name.
pub proof fn lemma_find_in_miss(s: Seq<Inode>, cs: Seq<u64>, name: Seq<u8>)
    requires
        find_in(s, cs, name) is None,
    ensures
        forall|j: int| 0 <= j < cs.len() ==> node(s, #[trigger] cs[j]).name@ != name,
    decreases cs.len(),
{
    if cs.len() > 0 {
        lemma_find_in_miss(s, cs.drop_first(), name);
        assert forall|j: int| 0 <= j < cs.len() implies node(s, #[trigger] cs[j]).name@ != name by {
            if j > 0 {
                assert(cs.drop_first()[j - 1] == cs[j]);
            }
        }
    }
}

/// Copy a byte string.
pub fn copy_bytes(v: &[u8]) -> (r: Vec<u8>)
    ensures
        r@ == v@,
{
    let mut r: Vec<u8> = Vec::new();
    let n = v.len();
    let mut i: usize = 0;
    while i < n
        invariant
            i <= n,
            n == v@.len(),
            r@ == v@.take(i as int),
        decreases n - i,
    {
        r.push(v[i]);
        proof {
            assert(r@ =~= v@.take(i as int + 1));
        }
        i += 1;
    }
    proof {
        assert(v@.take(n as int) =~= v@);
    }
    r
}

/// Pushing onto a sequence keeps every element it already contains.
proof fn lemma_push_contains(cs: Seq<u64>, x: u64, v: u64)
    requires
        cs.contains(v),
    ensures
        cs.push(x).contains(v),
{
    let j = choose|j: int| 0 <= j < cs.len() && cs[j] == v;
    assert(cs.push(x)[j] == v);
}

/// Compare two byte strings.
pub fn bytes_eq(a: &[u8], b: &[u8]) -> (r: bool)
    ensures
        r == (a@ == b@),
{
    if a.len() != b.len() {
        return false;
    }
    let n = a.len();
    let mut i: usize = 0;
    while i < n
        invariant
            n == a@.len() == b@.len(),
            i <= n,
            forall|k: int| 0 <= k < i ==> a@[k] == b@[k],
        decreases n - i,
    {
        if a[i] != b[i] {
            return false;
        }
        i += 1;
    }
    proof {
        assert(a@ =~= b@);
    }
    true
}

/// A found child is a held, non-root identifier bearing the sought name.
pub proof fn lemma_find_child_valid(s: Seq<Inode>, parent: u64, name: Seq<u8>)
    requires
        tree_wf(s),
        has_ino(s, parent),
        spec_find_child(s, parent, name) is Some,
    ensures
        2 <= spec_find_child(s, parent, name)->Some_0 <= s.len(),
        node(s, spec_find_child(s, parent, name)->Some_0).name@ == name,
        node(s, parent).children@.contains(spec_find_child(s, parent, name)->Some_0),
{
    lemma_find_in_found(s, node(s, parent).children@, name);
    let j = choose|j: int|
        0 <= j < node(s, parent).children@.len() && #[trigger] node(s, parent).children@[j]
            == spec_find_child(s, parent, name)->Some_0 && node(
            s,
            node(s, parent).children@[j],
        ).name@ == name;
    assert(node_ok(s, parent - 1));
    assert(child_link_ok(s, parent - 1, j));
}

/// The file source `s` with payload length `size` points at a real regular
/// entry of the archive at `apath` whose entry list is `es`.
pub open spec fn entry_link_ok(s: FileSource, size: u64, apath: Seq<u8>, es: Seq<TarEntry>) -> bool {
    &&& s.archive_path@ == apath
    &&& s.entry_index < es.len()
    &&& es[s.entry_index as int].path@ == s.entry_path@
    &&& es[s.entry_index as int].is_file
    &&& es[s.entry_index as int].data@.len() == size
}

/// Every record the table already held keeps its kind, name and parent.
pub open spec fn keeps_identity(s0: Seq<Inode>, s1: Seq<Inode>) -> bool {
    &&& s1.len() >= s0.len()
    &&& forall|i: int|
        0 <= i < s0.len() ==> (#[trigger] s1[i]).kind == s0[i].kind && s1[i].name == s0[i].name
            && s1[i].parent == s0[i].parent
}

/// Every directory the table already held keeps its children as a prefix:
/// children are only appended, never removed, replaced or reordered.
pub open spec fn children_extended(s0: Seq<Inode>, s1: Seq<Inode>) -> bool {
    forall|i: int|
        0 <= i < s0.len() ==> (#[trigger] s0[i].children)@.is_prefix_of(s1[i].children@)
}

/// A sequence is a prefix of itself.
pub proof fn lemma_prefix_refl(cs: Seq<u64>)
    ensures
        cs.is_prefix_of(cs),
{
    assert(cs =~= cs.subrange(0, cs.len() as int));
}

/// A sequence is a prefix of itself extended by one element.
pub proof fn lemma_prefix_push(cs: Seq<u64>, x: u64)
    ensures
        cs.is_prefix_of(cs.push(x)),
{
    assert(cs =~= cs.push(x).subrange(0, cs.len() as int));
}

/// Being a prefix is transitive.
pub proof fn lemma_prefix_trans(a: Seq<u64>, b: Seq<u64>, c: Seq<u64>)
    requires
        a.is_prefix_of(b),
        b.is_prefix_of(c),
    ensures
        a.is_prefix_of(c),
{
    assert(a =~= c.subrange(0, a.len() as int));
}

/// One mutation that touches the children of at most one record, and only by
/// appending, carries the children extension forward.
proof fn lemma_children_extended_step(s0: Seq<Inode>, s1: Seq<Inode>, s2: Seq<Inode>, p: int)
    requires
        s1.len() >= s0.len(),
        s2.len() >= s1.len(),
        children_extended(s0, s1),
        forall|i: int|
            0 <= i < s1.len() && i != p ==> (#[trigger] s2[i]).children == s1[i].children,
        0 <= p < s1.len() ==> s1[p].children@.is_prefix_of(s2[p].children@),
    ensures
        children_extended(s0, s2),
{
    assert forall|i: int|
        0 <= i < s0.len() implies (#[trigger] s0[i].children)@.is_prefix_of(s2[i].children@) by {
        assert(s0[i].children@.is_prefix_of(s1[i].children@));
        if i != p {
            assert(s2[i].children == s1[i].children);
            lemma_prefix_refl(s1[i].children@);
        }
        lemma_prefix_trans(s0[i].children@, s1[i].children@, s2[i].children@);
    }
}

/// Identity preservation and children extension compose.
pub proof fn lemma_extension_trans(s0: Seq<Inode>, s1: Seq<Inode>, s2: Seq<Inode>)
    requires
        keeps_identity(s0, s1),
        keeps_identity(s1, s2),
        children_extended(s0, s1),
        children_extended(s1, s2),
    ensures
        keeps_identity(s0, s2),
        children_extended(s0, s2),
{
    assert forall|i: int|
        0 <= i < s0.len() implies (#[trigger] s0[i].children)@.is_prefix_of(s2[i].children@) by {
        assert(s0[i].children@.is_prefix_of(s1[i].children@));
        assert(s1[i].children@.is_prefix_of(s2[i].children@));
        lemma_prefix_trans(s0[i].children@, s1[i].children@, s2[i].children@);
    }
}

/// A successful name search among a list of identifiers survives any step
/// that keeps every record's name and only extends the candidate list.
proof fn lemma_find_in_stable(
    s1: Seq<Inode>,
    s2: Seq<Inode>,
    cs1: Seq<u64>,
    cs2: Seq<u64>,
    name: Seq<u8>,
)
    requires
        cs1.is_prefix_of(cs2),
        forall|j: int| 0 <= j < cs1.len() ==> 1 <= #[trigger] cs1[j] <= s1.len(),
        keeps_identity(s1, s2),
        find_in(s1, cs1, name) is Some,
    ensures
        find_in(s2, cs2, name) == find_in(s1, cs1, name),
    decreases cs1.len(),
{
    assert(cs1.len() > 0);
    assert(cs1[0] == cs2[0]);
    assert(s2[cs1[0] - 1].name == s1[cs1[0] - 1].name);
    if node(s1, cs1[0]).name@ == name {
    } else {
        assert(cs1.drop_first().is_prefix_of(cs2.drop_first())) by {
            assert(cs1.drop_first() =~= cs2.drop_first().subrange(0, cs1.len() - 1));
        }
        lemma_find_in_stable(s1, s2, cs1.drop_first(), cs2.drop_first(), name);
    }
}

/// A found child keeps being found, with the same identifier, across any step
/// that keeps every record's identity and only appends children.
pub proof fn lemma_find_child_stable(s1: Seq<Inode>, s2: Seq<Inode>, parent: u64, name: Seq<u8>)
    requires
        tree_wf(s1),
        has_ino(s1, parent),
        keeps_identity(s1, s2),
        children_extended(s1, s2),
        spec_find_child(s1, parent, name) is Some,
    ensures
        spec_find_child(s2, parent, name) == spec_find_child(s1, parent, name),
{
    let cs1 = node(s1, parent).children@;
    let cs2 = node(s2, parent).children@;
    assert(node_ok(s1, parent - 1));
    assert forall|j: int| 0 <= j < cs1.len() implies 1 <= #[trigger] cs1[j] <= s1.len() by {
        assert(child_link_ok(s1, parent - 1, j));
    }
    assert(cs1.is_prefix_of(cs2));
    lemma_find_in_stable(s1, s2, cs1, cs2, name);
}

/// Follow a component path from `from` through the children-by-name links.
pub open spec fn resolve_from(s: Seq<Inode>, from: u64, comps: Seq<Seq<u8>>) -> Option<u64>
    decreases comps.len(),
{
    if comps.len() == 0 {
        Option::Some(from)
    } else {
        match spec_find_child(s, from, comps[0]) {
            Option::None => Option::<u64>::None,
            Option::Some(c) => resolve_from(s, c, comps.drop_first()),
        }
    }
}

/// Resolving one more component means resolving the prefix, then finding the
/// last component among the children.
pub proof fn lemma_resolve_push(s: Seq<Inode>, from: u64, comps: Seq<Seq<u8>>, c: Seq<u8>)
    ensures
        resolve_from(s, from, comps.push(c)) == (match resolve_from(s, from, comps) {
            Option::None => Option::<u64>::None,
            Option::Some(x) => spec_find_child(s, x, c),
        }),
    decreases comps.len(),
{
    if comps.len() == 0 {
        assert(comps.push(c)[0] == c);
        assert(comps.push(c).drop_first() =~~= Seq::<Seq<u8>>::empty());
        match spec_find_child(s, from, c) {
            Option::None => {
                assert(resolve_from(s, from, comps.push(c)) is None);
            }
            Option::Some(x) => {
                assert(resolve_from(s, x, Seq::<Seq<u8>>::empty()) == Option::Some(x));
                assert(resolve_from(s, from, comps.push(c)) == Option::Some(x));
            }
        }
    } else {
        assert(comps.push(c)[0] == comps[0]);
        assert(comps.push(c).drop_first() =~~= comps.drop_first().push(c));
        match spec_find_child(s, from, comps[0]) {
            Option::None => {
                assert(resolve_from(s, from, comps.push(c)) is None);
            }
            Option::Some(x) => {
                lemma_resolve_push(s, x, comps.drop_first(), c);
                assert(resolve_from(s, from, comps.push(c)) == resolve_from(
                    s,
                    x,
                    comps.drop_first().push(c),
                ));
            }
        }
    }
}

/// A successful resolution survives any step that keeps every record's
/// identity and only appends children, and it lands on a held identifier.
pub proof fn lemma_resolve_stable(s1: Seq<Inode>, s2: Seq<Inode>, from: u64, comps: Seq<Seq<u8>>)
    requires
        tree_wf(s1),
        has_ino(s1, from),
        keeps_identity(s1, s2),
        children_extended(s1, s2),
        resolve_from(s1, from, comps) is Some,
    ensures
        resolve_from(s2, from, comps) == resolve_from(s1, from, comps),
        has_ino(s1, resolve_from(s1, from, comps)->Some_0),
    decreases comps.len(),
{
    if comps.len() == 0 {
    } else {
        lemma_find_child_valid(s1, from, comps[0]);
        lemma_find_child_stable(s1, s2, from, comps[0]);
        let c = spec_find_child(s1, from, comps[0])->Some_0;
        lemma_resolve_stable(s1, s2, c, comps.drop_first());
    }
}

/// The record at `i`, if it is a file of an archive other than `a`, keeps its
/// payload position from `s0` to `s1`.
pub open spec fn foreign_kept_at(s0: Seq<Inode>, s1: Seq<Inode>, i: int, a: usize) -> bool {
    s0[i].src matches Some(s) ==> (s.archive_index != a ==> s1[i].size == s0[i].size && s1[i].src
        == s0[i].src)
}

/// File records of archives other than `a` keep their payload position.
pub open spec fn keeps_foreign_files(s0: Seq<Inode>, s1: Seq<Inode>, a: usize) -> bool {
    forall|i: int| 0 <= i < s0.len() ==> #[trigger] foreign_kept_at(s0, s1, i, a)
}

/// The record at `i` either keeps its payload source from `s0` or belongs to
/// archive `a`.
pub open spec fn src_stable_at(s0: Seq<Inode>, s1: Seq<Inode>, i: int, a: usize) -> bool {
    s1[i].src matches Some(s) ==> (s.archive_index == a || (0 <= i < s0.len() && s1[i].src
        == s0[i].src))
}

/// Every file record either keeps its payload source or belongs to archive `a`.
pub open spec fn src_stable(s0: Seq<Inode>, s1: Seq<Inode>, a: usize) -> bool {
    forall|i: int| 0 <= i < s1.len() ==> #[trigger] src_stable_at(s0, s1, i, a)
}

/// Every file record of archive `a` either kept its payload position or was
/// pointed at the entry `eidx` of that archive, whose path is `epath` and
/// whose payload is `esize` bytes long.
pub open spec fn files_of_archive_placed(
    s0: Seq<Inode>,
    s1: Seq<Inode>,
    a: usize,
    apath: Seq<u8>,
    epath: Seq<u8>,
    eidx: usize,
    esize: nat,
) -> bool {
    forall|i: int|
        0 <= i < s1.len() ==> ((#[trigger] s1[i].src) matches Some(s) ==> (s.archive_index == a
            ==> (0 <= i < s0.len() && s1[i].size == s0[i].size && s1[i].src == s0[i].src) || (
        s.archive_path@ == apath && s.entry_path@ == epath && s.entry_index == eidx && s1[i].size
            == esize && (0 <= i < s0.len() ==> (s0[i].src matches Some(t0) && t0.archive_index == a
            && t0.entry_path@ == epath)))))
}

/// How one table mutation during placement may change the record at `i`:
/// its payload position is untouched, or it is (re)pointed at entry `eidx` of
/// archive `a` (re-pointing only hits a record that already belonged to `a`),
/// or it is a newly created directory.
pub open spec fn placed_or_same(
    s1: Seq<Inode>,
    s2: Seq<Inode>,
    i: int,
    a: usize,
    apath: Seq<u8>,
    epath: Seq<u8>,
    eidx: usize,
    esize: nat,
) -> bool {
    ||| (0 <= i < s1.len() && s2[i].size == s1[i].size && s2[i].src == s1[i].src)
    ||| (s2[i].src matches Some(s) && s.archive_index == a && s.archive_path@ == apath
        && s.entry_path@ == epath && s.entry_index == eidx && s2[i].size == esize && (i >= s1.len()
        || (s1[i].src matches Some(t) && t.archive_index == a && t.entry_path@ == epath)))
    ||| (i >= s1.len() && s2[i].src is None)
}

/// One placement mutation carries the placement predicates forward.
proof fn lemma_place_step(
    s0: Seq<Inode>,
    s1: Seq<Inode>,
    s2: Seq<Inode>,
    a: usize,
    apath: Seq<u8>,
    epath: Seq<u8>,
    eidx: usize,
    esize: nat,
)
    requires
        keeps_identity(s0, s1),
        keeps_foreign_files(s0, s1, a),
        src_stable(s0, s1, a),
        files_of_archive_placed(s0, s1, a, apath, epath, eidx, esize),
        keeps_identity(s1, s2),
        forall|i: int|
            0 <= i < s2.len() ==> #[trigger] placed_or_same(s1, s2, i, a, apath, epath, eidx, esize),
    ensures
        keeps_identity(s0, s2),
        keeps_foreign_files(s0, s2, a),
        src_stable(s0, s2, a),
        files_of_archive_placed(s0, s2, a, apath, epath, eidx, esize),
{
    assert forall|i: int| 0 <= i < s0.len() implies #[trigger] foreign_kept_at(s0, s2, i, a) by {
        assert(foreign_kept_at(s0, s1, i, a));
        assert(placed_or_same(s1, s2, i, a, apath, epath, eidx, esize));
    }
    assert forall|i: int| 0 <= i < s2.len() implies #[trigger] src_stable_at(s0, s2, i, a) by {
        assert(placed_or_same(s1, s2, i, a, apath, epath, eidx, esize));
        if i < s1.len() {
            assert(src_stable_at(s0, s1, i, a));
        }
    }
    assert forall|i: int|
        0 <= i < s2.len() implies ((#[trigger] s2[i].src) matches Some(s) ==> (s.archive_index == a
        ==> (0 <= i < s0.len() && s2[i].size == s0[i].size && s2[i].src == s0[i].src) || (
    s.archive_path@ == apath && s.entry_path@ == epath && s.entry_index == eidx && s2[i].size
        == esize && (0 <= i < s0.len() ==> (s0[i].src matches Some(t0) && t0.archive_index == a
        && t0.entry_path@ == epath))))) by {
        assert(placed_or_same(s1, s2, i, a, apath, epath, eidx, esize));
        if s2[i].src is Some && s2[i].src->Some_0.archive_index == a {
            if i < s1.len() && s2[i].size == s1[i].size && s2[i].src == s1[i].src {
                assert(files_of_archive_placed(s0, s1, a, apath, epath, eidx, esize));
                if i < s0.len() && !(s2[i].size == s0[i].size && s2[i].src == s0[i].src) {
                    // placed during the earlier step: its recorded path was
                    // already the step's path back in s0
                    assert(s1[i].src matches Some(s1t) ==> true);
                }
            } else if i < s1.len() {
                // re-pointed in this step: the hit file already recorded this
                // path, in s1 and hence (kept or placed) in s0 too
                assert(s1[i].src matches Some(t) && t.archive_index == a && t.entry_path@
                    == epath);
                if i < s0.len() {
                    assert(files_of_archive_placed(s0, s1, a, apath, epath, eidx, esize));
                    if !(s1[i].size == s0[i].size && s1[i].src == s0[i].src) {
                        assert(s0[i].src matches Some(t0) && t0.archive_index == a
                            && t0.entry_path@ == epath);
                    }
                }
            }
        }
    }
}

/// Placement predicates of one entry compose with the accumulated state of
/// earlier entries.
proof fn lemma_place_trans(s0: Seq<Inode>, s1: Seq<Inode>, s2: Seq<Inode>, a: usize)
    requires
        keeps_identity(s0, s1),
        keeps_foreign_files(s0, s1, a),
        src_stable(s0, s1, a),
        keeps_identity(s1, s2),
        keeps_foreign_files(s1, s2, a),
        src_stable(s1, s2, a),
    ensures
        keeps_identity(s0, s2),
        keeps_foreign_files(s0, s2, a),
        src_stable(s0, s2, a),
{
    assert forall|i: int| 0 <= i < s0.len() implies #[trigger] foreign_kept_at(s0, s2, i, a) by {
        assert(foreign_kept_at(s0, s1, i, a));
        assert(foreign_kept_at(s1, s2, i, a));
    }
    assert forall|i: int| 0 <= i < s2.len() implies #[trigger] src_stable_at(s0, s2, i, a) by {
        assert(src_stable_at(s1, s2, i, a));
        if i < s1.len() {
            assert(src_stable_at(s0, s1, i, a));
        }
    }
}

/// Along any resolving component path, every node short of the end is a
/// directory: only directories have children for the search to step through.
pub proof fn lemma_resolve_prefix_dirs(s: Seq<Inode>, from: u64, comps: Seq<Seq<u8>>, l: int)
    requires
        tree_wf(s),
        has_ino(s, from),
        resolve_from(s, from, comps) is Some,
        0 <= l < comps.len(),
    ensures
        resolve_from(s, from, comps.take(l)) is Some,
        has_ino(s, resolve_from(s, from, comps.take(l))->Some_0),
        node(s, resolve_from(s, from, comps.take(l))->Some_0).kind == InodeKind::Directory,
    decreases l,
{
    if l == 0 {
        assert(comps.take(0) =~~= Seq::<Seq<u8>>::empty());
        assert(resolve_from(s, from, comps.take(0)) == Option::Some(from));
        assert(spec_find_child(s, from, comps[0]) is Some);
        lemma_find_in_found(s, node(s, from).children@, comps[0]);
        assert(node(s, from).children@.len() > 0);
        assert(node_ok(s, from - 1));
        assert(node(s, from).kind != InodeKind::RegularFile);
    } else {
        assert(spec_find_child(s, from, comps[0]) is Some);
        let c = spec_find_child(s, from, comps[0])->Some_0;
        lemma_find_child_valid(s, from, comps[0]);
        assert(comps.take(l)[0] == comps[0]);
        assert(comps.take(l).drop_first() =~~= comps.drop_first().take(l - 1));
        lemma_resolve_prefix_dirs(s, c, comps.drop_first(), l - 1);
        assert(resolve_from(s, from, comps.take(l)) == resolve_from(
            s,
            c,
            comps.drop_first().take(l - 1),
        ));
    }
}

/// Why the placement of an entry stopped at depth `l` of its component path:
/// short of the full path, the resolved node is a file where a directory is
/// needed; at the full path, the resolved node is a directory, a file of
/// another archive, or a file recorded under a different entry path.
pub open spec fn blocked_at(
    s: Seq<Inode>,
    top: u64,
    cv: Seq<Seq<u8>>,
    l: int,
    a: usize,
    epath: Seq<u8>,
) -> bool {
    match resolve_from(s, top, cv.take(l)) {
        Option::None => false,
        Option::Some(x) => if l < cv.len() {
            node(s, x).kind == InodeKind::RegularFile
        } else {
            node(s, x).kind == InodeKind::Directory || (node(s, x).src matches Some(t) && (
            t.archive_index != a || t.entry_path@ != epath))
        },
    }
}

/// The components of an entry path, read left to right: `cur` is the
/// component being read, `acc` those already read; a `/` closes the current
/// component, the end of the path closes the last one.
pub open spec fn split_acc(p: Seq<u8>, cur: Seq<u8>, acc: Seq<Seq<u8>>) -> Seq<Seq<u8>>
    decreases p.len(),
{
    if p.len() == 0 {
        acc.push(cur)
    } else if p[0] == 47 {
        split_acc(p.drop_first(), Seq::<u8>::empty(), acc.push(cur))
    } else {
        split_acc(p.drop_first(), cur.push(p[0]), acc)
    }
}

/// The components of an entry path: the pieces between `/` separators. An
/// empty path has one empty component; a leading, trailing or doubled
/// separator yields an empty component.
pub open spec fn spec_split(p: Seq<u8>) -> Seq<Seq<u8>> {
    split_acc(p, Seq::<u8>::empty(), Seq::<Seq<u8>>::empty())
}

/// Whether a path component may stand in the tree: nonempty and neither `.`
/// nor `..`.
pub open spec fn spec_component_ok(c: Seq<u8>) -> bool {
    c.len() > 0 && c != seq![46u8] && c != seq![46u8, 46u8]
}

/// Whether a path may be materialized: every component passes the filter.
/// An absolute path fails through the empty component before its first `/`.
pub open spec fn path_ok(p: Seq<u8>) -> bool {
    forall|i: int| 0 <= i < spec_split(p).len() ==> spec_component_ok(#[trigger] spec_split(p)[i])
}

/// Components already read are final: they reappear unchanged in the result,
/// and at least one more component follows them.
proof fn lemma_split_acc_settled(p: Seq<u8>, cur: Seq<u8>, acc: Seq<Seq<u8>>)
    ensures
        split_acc(p, cur, acc).len() > acc.len(),
        forall|j: int| 0 <= j < acc.len() ==> #[trigger] split_acc(p, cur, acc)[j] == acc[j],
    decreases p.len(),
{
    if p.len() == 0 {
    } else if p[0] == 47 {
        lemma_split_acc_settled(p.drop_first(), Seq::<u8>::empty(), acc.push(cur));
        assert forall|j: int|
            0 <= j < acc.len() implies #[trigger] split_acc(p, cur, acc)[j] == acc[j] by {
            assert(acc.push(cur)[j] == acc[j]);
        }
    } else {
        lemma_split_acc_settled(p.drop_first(), cur.push(p[0]), acc);
    }
}

/// What one entry of an archive came to: skipped (`None`), or landed on the
/// file inode `f`, which the entry's component path reaches below `top`, and
/// which records this archive and this entry path at an occurrence no earlier
/// than the entry itself.
pub open spec fn fill_claim(
    s: Seq<Inode>,
    top: u64,
    a: usize,
    es: Seq<TarEntry>,
    j: int,
    o: Option<u64>,
) -> bool {
    match o {
        Option::Some(f) => {
            &&& es[j].is_file && path_ok(es[j].path@)
            &&& has_ino(s, f)
            &&& resolve_from(s, top, spec_split(es[j].path@)) == Option::Some(f)
            &&& node(s, f).kind == InodeKind::RegularFile
            &&& node(s, f).src matches Some(t) && t.archive_index == a && t.entry_path@
                == es[j].path@ && t.entry_index >= j
        },
        Option::None => es[j].is_file && path_ok(es[j].path@) ==> (s.len() >= MAX_INODES || (
        exists|l: int|
            1 <= l <= spec_split(es[j].path@).len() && #[trigger] blocked_at(
                s,
                top,
                spec_split(es[j].path@),
                l,
                a,
                es[j].path@,
            ))),
    }
}

/// A blocked placement stays blocked across one further placement step of the
/// same archive.
pub proof fn lemma_blocked_stable(
    s1: Seq<Inode>,
    s2: Seq<Inode>,
    top: u64,
    cv: Seq<Seq<u8>>,
    l: int,
    a: usize,
    epath: Seq<u8>,
    apath2: Seq<u8>,
    epath2: Seq<u8>,
    eidx2: usize,
    esize2: nat,
)
    requires
        tree_wf(s1),
        tree_wf(s2),
        has_ino(s1, top),
        1 <= l <= cv.len(),
        keeps_identity(s1, s2),
        children_extended(s1, s2),
        keeps_foreign_files(s1, s2, a),
        files_of_archive_placed(s1, s2, a, apath2, epath2, eidx2, esize2),
        blocked_at(s1, top, cv, l, a, epath),
    ensures
        blocked_at(s2, top, cv, l, a, epath),
{
    lemma_resolve_stable(s1, s2, top, cv.take(l));
    let x = resolve_from(s1, top, cv.take(l))->Some_0;
    assert(s2[x - 1].kind == s1[x - 1].kind);
    if l == cv.len() && node(s1, x).kind != InodeKind::Directory {
        let t = node(s1, x).src->Some_0;
        if t.archive_index != a {
            assert(foreign_kept_at(s1, s2, x - 1, a));
            assert(s2[x - 1].src == s1[x - 1].src);
        } else {
            // the node stays a file, so it keeps a source; a re-point only
            // hits a file whose recorded path already equals the step's path,
            // so the recorded path cannot move towards `epath`
            assert(node_ok(s2, x - 1));
            assert(s2[x - 1].src is Some);
            let t2 = s2[x - 1].src->Some_0;
            if t2.archive_index == a {
                if s2[x - 1].size == s1[x - 1].size && s2[x - 1].src == s1[x - 1].src {
                    assert(t2.entry_path@ == t.entry_path@);
                } else {
                    assert(t2.entry_path@ == epath2);
                    assert(s1[x - 1].src matches Some(t0) && t0.entry_path@ == epath2);
                    assert(t.entry_path@ == epath2);
                }
                assert(t2.entry_path@ != epath);
            }
        }
    }
}

/// Split an entry path into its components. Succeeds exactly when every
/// component passes the filter, and then hands the components back.
#[verifier::loop_isolation(false)]
fn parse_entry_path(path: &[u8]) -> (r: Option<Vec<Vec<u8>>>)
    ensures
        (r is Some) == path_ok(path@),
        r matches Some(cs) ==> comps_view(cs@) == spec_split(path@) && cs@.len() >= 1,
{
    let mut comps: Vec<Vec<u8>> = Vec::new();
    let mut cur: Vec<u8> = Vec::new();
    let n = path.len();
    let mut i: usize = 0;
    proof {
        assert(path@.skip(0) =~= path@);
        assert(comps_view(comps@) =~= Seq::<Seq<u8>>::empty());
    }
    while i < n
        invariant
            i <= n,
            split_acc(path@.skip(i as int), cur@, comps_view(comps@)) == spec_split(path@),
            forall|j: int|
                0 <= j < comps@.len() ==> spec_component_ok(#[trigger] comps_view(comps@)[j]),
        decreases n - i,
    {
        let ghost rest = path@.skip(i as int);
        proof {
            assert(rest[0] == path@[i as int]);
            assert(rest.drop_first() =~= path@.skip(i as int + 1));
        }
        let b = path[i];
        if b == 47 {
            let ghost curv = cur@;
            proof {
                // one unfolding of the accumulator at the separator
                assert(split_acc(rest, curv, comps_view(comps@)) == split_acc(
                    path@.skip(i as int + 1),
                    Seq::<u8>::empty(),
                    comps_view(comps@).push(curv),
                ));
                lemma_split_acc_settled(
                    path@.skip(i as int + 1),
                    Seq::<u8>::empty(),
                    comps_view(comps@).push(curv),
                );
                assert(comps_view(comps@).push(curv)[comps@.len() as int] == curv);
                assert(spec_split(path@)[comps@.len() as int] == curv);
            }
            if component_refused(&cur) {
                return Option::None;
            }
            let ghost old_comps = comps@;
            comps.push(cur);
            cur = Vec::new();
            proof {
                assert(comps_view(comps@) =~= comps_view(old_comps).push(curv));
            }
        } else {
            cur.push(b);
        }
        i += 1;
    }
    proof {
        assert(path@.skip(n as int) =~= Seq::<u8>::empty());
        assert(spec_split(path@) == comps_view(comps@).push(cur@));
    }
    if component_refused(&cur) {
        proof {
            assert(spec_split(path@)[comps@.len() as int] == cur@);
        }
        return Option::None;
    }
    let ghost old_comps = comps@;
    comps.push(cur);
    proof {
        assert(comps_view(comps@) =~= spec_split(path@));
        assert forall|j: int|
            0 <= j < spec_split(path@).len() implies spec_component_ok(
            #[trigger] spec_split(path@)[j],
        ) by {
            assert(spec_split(path@)[j] == comps_view(comps@)[j]);
            if j < old_comps.len() {
                assert(comps_view(comps@)[j] == comps_view(old_comps)[j]);
            }
        }
    }
    Option::Some(comps)
}

/// The byte-string views of a list of components.
pub open spec fn comps_view(cs: Seq<Vec<u8>>) -> Seq<Seq<u8>> {
    cs.map_values(|c: Vec<u8>| c@)
}

/// Whether a path component may not appear in the tree: empty (also the mark
/// of an absolute or doubled separator), `.`, or `..`.
fn component_refused(c: &Vec<u8>) -> (r: bool)
    ensures
        r == !spec_component_ok(c@),
{
    if c.len() == 0 {
        return true;
    }
    if c.len() == 1 && c[0] == 46 {
        proof {
            assert(c@ =~= seq![46u8]);
        }
        return true;
    }
    if c.len() == 2 && c[0] == 46 && c[1] == 46 {
        proof {
            assert(c@ =~= seq![46u8, 46u8]);
        }
        return true;
    }
    proof {
        if c@ == seq![46u8] {
            assert(c@.len() == 1 && c@[0] == 46);
        }
        if c@ == seq![46u8, 46u8] {
            assert(c@.len() == 2 && c@[0] == 46 && c@[1] == 46);
        }
    }
    false
}

/// The inode table. It always holds the root record; all mutation happens
/// through the methods, which preserve the structural invariant.
pub struct Tree {
    inodes: Vec<Inode>,
}

impl View for Tree {
    type V = Seq<Inode>;

    closed spec fn view(&self) -> Seq<Inode> {
        self.inodes@
    }
}

impl Tree {
    /// A table holding only the root directory.
    pub fn new() -> (t: Tree)
        ensures
            tree_wf(t@),
            t@.len() == 1,
            node(t@, ROOT_INO).kind == InodeKind::Directory,
            node(t@, ROOT_INO).children@ == Seq::<u64>::empty(),
            node(t@, ROOT_INO).src is None,
    {
        let mut inodes: Vec<Inode> = Vec::new();
        inodes.push(
            Inode {
                kind: InodeKind::Directory,
                size: 0,
                name: Vec::new(),
                parent: ROOT_INO,
                children: Vec::new(),
                src: Option::None,
            },
        );
        let t = Tree { inodes };
        proof {
            assert forall|i: int| 0 <= i < t@.len() implies #[trigger] node_ok(t@, i) by {
                assert(t@[i].children@.len() == 0);
            }
        }
        t
    }

    /// How many records the table holds.
    pub fn len(&self) -> (n: usize)
        ensures
            n == self@.len(),
    {
        self.inodes.len()
    }

    /// Look an identifier up.
    pub fn get(&self, ino: u64) -> (r: Option<&Inode>)
        ensures
            r matches Some(n) ==> has_ino(self@, ino) && *n == node(self@, ino),
            r is None ==> !has_ino(self@, ino),
    {
        if 1 <= ino && ino <= self.inodes.len() as u64 {
            Option::Some(&self.inodes[(ino - 1) as usize])
        } else {
            Option::None
        }
    }

    /// Scan the children of `parent` for one named `name`.
    pub fn find_child_by_name(&self, parent: u64, name: &[u8]) -> (r: Option<u64>)
        requires
            tree_wf(self@),
            has_ino(self@, parent),
        ensures
            r == spec_find_child(self@, parent, name@),
    {
        let count = self.inodes.len();
        proof {
            assert(parent <= count as u64);
        }
        let pidx: usize = (parent - 1) as usize;
        let n = self.inodes[pidx].children.len();
        proof {
            assert(pidx as int == parent - 1);
            assert(node_ok(self@, pidx as int));
        }
        let mut i: usize = 0;
        while i < n
            invariant
                tree_wf(self@),
                has_ino(self@, parent),
                pidx == parent - 1,
                n == node(self@, parent).children@.len(),
                i <= n,
                forall|k: int|
                    0 <= k < i ==> node(
                        self@,
                        #[trigger] node(self@, parent).children@[k],
                    ).name@ != name@,
            decreases n - i,
        {
            proof {
                assert(node_ok(self@, pidx as int));
                assert(child_link_ok(self@, pidx as int, i as int));
            }
            let c = self.inodes[pidx].children[i];
            let total = self.inodes.len();
            proof {
                assert(c == node(self@, parent).children@[i as int]);
                assert(2 <= c <= self@.len());
                assert(c <= total as u64);
            }
            let cidx: usize = (c - 1) as usize;
            proof {
                assert(cidx as int == c - 1);
                assert(node(self@, c) == self@[cidx as int]);
            }
            if bytes_eq(self.inodes[cidx].name.as_slice(), name) {
                proof {
                    assert(node(self@, c).name@ == name@);
                    lemma_find_in_hit(self@, node(self@, parent).children@, name@, i as int);
                }
                return Option::Some(c);
            }
            proof {
                assert(node(self@, c).name@ != name@);
            }
            i += 1;
        }
        proof {
            lemma_find_in_skip(self@, node(self@, parent).children@, name@, n as int);
            assert(node(self@, parent).children@.skip(n as int) =~= Seq::<u64>::empty());
        }
        Option::None
    }

    /// Create a record under `parent` and hand out its identifier. The new
    /// name must be fresh among the children of `parent`; directories come
    /// without payload, files with one.
    pub fn insert(
        &mut self,
        parent: u64,
        kind: InodeKind,
        name: Vec<u8>,
        size: u64,
        src: Option<FileSource>,
    ) -> (ino: u64)
        requires
            tree_wf(old(self)@),
            has_ino(old(self)@, parent),
            node(old(self)@, parent).kind == InodeKind::Directory,
            spec_find_child(old(self)@, parent, name@) is None,
            old(self)@.len() < MAX_INODES,
            kind == InodeKind::Directory ==> size == 0 && src is None,
            kind == InodeKind::RegularFile ==> src is Some,
        ensures
            tree_wf(final(self)@),
            final(self)@.len() == old(self)@.len() + 1,
            ino == old(self)@.len() + 1,
            has_ino(final(self)@, ino),
            forall|i: int|
                0 <= i < old(self)@.len() && i != parent - 1 ==> final(self)@[i] == old(self)@[i],
            node(final(self)@, parent).children@ == node(old(self)@, parent).children@.push(ino),
            node(final(self)@, parent).kind == node(old(self)@, parent).kind,
            node(final(self)@, parent).name == node(old(self)@, parent).name,
            node(final(self)@, parent).parent == node(old(self)@, parent).parent,
            node(final(self)@, parent).size == node(old(self)@, parent).size,
            node(final(self)@, parent).src == node(old(self)@, parent).src,
            node(final(self)@, ino).kind == kind,
            node(final(self)@, ino).size == size,
            node(final(self)@, ino).name == name,
            node(final(self)@, ino).parent == parent,
            node(final(self)@, ino).children@ == Seq::<u64>::empty(),
            node(final(self)@, ino).src == src,
    {
        let ghost s0 = self@;
        let ghost nm = name@;
        let count = self.inodes.len();
        proof {
            assert(parent <= count as u64);
        }
        let pidx: usize = (parent - 1) as usize;
        self.inodes.push(
            Inode { kind, size, name, parent, children: Vec::new(), src },
        );
        let ino = self.inodes.len() as u64;
        self.inodes[pidx].children.push(ino);
        let ghost s1 = self@;
        proof {
            let p = pidx as int;
            assert(node_ok(s0, p));
            assert forall|i: int| 0 <= i < s1.len() implies #[trigger] node_ok(s1, i) by {
                if i == s0.len() {
                    // the new record
                    assert(s1[parent - 1].children@ == s0[parent - 1].children@.push(ino));
                    assert(s1[parent - 1].children@[s0[parent - 1].children@.len() as int]
                        == ino);
                    assert(s1[parent - 1].children@.contains(ino));
                    assert(s1[i].children@.len() == 0);
                } else if i == p {
                    // the parent: one child appended
                    let oldc = s0[p].children@;
                    let newc = s1[p].children@;
                    assert(newc == oldc.push(ino));
                    lemma_find_in_miss(s0, oldc, nm);
                    if i > 0 {
                        let q = s0[p].parent;
                        assert(s0[q - 1].children@.contains((i + 1) as u64));
                        if q - 1 == p {
                            lemma_push_contains(oldc, ino, (i + 1) as u64);
                        }
                        assert(s1[q - 1].children@.contains((i + 1) as u64));
                    }
                    assert forall|j: int| 0 <= j < newc.len() implies #[trigger] child_link_ok(
                        s1,
                        i,
                        j,
                    ) by {
                        if j < oldc.len() {
                            assert(child_link_ok(s0, i, j));
                            assert(newc[j] == oldc[j]);
                            assert(s1[newc[j] - 1].parent == s0[newc[j] - 1].parent);
                        } else {
                            assert(newc[j] == ino);
                            assert(s1[ino - 1].parent == parent);
                        }
                    }
                    assert forall|j: int, k: int|
                        0 <= j < k < newc.len() implies newc[j] != newc[k] && s1[newc[j]
                        - 1].name@ != s1[newc[k] - 1].name@ by {
                        assert(children_distinct(s0, i));
                        assert(child_link_ok(s0, i, j));
                        if k < oldc.len() {
                            assert(child_link_ok(s0, i, k));
                            assert(s0[oldc[j] - 1].name@ != s0[oldc[k] - 1].name@);
                            assert(s1[newc[j] - 1].name@ == s0[oldc[j] - 1].name@);
                            assert(s1[newc[k] - 1].name@ == s0[oldc[k] - 1].name@);
                        } else {
                            assert(newc[k] == ino);
                            assert(node(s0, oldc[j]).name@ != nm);
                            assert(s1[newc[j] - 1].name@ == s0[oldc[j] - 1].name@);
                            assert(s1[ino - 1].name@ == nm);
                        }
                    }
                    assert(children_distinct(s1, i));
                } else {
                    // an untouched record
                    assert(node_ok(s0, i));
                    assert(s1[i] == s0[i]);
                    if i > 0 {
                        let q = s1[i].parent;
                        assert(s0[q - 1].children@.contains((i + 1) as u64));
                        if q - 1 == p {
                            let oldc = s0[p].children@;
                            let wj = choose|j: int|
                                0 <= j < oldc.len() && oldc[j] == (i + 1) as u64;
                            assert(s1[p].children@[wj] == (i + 1) as u64);
                            assert(s1[q - 1].children@.contains((i + 1) as u64));
                        }
                    }
                    assert forall|j: int| 0 <= j < s1[i].children@.len() implies
                        #[trigger] child_link_ok(s1, i, j) by {
                        assert(child_link_ok(s0, i, j));
                        assert(s1[s1[i].children@[j] - 1].parent == s0[s0[i].children@[j]
                            - 1].parent);
                    }
                    assert forall|j: int, k: int|
                        0 <= j < k < s1[i].children@.len() implies s1[i].children@[j]
                        != s1[i].children@[k] && s1[s1[i].children@[j] - 1].name@
                        != s1[s1[i].children@[k] - 1].name@ by {
                        assert(children_distinct(s0, i));
                        assert(s0[s0[i].children@[j] - 1].name@ != s0[s0[i].children@[k]
                            - 1].name@);
                        assert(child_link_ok(s0, i, j));
                        assert(child_link_ok(s0, i, k));
                    }
                    assert(children_distinct(s1, i));
                }
            }
        }
        ino
    }

    /// Point an existing file record at a new payload: the last occurrence of
    /// a path inside an archive wins.
    pub fn update_file(&mut self, ino: u64, size: u64, src: FileSource)
        requires
            tree_wf(old(self)@),
            has_ino(old(self)@, ino),
            node(old(self)@, ino).kind == InodeKind::RegularFile,
        ensures
            tree_wf(final(self)@),
            final(self)@.len() == old(self)@.len(),
            forall|i: int|
                0 <= i < old(self)@.len() && i != ino - 1 ==> final(self)@[i] == old(self)@[i],
            node(final(self)@, ino).kind == node(old(self)@, ino).kind,
            node(final(self)@, ino).name == node(old(self)@, ino).name,
            node(final(self)@, ino).parent == node(old(self)@, ino).parent,
            node(final(self)@, ino).children == node(old(self)@, ino).children,
            node(final(self)@, ino).size == size,
            node(final(self)@, ino).src == Some(src),
    {
        let ghost s0 = self@;
        let count = self.inodes.len();
        proof {
            assert(ino <= count as u64);
        }
        let idx: usize = (ino - 1) as usize;
        self.inodes[idx].size = size;
        self.inodes[idx].src = Option::Some(src);
        let ghost s1 = self@;
        proof {
            assert forall|i: int| 0 <= i < s1.len() implies #[trigger] node_ok(s1, i) by {
                assert(node_ok(s0, i));
                assert(s1[i].children@ == s0[i].children@);
                assert(s1[i].kind == s0[i].kind);
                assert(s1[i].parent == s0[i].parent);
                if i > 0 {
                    assert(s1[s1[i].parent - 1].children@.contains((i + 1) as u64));
                }
                assert forall|j: int| 0 <= j < s1[i].children@.len() implies
                    #[trigger] child_link_ok(s1, i, j) by {
                    assert(child_link_ok(s0, i, j));
                }
                assert forall|j: int, k: int|
                    0 <= j < k < s1[i].children@.len() implies s1[i].children@[j]
                    != s1[i].children@[k] && s1[s1[i].children@[j] - 1].name@
                    != s1[s1[i].children@[k] - 1].name@ by {
                    assert(children_distinct(s0, i));
                    assert(s0[s0[i].children@[j] - 1].name@ != s0[s0[i].children@[k]
                        - 1].name@);
                    assert(child_link_ok(s0, i, j));
                    assert(child_link_ok(s0, i, k));
                }
                assert(children_distinct(s1, i));
            }
        }
    }

    /// Place one archive entry in the tree below `top`: walk its directory
    /// components, creating directories as needed, then create the file, or
    /// re-point the existing file of the same archive and entry path at this
    /// entry (the last occurrence of a path wins). Returns the file inode the
    /// entry landed on, or `None` when the entry was skipped: because the
    /// table is full, or because a node of the wrong shape stands in its way.
    #[verifier::loop_isolation(false)]
    fn place_entry(
        &mut self,
        top: u64,
        archive_index: usize,
        archive_path: &Vec<u8>,
        entry: &TarEntry,
        entry_index: usize,
        comps: &Vec<Vec<u8>>,
    ) -> (placed: Option<u64>)
        requires
            tree_wf(old(self)@),
            has_ino(old(self)@, top),
            top != ROOT_INO,
            node(old(self)@, top).kind == InodeKind::Directory,
            comps@.len() >= 1,
        ensures
            tree_wf(final(self)@),
            keeps_identity(old(self)@, final(self)@),
            keeps_foreign_files(old(self)@, final(self)@, archive_index),
            src_stable(old(self)@, final(self)@, archive_index),
            children_extended(old(self)@, final(self)@),
            final(self)@[0] == old(self)@[0],
            files_of_archive_placed(
                old(self)@,
                final(self)@,
                archive_index,
                archive_path@,
                entry.path@,
                entry_index,
                entry.data@.len(),
            ),
            placed matches Some(f) ==> {
                &&& has_ino(final(self)@, f)
                &&& resolve_from(final(self)@, top, comps_view(comps@)) == Option::Some(f)
                &&& node(final(self)@, f).kind == InodeKind::RegularFile
                &&& node(final(self)@, f).size == entry.data@.len()
                &&& node(final(self)@, f).src matches Some(s2) && s2.archive_index == archive_index
                    && s2.archive_path@ == archive_path@ && s2.entry_path@ == entry.path@
                    && s2.entry_index == entry_index
            },
            placed is None ==> final(self)@.len() >= MAX_INODES || (exists|l: int|
                1 <= l <= comps@.len() && #[trigger] blocked_at(
                    final(self)@,
                    top,
                    comps_view(comps@),
                    l,
                    archive_index,
                    entry.path@,
                )),
    {
        let ghost s0 = self@;
        let ghost apath = archive_path@;
        let ghost epath = entry.path@;
        let ghost esize = entry.data@.len();
        let ghost cv = comps_view(comps@);
        let mut cur: u64 = top;
        let last = comps.len() - 1;
        let mut ci: usize = 0;
        proof {
            assert(cv.take(0) =~~= Seq::<Seq<u8>>::empty());
        }
        while ci < last
            invariant
                tree_wf(self@),
                has_ino(self@, cur),
                has_ino(self@, top),
                cur != ROOT_INO,
                self@[0] == s0[0],
                node(self@, cur).kind == InodeKind::Directory,
                ci <= last,
                resolve_from(self@, top, cv.take(ci as int)) == Option::Some(cur),
                keeps_identity(s0, self@),
                keeps_foreign_files(s0, self@, archive_index),
                src_stable(s0, self@, archive_index),
                children_extended(s0, self@),
                files_of_archive_placed(s0, self@, archive_index, apath, epath, entry_index, esize),
            decreases last - ci,
        {
            let cname = &comps[ci];
            proof {
                assert(cname@ == cv[ci as int]);
                assert(cv.take(ci as int).push(cv[ci as int]) =~~= cv.take(ci as int + 1));
            }
            match self.find_child_by_name(cur, cname.as_slice()) {
                Option::Some(ch) => {
                    proof {
                        lemma_find_child_valid(self@, cur, cname@);
                        lemma_resolve_push(self@, top, cv.take(ci as int), cv[ci as int]);
                        assert(resolve_from(self@, top, cv.take(ci as int + 1))
                            == Option::Some(ch));
                    }
                    let is_dir = match self.get(ch) {
                        Option::Some(nref) => match nref.kind {
                            InodeKind::Directory => true,
                            InodeKind::RegularFile => false,
                        },
                        Option::None => false,
                    };
                    if !is_dir {
                        // a file stands where a directory is needed: skip the entry
                        proof {
                            assert(blocked_at(self@, top, cv, ci as int + 1, archive_index, epath));
                        }
                        return Option::None;
                    }
                    cur = ch;
                }
                Option::None => {
                    if self.inodes.len() as u64 >= MAX_INODES {
                        // the table is full: skip the entry
                        return Option::None;
                    }
                    let ghost before = self@;
                    let ghost prev = cur;
                    let nm = copy_bytes(cname.as_slice());
                    let nino = self.insert(cur, InodeKind::Directory, nm, 0, Option::None);
                    proof {
                        let p = cur - 1;
                        lemma_prefix_push(before[p].children@, nino);
                        lemma_children_extended_step(s0, before, self@, p);
                        assert forall|i: int|
                            0 <= i < self@.len() implies #[trigger] placed_or_same(
                            before,
                            self@,
                            i,
                            archive_index,
                            apath,
                            epath,
                            entry_index,
                            esize,
                        ) by {
                            if i < before.len() {
                                if i != p {
                                    assert(self@[i] == before[i]);
                                }
                            } else {
                                assert(self@[i].src is None);
                            }
                        }
                        lemma_place_step(
                            s0,
                            before,
                            self@,
                            archive_index,
                            apath,
                            epath,
                            entry_index,
                            esize,
                        );
                        // the resolution so far survives the insert, and the new
                        // directory is found under the previous cursor
                        assert forall|i: int|
                            0 <= i < before.len() implies (#[trigger] self@[i]).kind
                            == before[i].kind && self@[i].name == before[i].name && self@[i].parent
                            == before[i].parent by {
                            if i != p {
                                assert(self@[i] == before[i]);
                            }
                        }
                        assert forall|i: int|
                            0 <= i < before.len() implies (#[trigger] before[i].children)@.is_prefix_of(
                            self@[i].children@,
                        ) by {
                            if i != p {
                                assert(self@[i] == before[i]);
                                lemma_prefix_refl(before[i].children@);
                            }
                        }
                        assert(keeps_identity(before, self@));
                        assert(children_extended(before, self@));
                        lemma_resolve_stable(before, self@, top, cv.take(ci as int));
                        let oldcs = node(before, prev).children@;
                        let newcs = node(self@, prev).children@;
                        assert(newcs == oldcs.push(nino));
                        lemma_find_in_miss(before, oldcs, cv[ci as int]);
                        assert(node_ok(before, prev - 1));
                        assert forall|k: int|
                            0 <= k < oldcs.len() implies node(
                            self@,
                            #[trigger] oldcs[k],
                        ).name@ != cv[ci as int] by {
                            assert(child_link_ok(before, prev - 1, k));
                            assert(self@[oldcs[k] - 1].name == before[oldcs[k] - 1].name);
                        }
                        assert forall|k: int|
                            0 <= k < oldcs.len() implies node(
                            self@,
                            #[trigger] newcs[k],
                        ).name@ != cv[ci as int] by {
                            assert(newcs[k] == oldcs[k]);
                        }
                        assert(node(self@, newcs[oldcs.len() as int]).name@ == cv[ci as int]);
                        lemma_find_in_hit(self@, newcs, cv[ci as int], oldcs.len() as int);
                        assert(spec_find_child(self@, prev, cv[ci as int]) == Option::Some(nino));
                        lemma_resolve_push(self@, top, cv.take(ci as int), cv[ci as int]);
                        assert(resolve_from(self@, top, cv.take(ci as int + 1))
                            == Option::Some(nino));
                    }
                    cur = nino;
                }
            }
            ci += 1;
        }
        // the terminal component: the file itself
        let cname = &comps[last];
        let fsize = entry.data.len() as u64;
        proof {
            assert(cname@ == cv[last as int]);
            assert(cv.take(last as int).push(cv[last as int]) =~~= cv);
        }
        match self.find_child_by_name(cur, cname.as_slice()) {
            Option::Some(ch) => {
                proof {
                    lemma_find_child_valid(self@, cur, cname@);
                    lemma_resolve_push(self@, top, cv.take(last as int), cv[last as int]);
                    assert(resolve_from(self@, top, cv) == Option::Some(ch));
                }
                let (is_file, same_archive, same_path) = match self.get(ch) {
                    Option::Some(nref) => (
                        match nref.kind {
                            InodeKind::RegularFile => true,
                            InodeKind::Directory => false,
                        },
                        match &nref.src {
                            Option::Some(s) => s.archive_index == archive_index,
                            Option::None => false,
                        },
                        match &nref.src {
                            Option::Some(s) => bytes_eq(
                                s.entry_path.as_slice(),
                                entry.path.as_slice(),
                            ),
                            Option::None => false,
                        },
                    ),
                    Option::None => (false, false, false),
                };
                if is_file && same_archive && same_path {
                    let ghost before = self@;
                    let src = FileSource {
                        archive_path: copy_bytes(archive_path.as_slice()),
                        entry_path: copy_bytes(entry.path.as_slice()),
                        archive_index,
                        entry_index,
                    };
                    self.update_file(ch, fsize, src);
                    proof {
                        let c = ch - 1;
                        lemma_prefix_refl(before[c].children@);
                        lemma_children_extended_step(s0, before, self@, c);
                        assert forall|i: int|
                            0 <= i < self@.len() implies #[trigger] placed_or_same(
                            before,
                            self@,
                            i,
                            archive_index,
                            apath,
                            epath,
                            entry_index,
                            esize,
                        ) by {
                            if i != c {
                                assert(self@[i] == before[i]);
                            } else {
                                assert(before[i].src matches Some(t) && t.archive_index
                                    == archive_index && t.entry_path@ == epath);
                                assert(self@[i].src matches Some(s) && s.archive_index
                                    == archive_index && s.archive_path@ == apath && s.entry_path@
                                    == epath && s.entry_index == entry_index && self@[i].size
                                    == esize);
                            }
                        }
                        lemma_place_step(
                            s0,
                            before,
                            self@,
                            archive_index,
                            apath,
                            epath,
                            entry_index,
                            esize,
                        );
                        // the updated file still stands where the path resolves
                        assert forall|i: int|
                            0 <= i < before.len() implies (#[trigger] self@[i]).kind
                            == before[i].kind && self@[i].name == before[i].name && self@[i].parent
                            == before[i].parent by {
                            if i != c {
                                assert(self@[i] == before[i]);
                            }
                        }
                        assert forall|i: int|
                            0 <= i < before.len() implies (#[trigger] before[i].children)@.is_prefix_of(
                            self@[i].children@,
                        ) by {
                            if i != c {
                                assert(self@[i] == before[i]);
                            }
                            lemma_prefix_refl(before[i].children@);
                        }
                        assert(keeps_identity(before, self@));
                        assert(children_extended(before, self@));
                        lemma_resolve_stable(before, self@, top, cv);
                        assert(resolve_from(self@, top, cv) == Option::Some(ch));
                    }
                    return Option::Some(ch);
                }
                // a node of the wrong shape stands there: skip the entry
                proof {
                    assert(node_ok(self@, ch - 1));
                    assert(cv.take(cv.len() as int) =~~= cv);
                    assert(blocked_at(self@, top, cv, cv.len() as int, archive_index, epath));
                }
                Option::None
            }
            Option::None => {
                if self.inodes.len() as u64 >= MAX_INODES {
                    // the table is full: skip the entry
                    return Option::None;
                }
                let ghost before = self@;
                let ghost prev = cur;
                let f = File {
                    name: copy_bytes(cname.as_slice()),
                    index: entry_index,
                    size: fsize,
                };
                let File { name: fname, index: _, size: _ } = f;
                let src = FileSource {
                    archive_path: copy_bytes(archive_path.as_slice()),
                    entry_path: copy_bytes(entry.path.as_slice()),
                    archive_index,
                    entry_index,
                };
                let nino = self.insert(cur, InodeKind::RegularFile, fname, fsize, Option::Some(src));
                proof {
                    let p = cur - 1;
                    lemma_prefix_push(before[p].children@, nino);
                    lemma_children_extended_step(s0, before, self@, p);
                    assert forall|i: int|
                        0 <= i < self@.len() implies #[trigger] placed_or_same(
                        before,
                        self@,
                        i,
                        archive_index,
                        apath,
                        epath,
                        entry_index,
                        esize,
                    ) by {
                        if i < before.len() {
                            if i != p {
                                assert(self@[i] == before[i]);
                            }
                        } else {
                            assert(i == before.len());
                            assert(self@[i].src matches Some(s) && s.archive_index == archive_index
                                && s.archive_path@ == apath && s.entry_path@ == epath
                                && s.entry_index == entry_index && self@[i].size == esize);
                        }
                    }
                    lemma_place_step(
                        s0,
                        before,
                        self@,
                        archive_index,
                        apath,
                        epath,
                        entry_index,
                        esize,
                    );
                    // the fresh file stands where the path resolves
                    assert forall|i: int|
                        0 <= i < before.len() implies (#[trigger] self@[i]).kind == before[i].kind
                        && self@[i].name == before[i].name && self@[i].parent
                        == before[i].parent by {
                        if i != p {
                            assert(self@[i] == before[i]);
                        }
                    }
                    assert forall|i: int|
                        0 <= i < before.len() implies (#[trigger] before[i].children)@.is_prefix_of(
                        self@[i].children@,
                    ) by {
                        if i != p {
                            assert(self@[i] == before[i]);
                            lemma_prefix_refl(before[i].children@);
                        }
                    }
                    assert(keeps_identity(before, self@));
                    assert(children_extended(before, self@));
                    lemma_resolve_stable(before, self@, top, cv.take(last as int));
                    let oldcs = node(before, prev).children@;
                    let newcs = node(self@, prev).children@;
                    assert(newcs == oldcs.push(nino));
                    lemma_find_in_miss(before, oldcs, cv[last as int]);
                    assert(node_ok(before, prev - 1));
                    assert forall|k: int|
                        0 <= k < oldcs.len() implies node(
                        self@,
                        #[trigger] oldcs[k],
                    ).name@ != cv[last as int] by {
                        assert(child_link_ok(before, prev - 1, k));
                        assert(self@[oldcs[k] - 1].name == before[oldcs[k] - 1].name);
                    }
                    assert forall|k: int|
                        0 <= k < oldcs.len() implies node(
                        self@,
                        #[trigger] newcs[k],
                    ).name@ != cv[last as int] by {
                        assert(newcs[k] == oldcs[k]);
                    }
                    assert(node(self@, newcs[oldcs.len() as int]).name@ == cv[last as int]);
                    lemma_find_in_hit(self@, newcs, cv[last as int], oldcs.len() as int);
                    assert(spec_find_child(self@, prev, cv[last as int]) == Option::Some(nino));
                    lemma_resolve_push(self@, top, cv.take(last as int), cv[last as int]);
                    assert(resolve_from(self@, top, cv) == Option::Some(nino));
                }
                Option::Some(nino)
            }
        }
    }

    /// Walk one archive's entry list and materialize it below the directory
    /// `top`. Non-regular entries and entries with a refused path are
    /// skipped; when one path occurs twice, the later entry wins. The reply
    /// records, for each entry, the file inode it landed on, or `None` for a
    /// skipped entry -- and a placeable entry is skipped only when the table
    /// overflowed or a node of the wrong shape blocks its path.
    #[verifier::loop_isolation(false)]
    pub fn fill_tree(
        &mut self,
        top: u64,
        archive_index: usize,
        archive_path: &Vec<u8>,
        entries: &Vec<TarEntry>,
    ) -> (out: Vec<Option<u64>>)
        requires
            tree_wf(old(self)@),
            has_ino(old(self)@, top),
            top != ROOT_INO,
            node(old(self)@, top).kind == InodeKind::Directory,
            forall|i: int|
                0 <= i < old(self)@.len() ==> ((#[trigger] old(self)@[i].src) matches Some(s)
                    ==> s.archive_index != archive_index),
        ensures
            tree_wf(final(self)@),
            keeps_identity(old(self)@, final(self)@),
            keeps_foreign_files(old(self)@, final(self)@, archive_index),
            src_stable(old(self)@, final(self)@, archive_index),
            children_extended(old(self)@, final(self)@),
            final(self)@[0] == old(self)@[0],
            forall|i: int|
                0 <= i < final(self)@.len() ==> ((#[trigger] final(self)@[i].src) matches Some(s)
                    ==> (s.archive_index == archive_index ==> entry_link_ok(
                    s,
                    final(self)@[i].size,
                    archive_path@,
                    entries@,
                ))),
            out@.len() == entries@.len(),
            forall|j: int|
                0 <= j < entries@.len() ==> #[trigger] fill_claim(
                    final(self)@,
                    top,
                    archive_index,
                    entries@,
                    j,
                    out@[j],
                ),
    {
        let ghost s0 = self@;
        let n = entries.len();
        let mut out: Vec<Option<u64>> = Vec::new();
        let mut j: usize = 0;
        while j < n
            invariant
                tree_wf(self@),
                j <= n,
                has_ino(self@, top),
                node(self@, top).kind == InodeKind::Directory,
                keeps_identity(s0, self@),
                keeps_foreign_files(s0, self@, archive_index),
                src_stable(s0, self@, archive_index),
                children_extended(s0, self@),
                self@[0] == s0[0],
                forall|i: int|
                    0 <= i < self@.len() ==> ((#[trigger] self@[i].src) matches Some(s)
                        ==> (s.archive_index == archive_index ==> entry_link_ok(
                        s,
                        self@[i].size,
                        archive_path@,
                        entries@,
                    ))),
                out@.len() == j,
                forall|k: int|
                    0 <= k < j ==> #[trigger] fill_claim(
                        self@,
                        top,
                        archive_index,
                        entries@,
                        k,
                        out@[k],
                    ),
            decreases n - j,
        {
            let e = &entries[j];
            let mut placed: Option<u64> = Option::None;
            let mut valid: bool = false;
            if e.is_file {
                match parse_entry_path(e.path.as_slice()) {
                    Option::None => {
                        // a refused path: skip the entry
                    }
                    Option::Some(comps) => {
                        valid = true;
                        let ghost before = self@;
                        placed = self.place_entry(
                            top,
                            archive_index,
                            archive_path,
                            e,
                            j,
                            &comps,
                        );
                        proof {
                            lemma_place_trans(s0, before, self@, archive_index);
                            assert forall|i: int|
                                0 <= i < s0.len() implies (#[trigger] s0[i].children)@.is_prefix_of(
                                self@[i].children@,
                            ) by {
                                assert(s0[i].children@.is_prefix_of(before[i].children@));
                                assert(before[i].children@.is_prefix_of(self@[i].children@));
                                lemma_prefix_trans(
                                    s0[i].children@,
                                    before[i].children@,
                                    self@[i].children@,
                                );
                            }
                            assert forall|i: int|
                                0 <= i < self@.len() implies ((#[trigger] self@[i].src) matches Some(
                                s,
                            ) ==> (s.archive_index == archive_index ==> entry_link_ok(
                                s,
                                self@[i].size,
                                archive_path@,
                                entries@,
                            ))) by {
                                if self@[i].src is Some && self@[i].src->Some_0.archive_index
                                    == archive_index {
                                    let sv = self@[i].src->Some_0;
                                    if 0 <= i < before.len() && self@[i].size == before[i].size
                                        && self@[i].src == before[i].src {
                                    } else {
                                        assert(sv.archive_path@ == archive_path@ && sv.entry_path@
                                            == e.path@ && sv.entry_index == j && self@[i].size
                                            == e.data@.len());
                                        assert(entries@[j as int] == *e);
                                    }
                                }
                            }
                            // the claims of the entries already settled survive
                            // this placement step
                            assert forall|k: int|
                                0 <= k < j implies #[trigger] fill_claim(
                                self@,
                                top,
                                archive_index,
                                entries@,
                                k,
                                out@[k],
                            ) by {
                                assert(fill_claim(before, top, archive_index, entries@, k, out@[k]));
                                let pk = entries@[k].path@;
                                match out@[k] {
                                    Option::Some(f) => {
                                        lemma_resolve_stable(before, self@, top, spec_split(pk));
                                        assert(self@[f - 1].kind == before[f - 1].kind);
                                        let t = before[f - 1].src->Some_0;
                                        if self@[f - 1].size == before[f - 1].size && self@[f
                                            - 1].src == before[f - 1].src {
                                        } else {
                                            assert(node_ok(self@, f - 1));
                                            assert(self@[f - 1].kind == InodeKind::RegularFile);
                                            assert(self@[f - 1].src is Some);
                                            let t2 = self@[f - 1].src->Some_0;
                                            assert(src_stable_at(
                                                before,
                                                self@,
                                                f - 1,
                                                archive_index,
                                            ));
                                            assert(t2.archive_index == archive_index);
                                            assert(t2.entry_path@ == e.path@ && t2.entry_index
                                                == j);
                                            assert(before[f - 1].src matches Some(t0)
                                                && t0.entry_path@ == e.path@);
                                            assert(t.entry_path@ == e.path@);
                                        }
                                    }
                                    Option::None => {
                                        if entries@[k].is_file && path_ok(pk) {
                                            if before.len() >= MAX_INODES {
                                                assert(self@.len() >= MAX_INODES);
                                            } else {
                                                let l = choose|l: int|
                                                    1 <= l <= spec_split(pk).len()
                                                        && #[trigger] blocked_at(
                                                        before,
                                                        top,
                                                        spec_split(pk),
                                                        l,
                                                        archive_index,
                                                        pk,
                                                    );
                                                lemma_blocked_stable(
                                                    before,
                                                    self@,
                                                    top,
                                                    spec_split(pk),
                                                    l,
                                                    archive_index,
                                                    pk,
                                                    archive_path@,
                                                    e.path@,
                                                    j as usize,
                                                    e.data@.len(),
                                                );
                                            }
                                        }
                                    }
                                }
                            }
                            // and this entry's own claim holds
                            assert(comps_view(comps@) == spec_split(e.path@));
                            assert(fill_claim(self@, top, archive_index, entries@, j as int, placed));
                        }
                    }
                }
            }
            proof {
                if !valid {
                    assert(placed is None);
                    assert(fill_claim(self@, top, archive_index, entries@, j as int, placed));
                }
            }
            out.push(placed);
            j += 1;
        }
        out
    }
}

} // verus!
