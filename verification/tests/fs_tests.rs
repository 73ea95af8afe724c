use compressed_dir::fs::{FuseFs, SourceFile};
use compressed_dir::inode::{
    Attr, DirChild, Errno, InodeKind, DIR_FH, FIL_FH, FORBIDDEN_OPEN_FLAGS, KEEP_CACHE_FLAG,
    ROOT_INO, TTL_SECS,
};

fn gz_tar(entries: &[(&str, &[u8])]) -> Vec<u8> {
    let mut tb = tar::Builder::new(Vec::new());
    for (path, data) in entries {
        let mut h = tar::Header::new_gnu();
        h.set_size(data.len() as u64);
        h.set_mode(0o644);
        h.set_entry_type(tar::EntryType::Regular);
        tb.append_data(&mut h, path, *data).unwrap();
    }
    let tar_bytes = tb.into_inner().unwrap();
    let mut enc = flate2::write::GzEncoder::new(Vec::new(), flate2::Compression::default());
    std::io::Write::write_all(&mut enc, &tar_bytes).unwrap();
    enc.finish().unwrap()
}

fn mount(files: Vec<(&str, Vec<u8>)>) -> FuseFs {
    let sf = files
        .into_iter()
        .map(|(n, b)| SourceFile { name: n.as_bytes().to_vec(), bytes: b })
        .collect();
    let mut fs = FuseFs::new(sf, 1062, 1063);
    fs.init().unwrap();
    fs
}

fn resolve(fs: &FuseFs, path: &[&str]) -> Result<Attr, Errno> {
    let mut attr = fs.getattr(ROOT_INO)?;
    for comp in path {
        attr = fs.lookup(attr.ino, comp.as_bytes())?;
    }
    Ok(attr)
}

fn names_of(fs: &FuseFs, ino: u64) -> Vec<String> {
    fs.readdir(ino, DIR_FH, 0)
        .unwrap()
        .iter()
        .skip(2)
        .map(|e| String::from_utf8(e.child.name().clone()).unwrap())
        .collect()
}

const CARGO_TOML: &[u8] = b"[name]\nname=\"a\"\nv=1\n";

fn one_crate() -> FuseFs {
    let bytes = gz_tar(&[("a-1.0/Cargo.toml", CARGO_TOML), ("a-1.0/src/lib.rs", b"")]);
    mount(vec![("a.crate", bytes)])
}

#[test]
fn single_archive_listing_and_read() {
    assert_eq!(CARGO_TOML.len(), 20);
    let fs = one_crate();
    assert_eq!(names_of(&fs, ROOT_INO), vec!["a".to_string()]);
    let stem = resolve(&fs, &["a"]).unwrap();
    assert_eq!(stem.kind, InodeKind::Directory);
    assert_eq!(names_of(&fs, stem.ino), vec!["a-1.0".to_string()]);
    let sub = resolve(&fs, &["a", "a-1.0"]).unwrap();
    assert_eq!(sub.kind, InodeKind::Directory);
    let mut subnames = names_of(&fs, sub.ino);
    subnames.sort();
    assert_eq!(subnames, vec!["Cargo.toml".to_string(), "src".to_string()]);
    let file = resolve(&fs, &["a", "a-1.0", "Cargo.toml"]).unwrap();
    let data = fs.read(file.ino, FIL_FH, 0, 4096).unwrap();
    assert_eq!(data, CARGO_TOML.to_vec());
}

#[test]
fn lookup_missing_and_on_file() {
    let fs = one_crate();
    let sub = resolve(&fs, &["a", "a-1.0"]).unwrap();
    assert_eq!(fs.lookup(sub.ino, b"missing"), Err(Errno::Enoent));
    let file = resolve(&fs, &["a", "a-1.0", "Cargo.toml"]).unwrap();
    assert_eq!(fs.lookup(file.ino, b"x"), Err(Errno::Enotdir));
    assert_eq!(fs.lookup(9999, b"x"), Err(Errno::Enoent));
}

#[test]
fn open_flags_and_offset_read() {
    let fs = one_crate();
    let file = resolve(&fs, &["a", "a-1.0", "Cargo.toml"]).unwrap();
    assert_eq!(fs.open(file.ino, libc::O_WRONLY), Err(Errno::Erofs));
    let (fh, flags) = fs.open(file.ino, libc::O_RDONLY).unwrap();
    assert_eq!(fh, FIL_FH);
    assert_eq!(flags, KEEP_CACHE_FLAG);
    let data = fs.read(file.ino, fh, 10, 5).unwrap();
    assert_eq!(data, CARGO_TOML[10..15].to_vec());
}

#[test]
fn two_archives_under_root() {
    let a = gz_tar(&[("a-1.0/f", b"1")]);
    let b = gz_tar(&[("b-1.0/g", b"2")]);
    let fs = mount(vec![("a.crate", a), ("b.crate", b)]);
    let names = names_of(&fs, ROOT_INO);
    assert_eq!(names.iter().filter(|n| n.as_str() == "a").count(), 1);
    assert_eq!(names.iter().filter(|n| n.as_str() == "b").count(), 1);
    assert_eq!(names.len(), 2);
}

#[test]
fn duplicate_entry_last_wins() {
    let bytes = gz_tar(&[("x/y.txt", b"abc"), ("x/y.txt", b"hello")]);
    let fs = mount(vec![("archive.crate", bytes)]);
    let x = resolve(&fs, &["archive", "x"]).unwrap();
    let y = fs.lookup(x.ino, b"y.txt").unwrap();
    assert_eq!(y.size, 5);
    let data = fs.read(y.ino, FIL_FH, 0, 100).unwrap();
    assert_eq!(data, b"hello".to_vec());
    assert_eq!(names_of(&fs, x.ino), vec!["y.txt".to_string()]);
}

#[test]
fn read_on_directory_and_bad_handle() {
    let fs = one_crate();
    let sub = resolve(&fs, &["a", "a-1.0"]).unwrap();
    assert_eq!(fs.read(sub.ino, FIL_FH, 0, 10), Err(Errno::Eisdir));
    let file = resolve(&fs, &["a", "a-1.0", "Cargo.toml"]).unwrap();
    assert_eq!(fs.read(file.ino, FIL_FH + 1, 0, 10), Err(Errno::Ebadf));
    assert_eq!(fs.read(file.ino, DIR_FH, 0, 10), Err(Errno::Ebadf));
    assert_eq!(fs.read(9999, FIL_FH, 0, 10), Err(Errno::Enoent));
}

#[test]
fn read_zero_and_past_end() {
    let fs = one_crate();
    let file = resolve(&fs, &["a", "a-1.0", "Cargo.toml"]).unwrap();
    assert_eq!(fs.read(file.ino, FIL_FH, 0, 0).unwrap(), Vec::<u8>::new());
    assert_eq!(fs.read(file.ino, FIL_FH, 20, 10).unwrap(), Vec::<u8>::new());
    assert_eq!(fs.read(file.ino, FIL_FH, 100, 10).unwrap(), Vec::<u8>::new());
}

#[test]
fn read_spanning_end_returns_fewer() {
    let fs = one_crate();
    let file = resolve(&fs, &["a", "a-1.0", "Cargo.toml"]).unwrap();
    let data = fs.read(file.ino, FIL_FH, 15, 100).unwrap();
    assert_eq!(data.len(), 5);
    assert_eq!(data, CARGO_TOML[15..].to_vec());
}

#[test]
fn forbidden_flags_checked_before_inode() {
    let fs = one_crate();
    assert_eq!(fs.opendir(987654, libc::O_WRONLY), Err(Errno::Erofs));
    assert_eq!(fs.open(987654, libc::O_RDWR), Err(Errno::Erofs));
    assert_eq!(fs.opendir(987654, 0), Err(Errno::Enoent));
    for f in [
        libc::O_APPEND,
        libc::O_CREAT,
        libc::O_EXCL,
        libc::O_RDWR,
        libc::O_WRONLY,
        libc::O_TRUNC,
    ] {
        assert_eq!(fs.opendir(ROOT_INO, f), Err(Errno::Erofs));
        assert_eq!(fs.open(ROOT_INO, f), Err(Errno::Erofs));
    }
    let (fh, _) = fs.opendir(ROOT_INO, 0).unwrap();
    assert_eq!(fh, DIR_FH);
}

#[test]
fn getattr_values_and_purity() {
    let fs = one_crate();
    let root = fs.getattr(ROOT_INO).unwrap();
    assert_eq!(root.kind, InodeKind::Directory);
    assert_eq!(root.perm, 0o555);
    assert_eq!(root.nlink, 2);
    assert_eq!(root.size, 0);
    assert_eq!(root.blocks, 0);
    assert_eq!(root.uid, 1062);
    assert_eq!(root.gid, 1063);
    assert_eq!(root.blksize, 512);
    let file = resolve(&fs, &["a", "a-1.0", "Cargo.toml"]).unwrap();
    assert_eq!(file.kind, InodeKind::RegularFile);
    assert_eq!(file.perm, 0o444);
    assert_eq!(file.nlink, 1);
    assert_eq!(file.size, 20);
    assert_eq!(file.blocks, 1);
    assert_eq!(fs.getattr(file.ino).unwrap(), file);
    assert_eq!(fs.getattr(file.ino).unwrap(), fs.getattr(file.ino).unwrap());
    assert_eq!(fs.getattr(424242), Err(Errno::Enoent));
    assert_eq!(TTL_SECS, 1);
}

#[test]
fn empty_file_reads_empty() {
    let fs = one_crate();
    let file = resolve(&fs, &["a", "a-1.0", "src", "lib.rs"]).unwrap();
    assert_eq!(file.size, 0);
    assert_eq!(file.blocks, 0);
    assert_eq!(fs.read(file.ino, FIL_FH, 0, 4096).unwrap(), Vec::<u8>::new());
}

#[test]
fn readdir_full_listing_and_resume() {
    let bytes = gz_tar(&[("c-1.0/one", b"1"), ("c-1.0/two", b"2"), ("c-1.0/three", b"3")]);
    let fs = mount(vec![("c.crate", bytes)]);
    let sub = resolve(&fs, &["c", "c-1.0"]).unwrap();
    let full = fs.readdir(sub.ino, DIR_FH, 0).unwrap();
    assert_eq!(full.len(), 5);
    assert_eq!(full[0].child.name(), b".");
    assert_eq!(full[0].ino, sub.ino);
    assert_eq!(full[0].offset, 0);
    assert_eq!(full[1].child.name(), b"..");
    assert_eq!(full[1].ino, resolve(&fs, &["c"]).unwrap().ino);
    assert_eq!(full[1].offset, 1);
    assert_eq!(full[2].child.name(), b"one");
    assert_eq!(full[3].child.name(), b"two");
    assert_eq!(full[4].child.name(), b"three");
    // a resume offset of zero always means the start, so continuation is
    // exercised from the pseudo-offset of `..` on
    for k in 2..full.len() {
        let rest = fs.readdir(sub.ino, DIR_FH, full[k - 1].offset).unwrap();
        let mut joined: Vec<(u64, i64, Vec<u8>)> =
            full[..k].iter().map(|e| (e.ino, e.offset, e.child.name().clone())).collect();
        joined.extend(rest.iter().map(|e| (e.ino, e.offset, e.child.name().clone())));
        let whole: Vec<(u64, i64, Vec<u8>)> =
            full.iter().map(|e| (e.ino, e.offset, e.child.name().clone())).collect();
        assert_eq!(joined, whole);
    }
    let past = fs.readdir(sub.ino, DIR_FH, full[full.len() - 1].offset).unwrap();
    assert!(past.is_empty());
}

#[test]
fn readdir_errors() {
    let fs = one_crate();
    assert_eq!(
        fs.readdir(31337, DIR_FH, 0).map(|v| v.len()),
        Err(Errno::Enoent)
    );
    assert_eq!(
        fs.readdir(ROOT_INO, FIL_FH, 0).map(|v| v.len()),
        Err(Errno::Ebadf)
    );
    let file = resolve(&fs, &["a", "a-1.0", "Cargo.toml"]).unwrap();
    assert_eq!(
        fs.readdir(file.ino, DIR_FH, 0).map(|v| v.len()),
        Err(Errno::Enotdir)
    );
}

#[test]
fn lookup_and_readdir_agree() {
    let bytes = gz_tar(&[("d-1.0/alpha", b"a"), ("d-1.0/beta", b"bb")]);
    let fs = mount(vec![("d.crate", bytes)]);
    let sub = resolve(&fs, &["d", "d-1.0"]).unwrap();
    let listing = fs.readdir(sub.ino, DIR_FH, 0).unwrap();
    for e in listing.iter().skip(2) {
        let a = fs.lookup(sub.ino, e.child.name()).unwrap();
        assert_eq!(a.ino, e.ino);
        match &e.child {
            DirChild::Dir(_) => assert_eq!(a.kind, InodeKind::Directory),
            DirChild::File(_) => assert_eq!(a.kind, InodeKind::RegularFile),
        }
    }
}

#[test]
fn read_is_deterministic() {
    let fs = one_crate();
    let file = resolve(&fs, &["a", "a-1.0", "Cargo.toml"]).unwrap();
    let r1 = fs.read(file.ino, FIL_FH, 3, 7).unwrap();
    let r2 = fs.read(file.ino, FIL_FH, 3, 7).unwrap();
    assert_eq!(r1, r2);
    assert_eq!(r1, CARGO_TOML[3..10].to_vec());
}

#[test]
fn tree_structure_invariants() {
    let bytes = gz_tar(&[
        ("e-1.0/Cargo.toml", b"x"),
        ("e-1.0/src/lib.rs", b"yy"),
        ("e-1.0/src/deep/more.rs", b"zzz"),
    ]);
    let fs = mount(vec![("e.crate", bytes)]);
    let mut inos: Vec<u64> = Vec::new();
    let mut ino = 1u64;
    while let Some(_) = fs.tree_item(ino) {
        inos.push(ino);
        ino += 1;
    }
    // every child named anywhere is held by the table, and each non-root
    // inode is named exactly once over all children lists
    let mut seen: std::collections::BTreeMap<u64, usize> = std::collections::BTreeMap::new();
    for &i in &inos {
        let item = fs.tree_item(i).unwrap();
        assert_eq!(item.inode, i);
        for c in &item.children {
            assert!(fs.tree_item(*c).is_some());
            assert!(fs.getattr(*c).is_ok());
            assert_eq!(fs.tree_item(*c).unwrap().parent, i);
            *seen.entry(*c).or_insert(0) += 1;
        }
    }
    for &i in &inos {
        if i == ROOT_INO {
            assert!(!seen.contains_key(&i));
        } else {
            assert_eq!(seen[&i], 1);
        }
    }
    // within each directory the names are pairwise distinct
    for &i in &inos {
        if fs.getattr(i).unwrap().kind == InodeKind::Directory {
            let names = names_of(&fs, i);
            let mut dedup = names.clone();
            dedup.sort();
            dedup.dedup();
            assert_eq!(dedup.len(), names.len());
        }
    }
}

#[test]
fn whole_file_read_matches_archive() {
    let payload: Vec<u8> = (0u8..=255).cycle().take(3000).collect();
    let bytes = gz_tar(&[("big-1.0/blob.bin", &payload)]);
    let fs = mount(vec![("big.crate", bytes)]);
    let file = resolve(&fs, &["big", "big-1.0", "blob.bin"]).unwrap();
    assert_eq!(file.size, 3000);
    assert_eq!(file.blocks, 6);
    let data = fs.read(file.ino, FIL_FH, 0, 3000).unwrap();
    assert_eq!(data, payload);
    let tail = fs.read(file.ino, FIL_FH, 2999, 100).unwrap();
    assert_eq!(tail, payload[2999..].to_vec());
}

#[test]
fn non_crate_files_and_bad_archives_skipped() {
    let good = gz_tar(&[("ok-1.0/f", b"fine")]);
    let fs = mount(vec![
        ("README.md", b"not an archive".to_vec()),
        ("broken.crate", b"definitely not gzip".to_vec()),
        ("ok.crate", good),
    ]);
    assert_eq!(names_of(&fs, ROOT_INO), vec!["ok".to_string()]);
    let f = resolve(&fs, &["ok", "ok-1.0", "f"]).unwrap();
    assert_eq!(fs.read(f.ino, FIL_FH, 0, 10).unwrap(), b"fine".to_vec());
}

#[test]
fn duplicate_stem_second_archive_skipped() {
    let first = gz_tar(&[("p-1.0/first", b"1")]);
    let second = gz_tar(&[("p-1.0/second", b"2")]);
    let fs = mount(vec![("p.crate", first), ("p.crate", second)]);
    assert_eq!(names_of(&fs, ROOT_INO), vec!["p".to_string()]);
    let sub = resolve(&fs, &["p", "p-1.0"]).unwrap();
    assert_eq!(names_of(&fs, sub.ino), vec!["first".to_string()]);
}

#[test]
fn directory_entries_in_tar_are_skipped() {
    let mut tb = tar::Builder::new(Vec::new());
    let mut hd = tar::Header::new_gnu();
    hd.set_size(0);
    hd.set_mode(0o755);
    hd.set_entry_type(tar::EntryType::Directory);
    tb.append_data(&mut hd, "q-1.0/sub/", &b""[..]).unwrap();
    let mut hf = tar::Header::new_gnu();
    hf.set_size(4);
    hf.set_mode(0o644);
    hf.set_entry_type(tar::EntryType::Regular);
    tb.append_data(&mut hf, "q-1.0/sub/file", &b"data"[..]).unwrap();
    let tar_bytes = tb.into_inner().unwrap();
    let mut enc = flate2::write::GzEncoder::new(Vec::new(), flate2::Compression::default());
    std::io::Write::write_all(&mut enc, &tar_bytes).unwrap();
    let fs = mount(vec![("q.crate", enc.finish().unwrap())]);
    let f = resolve(&fs, &["q", "q-1.0", "sub", "file"]).unwrap();
    assert_eq!(fs.read(f.ino, FIL_FH, 0, 10).unwrap(), b"data".to_vec());
    let sub = resolve(&fs, &["q", "q-1.0", "sub"]).unwrap();
    assert_eq!(sub.kind, InodeKind::Directory);
    assert_eq!(names_of(&fs, sub.ino), vec!["file".to_string()]);
}

#[test]
fn empty_source_directory() {
    let fs = mount(vec![]);
    let listing = fs.readdir(ROOT_INO, DIR_FH, 0).unwrap();
    assert_eq!(listing.len(), 2);
    assert_eq!(listing[0].child.name(), b".");
    assert_eq!(listing[1].child.name(), b"..");
    assert_eq!(listing[1].ino, ROOT_INO);
}

#[test]
fn errno_codes_match_libc() {
    assert_eq!(Errno::Enoent.code(), libc::ENOENT);
    assert_eq!(Errno::Enotdir.code(), libc::ENOTDIR);
    assert_eq!(Errno::Ebadf.code(), libc::EBADF);
    assert_eq!(Errno::Eisdir.code(), libc::EISDIR);
    assert_eq!(Errno::Einval.code(), libc::EINVAL);
    assert_eq!(Errno::Erofs.code(), libc::EROFS);
    assert_eq!(Errno::Eio.code(), libc::EIO);
}

#[test]
fn protocol_constants_match_bridge() {
    assert_eq!(
        FORBIDDEN_OPEN_FLAGS,
        libc::O_APPEND | libc::O_CREAT | libc::O_EXCL | libc::O_RDWR | libc::O_WRONLY
            | libc::O_TRUNC
    );
    assert_eq!(KEEP_CACHE_FLAG, fuser::FopenFlags::FOPEN_KEEP_CACHE.bits());
    assert_eq!(ROOT_INO, 1);
    assert_ne!(DIR_FH, FIL_FH);
}

fn gz_tar_raw(entries: &[(&str, &[u8])]) -> Vec<u8> {
    let mut tb = tar::Builder::new(Vec::new());
    for (path, data) in entries {
        let mut h = tar::Header::new_gnu();
        h.as_old_mut().name[..path.len()].copy_from_slice(path.as_bytes());
        h.set_size(data.len() as u64);
        h.set_mode(0o644);
        h.set_entry_type(tar::EntryType::Regular);
        h.set_cksum();
        tb.append(&h, *data).unwrap();
    }
    let tar_bytes = tb.into_inner().unwrap();
    let mut enc = flate2::write::GzEncoder::new(Vec::new(), flate2::Compression::default());
    std::io::Write::write_all(&mut enc, &tar_bytes).unwrap();
    enc.finish().unwrap()
}

#[test]
fn refused_entry_paths_are_skipped() {
    let bytes = gz_tar_raw(&[
        ("../evil.txt", b"bad"),
        ("./dotted.txt", b"bad"),
        ("r-1.0//gap.txt", b"bad"),
        ("/abs.txt", b"bad"),
        ("r-1.0/good.txt", b"good"),
    ]);
    let fs = mount(vec![("r.crate", bytes)]);
    let sub = resolve(&fs, &["r", "r-1.0"]).unwrap();
    assert_eq!(names_of(&fs, sub.ino), vec!["good.txt".to_string()]);
    assert_eq!(names_of(&fs, resolve(&fs, &["r"]).unwrap().ino).len(), 1);
    let good = fs.lookup(sub.ino, b"good.txt").unwrap();
    assert_eq!(fs.read(good.ino, FIL_FH, 0, 10).unwrap(), b"good".to_vec());
}

#[test]
fn load_archive_reports_what_was_loaded() {
    let good = gz_tar(&[("s-1.0/f", b"x")]);
    let mut fs = FuseFs::new(Vec::new(), 0, 0);
    fs.init().unwrap();
    assert!(!fs.load_archive(b"notes.txt".to_vec(), good.clone()));
    assert!(!fs.load_archive(b"s.crate".to_vec(), b"not gzip".to_vec()));
    assert!(fs.load_archive(b"s.crate".to_vec(), good.clone()));
    // the stem is now taken, so the same archive cannot be loaded again
    assert!(!fs.load_archive(b"s.crate".to_vec(), good));
    assert_eq!(names_of(&fs, ROOT_INO), vec!["s".to_string()]);
}
