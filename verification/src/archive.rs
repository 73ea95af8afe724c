//! Decoding of gzip-compressed tar archives held in memory.
//!
//! The gzip and tar layers are decoded by outside crates; their results are
//! named by uninterpreted spec functions, so everything downstream of the
//! decoded entry list is verified against those names.

use vstd::prelude::*;

verus! {

/// One entry decoded from a tar stream: its path inside the archive, whether
/// it is a regular file, and its payload bytes.
pub struct TarEntry {
    pub path: Vec<u8>,
    pub is_file: bool,
    pub data: Vec<u8>,
}

impl View for TarEntry {
    type V = (Seq<u8>, bool, Seq<u8>);

    open spec fn view(&self) -> (Seq<u8>, bool, Seq<u8>) {
        (self.path@, self.is_file, self.data@)
    }
}

/// What inflating a gzip stream yields: `None` where the bytes are not a
/// well-formed gzip stream, otherwise the inflated bytes. The outcome is a
/// function of the input bytes alone.
pub uninterp spec fn gunzip_of(b: Seq<u8>) -> Option<Seq<u8>>;

/// What enumerating a tar stream yields: `None` where the bytes are not a
/// well-formed tar stream, otherwise each entry's path, regular-file flag and
/// payload, in stream order. The outcome is a function of the input bytes
/// alone.
pub uninterp spec fn untar_of(b: Seq<u8>) -> Option<Seq<(Seq<u8>, bool, Seq<u8>)>>;

/// Relies on flate2::read::GzDecoder (driven by std::io::Read::read_to_end):
/// it inflates the first gzip member of the bytes held in memory (trailing
/// bytes after that member are ignored), failing on malformed or truncated
/// input; the outcome depends on the bytes alone.
#[verifier::external_body]
fn gunzip(bytes: &Vec<u8>) -> (r: Option<Vec<u8>>)
    ensures
        (r is Some) == (gunzip_of(bytes@) is Some),
        r matches Some(d) ==> gunzip_of(bytes@) == Some(d@),
{
    let mut out: Vec<u8> = Vec::new();
    let mut dec = flate2::read::GzDecoder::new(bytes.as_slice());
    match std::io::Read::read_to_end(&mut dec, &mut out) {
        Ok(_) => Some(out),
        Err(_) => None,
    }
}

/// Relies on tar::Archive::entries and tar::Entry::{path_bytes, header}: it
/// enumerates the entries of a tar stream held in memory in order, reporting
/// each entry's in-archive path, whether it is a regular file, and its
/// payload; the outcome depends on the bytes alone.
#[verifier::external_body]
fn untar(bytes: &Vec<u8>) -> (r: Option<Vec<TarEntry>>)
    ensures
        (r is Some) == (untar_of(bytes@) is Some),
        r matches Some(es) ==> untar_of(bytes@) == Some(es@.map_values(|e: TarEntry| e@)),
{
    let mut ar = tar::Archive::new(bytes.as_slice());
    let mut out: Vec<TarEntry> = Vec::new();
    let entries = match ar.entries() { Ok(es) => es, Err(_) => return None };
    for entry in entries {
        let mut entry = match entry { Ok(e) => e, Err(_) => return None };
        let path = entry.path_bytes().into_owned();
        let is_file = entry.header().entry_type().is_file();
        let mut data: Vec<u8> = Vec::new();
        if std::io::Read::read_to_end(&mut entry, &mut data).is_err() { return None; }
        out.push(TarEntry { path, is_file, data });
    }
    Some(out)
}

/// The entry list of a gzip-compressed tar archive: `None` where the gzip or
/// the tar layer is malformed.
pub open spec fn archive_entries(b: Seq<u8>) -> Option<Seq<(Seq<u8>, bool, Seq<u8>)>> {
    match gunzip_of(b) {
        Option::None => Option::None,
        Option::Some(t) => untar_of(t),
    }
}

/// Decode a gzip-compressed tar archive held in memory into its entry list.
pub fn decode_archive(bytes: &Vec<u8>) -> (r: Option<Vec<TarEntry>>)
    ensures
        (r is Some) == (archive_entries(bytes@) is Some),
        r matches Some(es) ==> archive_entries(bytes@) == Some(es@.map_values(|e: TarEntry| e@)),
{
    match gunzip(bytes) {
        Option::None => Option::None,
        Option::Some(t) => untar(&t),
    }
}

} // verus!
