//! Snapshot loading: from the payload that was fetched for a platform to its
//! metadata tree.
//!
//! A snapshot is published as a JSON document, compressed as a zstd frame, and
//! beside it as the plain document. Loading never fails: a payload that cannot
//! be decompressed, is no UTF-8 text or no JSON document leaves the platform
//! without a snapshot, and so without entries.

use crate::extract::{extract, records_of};
use crate::record::{views, Candidate, CandidateEntry};
use crate::tree::{json_tree, parse_tree, MetadataTree};
use vstd::prelude::*;
use vstd::string::*;
use vstd::utf8::*;

verus! {

/// What zstd decompresses the bytes to, and `None` for bytes that it cannot
/// decompress.
pub uninterp spec fn zstd_content(compressed: Seq<u8>) -> Option<Seq<u8>>;

/// Decompresses with `zstd::stream::decode_all`. The result depends on the
/// bytes alone: the decompressed content, or `None` where `decode_all` reports
/// an error.
#[verifier::external_body]
fn zstd_decode(compressed: &[u8]) -> (r: Option<Vec<u8>>)
    ensures
        r is Some <==> zstd_content(compressed@) is Some,
        r matches Some(content) ==> zstd_content(compressed@) == Some(content@),
{
    match zstd::stream::decode_all(compressed) {
        Ok(content) => Some(content),
        Err(_) => None,
    }
}

/// Reads bytes as UTF-8 text with `String::from_utf8`: the text that the bytes
/// encode, or `None` where they are no valid UTF-8.
#[verifier::external_body]
fn utf8_text(bytes: Vec<u8>) -> (r: Option<String>)
    ensures
        r is Some <==> valid_utf8(bytes@),
        r matches Some(text) ==> text@ == decode_utf8(bytes@),
{
    match String::from_utf8(bytes) {
        Ok(text) => Some(text),
        Err(_) => None,
    }
}

/// Why a compressed payload gave no text.
#[derive(Debug, PartialEq, Eq, Clone, Copy)]
pub enum DecodeError {
    /// The payload cannot be decompressed.
    Compression,
    /// The decompressed content is no valid UTF-8.
    Encoding,
}

/// The text that a compressed payload holds.
pub open spec fn text_of_compressed(compressed: Seq<u8>) -> Result<Seq<char>, DecodeError> {
    match zstd_content(compressed) {
        None => Err(DecodeError::Compression),
        Some(content) => if valid_utf8(content) {
            Ok(decode_utf8(content))
        } else {
            Err(DecodeError::Encoding)
        },
    }
}

/// Decompresses a zstd frame and reads its content as UTF-8 text.
pub fn decompress_zst_to_string(compressed_data: &[u8]) -> (r: Result<String, DecodeError>)
    ensures
        match r {
            Ok(text) => text_of_compressed(compressed_data@) == Ok::<Seq<char>, DecodeError>(text@),
            Err(e) => text_of_compressed(compressed_data@) == Err::<Seq<char>, DecodeError>(e),
        },
{
    match zstd_decode(compressed_data) {
        None => Err(DecodeError::Compression),
        Some(content) => match utf8_text(content) {
            Some(text) => Ok(text),
            None => Err(DecodeError::Encoding),
        },
    }
}

/// The address of the snapshot of `arch`: the compressed document where
/// `use_zst` is set, the plain one where it is not.
pub open spec fn spec_repodata_url(arch: Seq<char>, use_zst: bool) -> Seq<char> {
    let plain = "https://conda.anaconda.org/conda-forge/"@ + arch + "/repodata.json"@;
    if use_zst {
        plain + ".zst"@
    } else {
        plain
    }
}

/// The address of the snapshot of `arch`: the compressed document where
/// `use_zst` is set, the plain one where it is not.
pub fn repodata_url(arch: &str, use_zst: bool) -> (url: String)
    ensures
        url@ == spec_repodata_url(arch@, use_zst),
{
    let plain = "https://conda.anaconda.org/conda-forge/".to_owned().concat(arch).concat(
        "/repodata.json",
    );
    if use_zst {
        plain.concat(".zst")
    } else {
        plain
    }
}

/// What loading the snapshot of a platform came to.
#[derive(Debug, PartialEq, Eq)]
pub enum Snapshot {
    /// The metadata tree of the snapshot.
    Loaded(MetadataTree),
    /// No snapshot could be had for the platform.
    Unavailable,
}

/// The snapshot that a JSON text stands for.
pub open spec fn snapshot_of_text(text: Seq<char>) -> Snapshot {
    match json_tree(text) {
        Some(tree) => Snapshot::Loaded(tree),
        None => Snapshot::Unavailable,
    }
}

/// The snapshot that a compressed payload stands for.
pub open spec fn snapshot_of_compressed(compressed: Seq<u8>) -> Snapshot {
    match text_of_compressed(compressed) {
        Ok(text) => snapshot_of_text(text),
        Err(_) => Snapshot::Unavailable,
    }
}

impl Snapshot {
    /// The snapshot that a parsed document stands for: loaded with the tree of
    /// the document, unavailable where there is none.
    pub fn of_parsed(parsed: Option<MetadataTree>) -> (snapshot: Snapshot)
        ensures
            match parsed {
                Some(tree) => snapshot == Snapshot::Loaded(tree),
                None => snapshot == Snapshot::Unavailable,
            },
    {
        match parsed {
            Some(tree) => Snapshot::Loaded(tree),
            None => Snapshot::Unavailable,
        }
    }

    /// Reads a snapshot from the text of its document.
    pub fn from_text(text: &str) -> (snapshot: Snapshot)
        ensures
            snapshot == snapshot_of_text(text@),
    {
        Snapshot::of_parsed(parse_tree(text))
    }

    /// Reads a snapshot from its compressed document.
    pub fn from_compressed(compressed: &[u8]) -> (snapshot: Snapshot)
        ensures
            snapshot == snapshot_of_compressed(compressed@),
    {
        match decompress_zst_to_string(compressed) {
            Ok(text) => Snapshot::from_text(text.as_str()),
            Err(_) => Snapshot::Unavailable,
        }
    }

    /// The candidate entries of the snapshot: those of its tree, and none
    /// where no snapshot could be had.
    pub open spec fn spec_records(self) -> Seq<Candidate> {
        match self {
            Snapshot::Loaded(tree) => records_of(tree),
            Snapshot::Unavailable => Seq::empty(),
        }
    }

    /// The candidate entries of the snapshot, in the order in which it lists
    /// them; none where no snapshot could be had.
    pub fn records(&self) -> (entries: Vec<CandidateEntry>)
        ensures
            views(entries@) == self.spec_records(),
    {
        match self {
            Snapshot::Loaded(tree) => extract(tree),
            Snapshot::Unavailable => {
                let entries: Vec<CandidateEntry> = Vec::new();
                proof {
                    assert(views(entries@) =~= Seq::<Candidate>::empty());
                }
                entries
            },
        }
    }
}

} // verus!
