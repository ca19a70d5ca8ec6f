//! Index file metadata: the SHA-256 checksum of the stored bytes, drawn from
//! the `sha2` crate, and whether a cached index is still current.

use sha2::Digest;
use vstd::prelude::*;
use crate::dto::EmbeddingMetadata;

verus! {

/// The SHA-256 digest of `bytes`, written as lower-case hexadecimal text.
pub uninterp spec fn sha256_hex_of(bytes: Seq<u8>) -> Seq<char>;

/// The SHA-256 digest of `bytes` in lower-case hexadecimal:
/// `sha2::Sha256` fed `bytes` by `update`, then `finalize`, written with
/// `{:x}`. The digest depends on the bytes alone; which text it is, is given
/// only by name.
#[verifier::external_body]
fn sha256_hex(bytes: &[u8]) -> (r: String)
    ensures
        r@ == sha256_hex_of(bytes@),
{
    let mut hasher = sha2::Sha256::new();
    hasher.update(bytes);
    format!("{:x}", hasher.finalize())
}

/// Mebibytes, rounded down.
pub const MEBIBYTE: usize = 1048576;

/// The metadata written beside a stored index: the checksum of its bytes,
/// the number of vectors and their dimension, the time of the write, and
/// its size in whole mebibytes.
pub fn index_metadata(bytes: &Vec<u8>, total_vectors: usize, dimensions: usize, last_modified: String) -> (r:
    EmbeddingMetadata)
    ensures
        r.checksum@ == sha256_hex_of(bytes@),
        r.total_vectors == total_vectors,
        r.dimensions == dimensions,
        r.last_modified == last_modified,
        r.file_size_mb == bytes@.len() / (MEBIBYTE as nat),
{
    EmbeddingMetadata {
        checksum: sha256_hex(bytes.as_slice()),
        total_vectors,
        dimensions,
        last_modified,
        file_size_mb: bytes.len() / MEBIBYTE,
    }
}

/// A cached index may be used exactly when its checksum is the one written
/// on disk.
pub fn cache_is_current(cached_checksum: &String, disk_checksum: &String) -> (b: bool)
    ensures
        b == (cached_checksum@ == disk_checksum@),
{
    *cached_checksum == *disk_checksum
}

} // verus!
