//! Cache identity: the content-addressed key of a per-file entry, the
//! schema it is stamped with, and which files in a namespace are entries.

use crate::text::{concat, dec, fmt_u64};
use crate::ordered::text_views;
use sha2::Digest;
use vstd::prelude::*;
use vstd::utf8::encode_utf8;

verus! {

/// Bumped whenever the stored shapes change, so old entries are never read.
pub const SCHEMA_VERSION: u32 = 15;

/// The namespace holding per-file entries and repo-wide indexes.
pub const NAMESPACE_FILE: &'static str = "file";

/// Entry count and total size of a cache namespace.
#[derive(Debug, Clone, Copy)]
pub struct CacheStats {
    pub entry_count: usize,
    pub total_bytes: u64,
}

/// The SHA-256 digest of a byte string.
pub uninterp spec fn sha256_of(data: Seq<u8>) -> Seq<u8>;

/// `sha2::Sha256::digest`: the digest of `data`, which is 32 bytes long.
#[verifier::external_body]
pub(crate) fn sha256(data: &[u8]) -> (r: Vec<u8>)
    ensures
        r@ == sha256_of(data@),
        r@.len() == 32,
{
    sha2::Sha256::digest(data).to_vec()
}

pub open spec fn hex_digits() -> Seq<char> {
    seq!['0', '1', '2', '3', '4', '5', '6', '7', '8', '9', 'a', 'b', 'c', 'd', 'e', 'f']
}

/// Each byte as two lowercase hex digits, high nibble first.
pub open spec fn hex_text(b: Seq<u8>) -> Seq<char>
    decreases b.len(),
{
    if b.len() == 0 {
        Seq::empty()
    } else {
        hex_text(b.drop_last()) + seq![hex_digits()[b.last() as int / 16], hex_digits()[b.last() as int % 16]]
    }
}

/// Hex text has two digits per byte.
pub proof fn lemma_hex_text_len(b: Seq<u8>)
    ensures
        hex_text(b).len() == 2 * b.len(),
    decreases b.len(),
{
    if b.len() > 0 {
        lemma_hex_text_len(b.drop_last());
    }
}

/// `hex::encode`: `data` as lowercase hex, two digits per byte.
#[verifier::external_body]
pub(crate) fn hex_encode(data: &[u8]) -> (r: String)
    ensures
        r@ == hex_text(data@),
{
    hex::encode(data)
}

/// The text stamped ahead of every file's contents: schema and backend.
pub open spec fn key_stamp() -> Seq<char> {
    "v"@ + dec(SCHEMA_VERSION as nat) + "|ccn:"@ + "ast"@ + "\0"@
}

/// The bytes a file's cache key hashes: the stamp, the contents, a NUL,
/// and the repo-relative path.
pub open spec fn key_bytes(data: Seq<u8>, rel: Seq<char>) -> Seq<u8> {
    encode_utf8(key_stamp()) + data + seq![0u8] + encode_utf8(rel)
}

fn append_bytes(out: &mut Vec<u8>, b: &[u8])
    ensures
        final(out)@ == old(out)@ + b@,
{
    let mut i: usize = 0;
    while i < b.len()
        invariant
            i <= b.len(),
            out@ == old(out)@ + b@.take(i as int),
        decreases b.len() - i,
    {
        out.push(b[i]);
        assert(out@ =~= old(out)@ + b@.take(i + 1));
        i += 1;
    }
    assert(b@.take(i as int) =~= b@);
}

/// The cache key of a file with contents `data` at repo-relative `rel`.
pub fn file_hash_from_bytes(data: &[u8], rel: &str) -> (r: String)
    ensures
        r@ == hex_text(sha256_of(key_bytes(data@, rel@))),
        r@.len() == 64,
{
    let version = fmt_u64(SCHEMA_VERSION as u64);
    let a = concat("v", version.as_str());
    let b = concat(a.as_str(), "|ccn:");
    let c = concat(b.as_str(), crate::active_ccn_backend());
    let stamp = concat(c.as_str(), "\0");
    let mut bytes: Vec<u8> = Vec::new();
    append_bytes(&mut bytes, stamp.as_str().as_bytes());
    append_bytes(&mut bytes, data);
    bytes.push(0u8);
    append_bytes(&mut bytes, rel.as_bytes());
    assert(bytes@ =~= key_bytes(data@, rel@));
    let digest = sha256(bytes.as_slice());
    proof {
        lemma_hex_text_len(digest@);
    }
    hex_encode(digest.as_slice())
}

/// Each path's UTF-8 bytes followed by a NUL, in order.
pub open spec fn nul_terminated(paths: Seq<Seq<char>>) -> Seq<u8>
    decreases paths.len(),
{
    if paths.len() == 0 {
        Seq::empty()
    } else {
        nul_terminated(paths.drop_last()) + encode_utf8(paths.last()) + seq![0u8]
    }
}

/// The fingerprint of a file table: the hex SHA-256 of its paths, each
/// followed by a NUL, in order.
pub fn table_hash(paths: &Vec<String>) -> (r: String)
    ensures
        r@ == hex_text(sha256_of(nul_terminated(text_views(paths@)))),
        r@.len() == 64,
{
    let ghost pv = text_views(paths@);
    let mut bytes: Vec<u8> = Vec::new();
    let mut i: usize = 0;
    while i < paths.len()
        invariant
            i <= paths@.len(),
            pv == text_views(paths@),
            bytes@ == nul_terminated(pv.take(i as int)),
        decreases paths@.len() - i,
    {
        assert(pv.take(i + 1).drop_last() =~= pv.take(i as int));
        assert(pv.take(i + 1).last() == paths@[i as int]@);
        append_bytes(&mut bytes, paths[i].as_str().as_bytes());
        bytes.push(0u8);
        i += 1;
    }
    assert(pv.take(i as int) =~= pv);
    let digest = sha256(bytes.as_slice());
    proof {
        lemma_hex_text_len(digest@);
    }
    hex_encode(digest.as_slice())
}

/// Every stored entry is a `.json` file; temporaries and locks are not.
pub fn is_cache_entry(path: &str) -> (r: bool)
    ensures
        r == (crate::paths::extension_of(path@) == Some("json"@)),
{
    match crate::paths::extension(path) {
        Some(e) => crate::text::str_eq(e.as_str(), "json"),
        None => false,
    }
}

} // verus!
