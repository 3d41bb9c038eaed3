use std::io::Read;
use std::io::Write;

use sha1::Digest;
use vstd::prelude::*;

use crate::error::{GitError, GitResult};
use crate::hex::{bytes_of_hex, from_hex, hex_of, is_digest_hex, to_hex, DIGEST_LEN};
use crate::object::{raw_of, slice_tail, Object, ObjectType};

verus! {

/// The SHA-1 digest of a byte string.
pub uninterp spec fn sha1_of(data: Seq<u8>) -> Seq<u8>;

/// The zlib stream that the store's compressor makes of a byte string.
pub uninterp spec fn zlib_of(data: Seq<u8>) -> Seq<u8>;

/// What the store's decompressor recovers from a byte string: the contents of
/// the zlib stream it starts with, if that stream is whole and sound.
pub uninterp spec fn inflate_of(data: Seq<u8>) -> Option<Seq<u8>>;

/// Relies on `sha1::Sha1::digest` (via the `Digest` trait): the 20-byte SHA-1
/// digest of the input, which depends on the input alone.
#[verifier::external_body]
pub(crate) fn sha1_digest(data: &[u8]) -> (r: Vec<u8>)
    ensures
        r@ == sha1_of(data@),
        r@.len() == DIGEST_LEN,
{
    sha1::Sha1::digest(data).to_vec()
}

/// Relies on `flate2::write::ZlibEncoder` at the default level: `finish` hands
/// back the zlib stream of all bytes written. Writing into a `Vec` cannot
/// fail, so the stream always comes.
#[verifier::external_body]
fn zlib_compress(data: &[u8]) -> (r: Option<Vec<u8>>)
    ensures
        r is Some,
        r matches Some(v) ==> v@ == zlib_of(data@),
{
    let mut encoder = flate2::write::ZlibEncoder::new(Vec::new(), flate2::Compression::default());
    match encoder.write_all(data) {
        Ok(()) => encoder.finish().ok(),
        Err(_) => None,
    }
}

/// Relies on `flate2::read::ZlibDecoder` read to the end: it recovers exactly
/// what the encoder was given, stops at the end of the first stream, and
/// reports a stream cut short (no `StreamEnd` before the input runs out) or a
/// corrupt one as an error.
#[verifier::external_body]
fn zlib_decompress(data: &[u8]) -> (r: Option<Vec<u8>>)
    ensures
        match r {
            Some(v) => inflate_of(data@) == Some(v@),
            None => inflate_of(data@) is None,
        },
        r matches Some(v) ==> forall|x: Seq<u8>| #[trigger] zlib_of(x) == data@ ==> v@ == x,
        r is None ==> forall|x: Seq<u8>| #[trigger] zlib_of(x) != data@,
        r is Some ==> forall|x: Seq<u8>| #[trigger] zlib_of(x).len() > 0 ==> zlib_of(x).drop_last()
            != data@,
{
    let mut out = Vec::new();
    match flate2::read::ZlibDecoder::new(data).read_to_end(&mut out) {
        Ok(_) => Some(out),
        Err(_) => None,
    }
}

/// The digest of an object: SHA-1 over its header and payload.
pub open spec fn object_id(k: ObjectType, d: Seq<u8>) -> Seq<u8> {
    sha1_of(raw_of(k, d))
}

/// The directory of an object's file: the first two hex digits of its digest.
pub open spec fn dir_of(id: Seq<u8>) -> Seq<u8> {
    hex_of(id).subrange(0, 2)
}

/// The name of an object's file within its directory: the other 38 digits.
pub open spec fn file_of(id: Seq<u8>) -> Seq<u8> {
    hex_of(id).subrange(2, 2 * DIGEST_LEN as int)
}

/// Everything needed to persist one object: its digest, where its file goes,
/// and what the file holds.
pub struct StoreEntry {
    /// The 20-byte digest.
    pub digest: Vec<u8>,
    /// The digest as 40 lowercase hex digits.
    pub hex: Vec<u8>,
    /// The directory name: the first two hex digits.
    pub dir: Vec<u8>,
    /// The file name: the remaining 38 hex digits.
    pub file: Vec<u8>,
    /// The compressed header and payload.
    pub contents: Vec<u8>,
}

/// A copy of `s[start..end]`.
pub fn slice_range(s: &[u8], start: usize, end: usize) -> (r: Vec<u8>)
    requires
        start <= end <= s@.len(),
    ensures
        r@ == s@.subrange(start as int, end as int),
{
    let mut out: Vec<u8> = Vec::new();
    let mut i: usize = start;
    while i < end
        invariant
            start <= i <= end <= s@.len(),
            out@ == s@.subrange(start as int, i as int),
        decreases end - i,
    {
        out.push(s[i]);
        assert(out@ =~= s@.subrange(start as int, i as int + 1));
        i = i + 1;
    }
    out
}

/// The digest of an object.
pub fn hash_obj(obj: &Object) -> (r: Vec<u8>)
    requires
        obj.data@.len() <= u64::MAX,
    ensures
        r@ == object_id(obj.kind, obj.data@),
        r@.len() == DIGEST_LEN,
{
    let raw = obj.raw_bytes();
    sha1_digest(raw.as_slice())
}

/// Where an object with this digest is kept: its directory and file names.
pub fn location(digest: &[u8]) -> (r: (Vec<u8>, Vec<u8>))
    requires
        digest@.len() == DIGEST_LEN,
    ensures
        r.0@ == dir_of(digest@),
        r.1@ == file_of(digest@),
{
    let hex = to_hex(digest);
    (slice_range(hex.as_slice(), 0, 2), slice_tail(hex.as_slice(), 2))
}

/// Prepares an object for the store: computes its digest, the place of its
/// file, and the compressed header and payload that the file holds. The same
/// object always gives the same entry, and preparing never fails.
pub fn prepare_write(obj: &Object) -> (r: GitResult<StoreEntry>)
    requires
        obj.data@.len() <= u64::MAX,
    ensures
        r matches Ok(e) ==> {
            &&& e.digest@ == object_id(obj.kind, obj.data@)
            &&& e.hex@ == hex_of(e.digest@)
            &&& e.dir@ == dir_of(e.digest@)
            &&& e.file@ == file_of(e.digest@)
            &&& e.contents@ == zlib_of(raw_of(obj.kind, obj.data@))
        },
        r is Ok,
{
    let raw = obj.raw_bytes();
    let digest = sha1_digest(raw.as_slice());
    let hex = to_hex(digest.as_slice());
    let (dir, file) = location(digest.as_slice());
    match zlib_compress(raw.as_slice()) {
        Some(contents) => Ok(StoreEntry { digest, hex, dir, file, contents }),
        None => Err(GitError::IoError),
    }
}

/// The directory and file names of the object that a 40-digit hex digest
/// names; `NotFound` for text that names no object.
pub fn locate_hex(hex: &[u8]) -> (r: GitResult<(Vec<u8>, Vec<u8>)>)
    ensures
        r is Ok <==> is_digest_hex(hex@),
        r matches Ok(p) ==> p.0@ == dir_of(bytes_of_hex(hex@)) && p.1@ == file_of(
            bytes_of_hex(hex@),
        ),
        r is Err ==> r == Err::<(Vec<u8>, Vec<u8>), GitError>(GitError::NotFound),
{
    if hex.len() != 2 * DIGEST_LEN {
        return Err(GitError::NotFound);
    }
    match from_hex(hex) {
        Some(digest) => Ok(location(digest.as_slice())),
        None => Err(GitError::NotFound),
    }
}

/// Recovers an object from the contents of its file: decompresses, then
/// splits header from payload and checks the declared length. The contents
/// that `prepare_write` made for an object always give that object back; a
/// stream that does not decompress, or bytes that are not a header and a
/// payload of the declared length, give `FormatError`; so do those contents
/// cut short by their last byte.
pub fn read_stored(contents: &[u8]) -> (r: GitResult<Object>)
    ensures
        r matches Ok(o) ==> inflate_of(contents@) == Some(raw_of(o.kind, o.data@)),
        inflate_of(contents@) is None ==> r is Err,
        forall|k: ObjectType, d: Seq<u8>|
            #[trigger] inflate_of(contents@) == Some(raw_of(k, d)) ==> (r matches Ok(o)
                && o.kind == k && o.data@ == d),
        forall|k: ObjectType, d: Seq<u8>|
            #[trigger] zlib_of(raw_of(k, d)) == contents@ ==> (r matches Ok(o) && o.kind == k
                && o.data@ == d),
        forall|x: Seq<u8>|
            #[trigger] zlib_of(x).len() > 0 && zlib_of(x).drop_last() == contents@ ==> r
                == Err::<Object, GitError>(GitError::FormatError),
        r is Err ==> r == Err::<Object, GitError>(GitError::FormatError),
{
    match zlib_decompress(contents) {
        Some(raw) => Object::from_raw(raw.as_slice()),
        None => Err(GitError::FormatError),
    }
}

/// Two objects share the bytes that are hashed only when they are the same
/// object, and the same object always has the same digest: distinct objects
/// reach the hash function with distinct inputs.
pub proof fn lemma_digest_input_injective(k1: ObjectType, d1: Seq<u8>, k2: ObjectType, d2: Seq<u8>)
    ensures
        raw_of(k1, d1) == raw_of(k2, d2) <==> (k1 == k2 && d1 == d2),
        (k1 == k2 && d1 == d2) ==> object_id(k1, d1) == object_id(k2, d2),
{
    if raw_of(k1, d1) == raw_of(k2, d2) {
        crate::object::lemma_raw_injective(k1, d1, k2, d2);
    }
}

/// Writing the same object twice computes the same digest, names the same
/// file and gives it the same contents, so the store keeps one file for it.
pub proof fn lemma_write_idempotent(k1: ObjectType, d1: Seq<u8>, k2: ObjectType, d2: Seq<u8>)
    requires
        k1 == k2,
        d1 == d2,
    ensures
        object_id(k1, d1) == object_id(k2, d2),
        dir_of(object_id(k1, d1)) == dir_of(object_id(k2, d2)),
        file_of(object_id(k1, d1)) == file_of(object_id(k2, d2)),
        zlib_of(raw_of(k1, d1)) == zlib_of(raw_of(k2, d2)),
{
}

/// A file's place names its digest: two digests share a directory and a file
/// name exactly when they are equal.
pub proof fn lemma_location_unique(id1: Seq<u8>, id2: Seq<u8>)
    requires
        id1.len() == DIGEST_LEN,
        id2.len() == DIGEST_LEN,
    ensures
        (dir_of(id1) == dir_of(id2) && file_of(id1) == file_of(id2)) <==> id1 == id2,
{
    crate::hex::lemma_hex_round_trip(id1);
    crate::hex::lemma_hex_round_trip(id2);
    crate::hex::lemma_hex_of_index(id1, 0);
    crate::hex::lemma_hex_of_index(id2, 0);
    if dir_of(id1) == dir_of(id2) && file_of(id1) == file_of(id2) {
        assert(hex_of(id1) =~= dir_of(id1) + file_of(id1));
        assert(hex_of(id2) =~= dir_of(id2) + file_of(id2));
    }
}

} // verus!
