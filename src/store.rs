//! Object identity, stored bytes and store paths.

use vstd::prelude::*;
use vstd::string::{StrSliceExecFns, StringExecFns};

use sha1::Digest;
use std::io::Write;

use crate::digits::decimal_bytes;
use crate::error::GitError;
use crate::text::{hex_text, lemma_hex_text_len, to_hex};
use crate::object::{
    blob_word, object_content, record_bytes, tree_word, type_word, Object, ObjectView,
};

verus! {

/// The SHA-1 digest of a byte sequence.
pub uninterp spec fn sha1_of(b: Seq<u8>) -> Seq<u8>;

/// What the compressor gives for a byte sequence at the default level: the zlib
/// stream, or `None` where it reports an error.
pub uninterp spec fn zlib_of(b: Seq<u8>) -> Option<Seq<u8>>;

/// Relies on `sha1::Sha1::digest`: the twenty-byte SHA-1 digest of the input.
#[verifier::external_body]
fn sha1_digest(b: &[u8]) -> (r: Vec<u8>)
    ensures
        r@ == sha1_of(b@),
        r@.len() == 20,
{
    sha1::Sha1::digest(b).to_vec()
}

/// Relies on `flate2::write::ZlibEncoder` at `Compression::default()`, writing
/// into a `Vec`: the zlib stream of the input, or `None` when the encoder reports
/// an error; the outcome depends on the input alone.
#[verifier::external_body]
fn zlib_compress(b: &[u8]) -> (r: Option<Vec<u8>>)
    ensures
        match zlib_of(b@) {
            Some(z) => r is Some && r->Some_0@ == z,
            None => r is None,
        },
{
    let mut encoder = flate2::write::ZlibEncoder::new(Vec::new(), flate2::Compression::default());
    match encoder.write_all(b) {
        Ok(()) => encoder.finish().ok(),
        Err(_) => None,
    }
}

/// The identity of an object: the hexadecimal SHA-1 of its uncompressed record.
pub open spec fn object_id(o: ObjectView) -> Seq<char> {
    hex_text(sha1_of(record_bytes(o)))
}

/// The default directory that holds the objects.
pub open spec fn objects_dir() -> Seq<char> {
    seq!['.', 'g', 'i', 't', '/', 'o', 'b', 'j', 'e', 'c', 't', 's']
}

/// Where the object with id `h` is stored under `root`: its first two
/// characters name a directory, the rest the file in it.
pub open spec fn store_path(root: Seq<char>, h: Seq<char>) -> Seq<char> {
    root + seq!['/'] + h.subrange(0, 2) + seq!['/'] + h.subrange(2, h.len() as int)
}

/// Where the object with id `h` is stored under the default directory.
pub open spec fn object_path(h: Seq<char>) -> Seq<char> {
    store_path(objects_dir(), h)
}

/// ASCII bytes of an object's type name.
fn type_bytes(object: &Object) -> (r: Vec<u8>)
    ensures
        r@ == type_word(object@),
{
    match object {
        Object::Blob(_) => {
            let w: Vec<u8> = vec![0x62u8, 0x6cu8, 0x6fu8, 0x62u8];
            assert(w@ =~= blob_word());
            w
        },
        Object::Tree(_) => {
            let w: Vec<u8> = vec![0x74u8, 0x72u8, 0x65u8, 0x65u8];
            assert(w@ =~= tree_word());
            w
        },
    }
}

/// The object's uncompressed record, `<type> <size>`, a NUL, then the content.
pub fn record_of(object: &Object) -> (r: Vec<u8>)
    ensures
        r@ == record_bytes(object@),
{
    let mut data = type_bytes(object);
    data.push(0x20);
    let content = object.get_content();
    let mut size = decimal_bytes(content.len() as u64);
    data.append(&mut size);
    data.push(0);
    data.extend_from_slice(content.as_slice());
    assert(data@ =~= record_bytes(object@));
    data
}

/// The object's id and its uncompressed record; the id is the hexadecimal
/// SHA-1 of exactly those record bytes.
pub fn hash_object_data(object: &Object) -> (r: (String, Vec<u8>))
    ensures
        r.1@ == record_bytes(object@),
        r.0@ == object_id(object@),
        r.0@.len() == 40,
{
    let data = record_of(object);
    let digest = sha1_digest(data.as_slice());
    proof {
        lemma_hex_text_len(digest@);
    }
    let hash = to_hex(digest.as_slice());
    (hash, data)
}

/// What storing an object amounts to: its id and the compressed record, or
/// `Io` where the compressor fails on that record.
pub open spec fn stored_form(o: ObjectView) -> Result<(Seq<char>, Seq<u8>), GitError> {
    match zlib_of(record_bytes(o)) {
        Some(z) => Ok((object_id(o), z)),
        None => Err(GitError::Io),
    }
}

/// The value of a `serialize` result.
pub open spec fn serialized_view(r: Result<(String, Vec<u8>), GitError>) -> Result<(Seq<char>, Seq<u8>), GitError> {
    match r {
        Ok((h, z)) => Ok((h@, z@)),
        Err(e) => Err(e),
    }
}

/// The object's id and the compressed bytes to store for it, both made from one
/// record; fails with `Io` exactly when the compressor fails on that record.
pub fn serialize(object: &Object) -> (r: Result<(String, Vec<u8>), GitError>)
    ensures
        serialized_view(r) == stored_form(object@),
        r matches Ok((h, _)) ==> h@.len() == 40,
{
    let (hash, data) = hash_object_data(object);
    match zlib_compress(data.as_slice()) {
        Some(z) => Ok((hash, z)),
        None => Err(GitError::Io),
    }
}

/// The path of the object with id `hash` in the store rooted at `root`.
pub fn path_in_store(root: &str, hash: &str) -> (r: String)
    requires
        hash@.len() >= 2,
    ensures
        r@ == store_path(root@, hash@),
{
    let n = hash.unicode_len();
    let mut p = root.to_owned();
    proof {
        reveal_strlit("/");
    }
    p.append("/");
    p.append(hash.substring_char(0, 2));
    p.append("/");
    p.append(hash.substring_char(2, n));
    assert(p@ =~= store_path(root@, hash@));
    p
}

/// The store path of the object with id `hash` under `.git/objects`.
pub fn get_file_path(hash: &str) -> (r: String)
    requires
        hash@.len() >= 2,
    ensures
        r@ == object_path(hash@),
{
    proof {
        reveal_strlit(".git/objects");
    }
    let root = ".git/objects";
    assert(root@ =~= objects_dir());
    path_in_store(root, hash)
}

/// Objects with the same type and content have the same record, the same id,
/// the same store path and the same storage outcome: where storing one succeeds,
/// storing the other succeeds with the same id and bytes, so storing twice
/// leaves the store as storing once does.
pub proof fn lemma_store_idempotent(a: ObjectView, b: ObjectView)
    requires
        type_word(a) == type_word(b),
        object_content(a) == object_content(b),
    ensures
        record_bytes(a) == record_bytes(b),
        object_id(a) == object_id(b),
        object_path(object_id(a)) == object_path(object_id(b)),
        stored_form(a) == stored_form(b),
        stored_form(a) matches Ok((h, z)) ==> stored_form(b) == Ok::<(Seq<char>, Seq<u8>), GitError>(
            (h, z),
        ) && h == object_id(b) && store_path(objects_dir(), h) == object_path(object_id(b)),
{
}

} // verus!
