//! Objects and their records: `<type> <size>`, a NUL, the content.

use vstd::prelude::*;
use vstd::utf8::{decode_utf8, valid_utf8};

use std::io::Read;

use crate::blob::Blob;
use crate::digits::{all_digits, decimal_digits, digits_spell, digits_value, lemma_decimal_digits};
use crate::error::GitError;
use crate::tree::{
    entry_encodable, tree_text, first_of, is_first, lemma_first_of, lemma_tree_round_trip, scan_to, tree_bytes,
    tree_entries, Tree, TreeEntryView,
};

verus! {

/// A stored object of one of the kinds this store handles.
pub enum Object {
    Blob(Blob),
    Tree(Tree),
}

/// The mathematical value of an object.
pub enum ObjectView {
    Blob(Seq<u8>),
    Tree(Seq<TreeEntryView>),
}

impl View for Object {
    type V = ObjectView;

    open spec fn view(&self) -> ObjectView {
        match self {
            Object::Blob(b) => ObjectView::Blob(b@),
            Object::Tree(t) => ObjectView::Tree(t@),
        }
    }
}

/// `blob` in ASCII.
pub open spec fn blob_word() -> Seq<u8> {
    seq![0x62u8, 0x6cu8, 0x6fu8, 0x62u8]
}

/// `tree` in ASCII.
pub open spec fn tree_word() -> Seq<u8> {
    seq![0x74u8, 0x72u8, 0x65u8, 0x65u8]
}

/// `commit` in ASCII.
pub open spec fn commit_word() -> Seq<u8> {
    seq![0x63u8, 0x6fu8, 0x6du8, 0x6du8, 0x69u8, 0x74u8]
}

/// `tag` in ASCII.
pub open spec fn tag_word() -> Seq<u8> {
    seq![0x74u8, 0x61u8, 0x67u8]
}

/// The type name that an object's header carries.
pub open spec fn type_word(o: ObjectView) -> Seq<u8> {
    match o {
        ObjectView::Blob(_) => blob_word(),
        ObjectView::Tree(_) => tree_word(),
    }
}

/// The bytes an object holds.
pub open spec fn object_content(o: ObjectView) -> Seq<u8> {
    match o {
        ObjectView::Blob(c) => c,
        ObjectView::Tree(es) => tree_bytes(es),
    }
}

/// The uncompressed record of an object: `<type> <size>`, a NUL, then the content.
pub open spec fn record_bytes(o: ObjectView) -> Seq<u8> {
    type_word(o) + seq![0x20u8] + decimal_digits(object_content(o).len()) + seq![0u8] + object_content(o)
}

/// What an uncompressed record decodes to. The header's size must be decimal
/// digits equal to the content's length.
pub open spec fn record_parse(d: Seq<u8>) -> Result<ObjectView, GitError> {
    if !(exists|k: int| is_first(d, 0, k)) {
        Err(GitError::Decode)
    } else {
        let nul = first_of(d, 0);
        let header = d.subrange(0, nul);
        let content = d.subrange(nul + 1, d.len() as int);
        if !(exists|k: int| is_first(header, 0x20, k)) {
            Err(GitError::Decode)
        } else {
            let sp = first_of(header, 0x20);
            let ty = header.subrange(0, sp);
            let size = header.subrange(sp + 1, header.len() as int);
            if !(size.len() > 0 && all_digits(size) && digits_value(size) == content.len()) {
                Err(GitError::Decode)
            } else if ty == blob_word() {
                Ok(ObjectView::Blob(content))
            } else if ty == tree_word() {
                match tree_entries(content) {
                    Ok(es) => Ok(ObjectView::Tree(es)),
                    Err(e) => Err(e),
                }
            } else if ty == commit_word() || ty == tag_word() {
                Err(GitError::NotImplemented)
            } else {
                Err(GitError::Decode)
            }
        }
    }
}

/// The value of a decoding result.
pub open spec fn result_view(r: Result<Object, GitError>) -> Result<ObjectView, GitError> {
    match r {
        Ok(o) => Ok(o@),
        Err(e) => Err(e),
    }
}

/// Whether `s[0..n]` is exactly `w`.
fn prefix_is(s: &[u8], n: usize, w: &Vec<u8>) -> (r: bool)
    requires
        n <= s@.len(),
    ensures
        r == (s@.subrange(0, n as int) == w@),
{
    if n != w.len() {
        return false;
    }
    let mut i: usize = 0;
    while i < n
        invariant
            i <= n <= s@.len(),
            n == w@.len(),
            forall|j: int| 0 <= j < i ==> s@[j] == w@[j],
        decreases n - i,
    {
        if s[i] != w[i] {
            assert(s@.subrange(0, n as int)[i as int] != w@[i as int]);
            return false;
        }
        i = i + 1;
    }
    assert(s@.subrange(0, n as int) =~= w@);
    true
}

/// Decodes an uncompressed object record: header `<type> <size>`, a NUL, then
/// the content, which is read according to the type.
pub fn parse_record(data: &[u8]) -> (r: Result<Object, GitError>)
    ensures
        result_view(r) == record_parse(data@),
{
    let len = data.len();
    let nul = scan_to(data, 0, 0);
    if nul == len {
        proof {
            assert forall|k: int| !is_first(data@, 0, k) by {}
        }
        return Err(GitError::Decode);
    }
    proof {
        assert(is_first(data@, 0, nul as int));
        lemma_first_of(data@, 0, nul as int);
    }
    let header = &data[0..nul];
    let sp = scan_to(header, 0, 0x20);
    if sp == nul {
        proof {
            assert forall|k: int| !is_first(header@, 0x20, k) by {}
        }
        return Err(GitError::Decode);
    }
    proof {
        assert(is_first(header@, 0x20, sp as int));
        lemma_first_of(header@, 0x20, sp as int);
    }
    if !digits_spell(header, sp + 1, nul, len - nul - 1) {
        return Err(GitError::Decode);
    }
    let content = vstd::slice::slice_to_vec(&data[nul + 1..len]);
    let blob_w: Vec<u8> = vec![0x62u8, 0x6cu8, 0x6fu8, 0x62u8];
    let tree_w: Vec<u8> = vec![0x74u8, 0x72u8, 0x65u8, 0x65u8];
    let commit_w: Vec<u8> = vec![0x63u8, 0x6fu8, 0x6du8, 0x6du8, 0x69u8, 0x74u8];
    let tag_w: Vec<u8> = vec![0x74u8, 0x61u8, 0x67u8];
    assert(blob_w@ =~= blob_word());
    assert(tree_w@ =~= tree_word());
    assert(commit_w@ =~= commit_word());
    assert(tag_w@ =~= tag_word());
    if prefix_is(header, sp, &blob_w) {
        let b = Blob::from_content(content);
        match b {
            Ok(b) => Ok(Object::Blob(b)),
            Err(e) => Err(e),
        }
    } else if prefix_is(header, sp, &tree_w) {
        match Tree::from_content(content) {
            Ok(t) => Ok(Object::Tree(t)),
            Err(e) => Err(e),
        }
    } else if prefix_is(header, sp, &commit_w) || prefix_is(header, sp, &tag_w) {
        Err(GitError::NotImplemented)
    } else {
        Err(GitError::Decode)
    }
}

/// What zlib decompression gives for a byte sequence: `None` for a corrupt stream.
pub uninterp spec fn zlib_inflate(b: Seq<u8>) -> Option<Seq<u8>>;

/// Relies on `flate2::read::ZlibDecoder` read to the end: the decompressed bytes,
/// or `None` when the stream is corrupt; the outcome depends on the input alone.
#[verifier::external_body]
fn decompress(data: &[u8]) -> (r: Option<Vec<u8>>)
    ensures
        match zlib_inflate(data@) {
            Some(d) => r is Some && r->Some_0@ == d,
            None => r is None,
        },
{
    let mut decoder = flate2::read::ZlibDecoder::new(data);
    let mut out = Vec::new();
    match decoder.read_to_end(&mut out) {
        Ok(_) => Some(out),
        Err(_) => None,
    }
}

/// Decodes a stored (compressed) object record.
pub fn parse_object(data: &[u8]) -> (r: Result<Object, GitError>)
    ensures
        match zlib_inflate(data@) {
            Some(d) => result_view(r) == record_parse(d),
            None => r == Err::<Object, GitError>(GitError::Decode),
        },
{
    match decompress(data) {
        Some(d) => parse_record(d.as_slice()),
        None => Err(GitError::Decode),
    }
}

/// Whether an object can be written as a record and read back: every tree entry
/// has a twenty-byte id and a name with no NUL.
pub open spec fn object_encodable(o: ObjectView) -> bool {
    match o {
        ObjectView::Blob(_) => true,
        ObjectView::Tree(es) => forall|i: int| 0 <= i < es.len() ==> entry_encodable(#[trigger] es[i]),
    }
}

/// Building an object's record and decoding it gives the same object back; for a
/// blob, the same bytes.
pub proof fn lemma_record_round_trip(o: ObjectView)
    requires
        object_encodable(o),
    ensures
        record_parse(record_bytes(o)) == Ok::<ObjectView, GitError>(o),
{
    let c = object_content(o);
    let w = type_word(o);
    let dd = decimal_digits(c.len());
    let d = record_bytes(o);
    lemma_decimal_digits(c.len());
    let nul = (w.len() + 1 + dd.len()) as int;
    assert forall|m: int| 0 <= m < nul implies d[m] != 0 by {
        if m < w.len() {
            assert(d[m] == w[m]);
        } else if m > w.len() {
            assert(d[m] == dd[m - w.len() - 1]);
        }
    }
    assert(d[nul] == 0);
    assert(is_first(d, 0, nul));
    lemma_first_of(d, 0, nul);
    let header = d.subrange(0, nul);
    assert(header =~= w + seq![0x20u8] + dd);
    assert(d.subrange(nul + 1, d.len() as int) =~= c);
    assert forall|m: int| 0 <= m < w.len() implies header[m] != 0x20 by {
        assert(header[m] == w[m]);
    }
    assert(is_first(header, 0x20, w.len() as int));
    lemma_first_of(header, 0x20, w.len() as int);
    assert(header.subrange(0, w.len() as int) =~= w);
    assert(header.subrange(w.len() as int + 1, header.len() as int) =~= dd);
    match o {
        ObjectView::Blob(_) => {},
        ObjectView::Tree(es) => {
            assert(w != blob_word()) by {
                assert(w[0] != blob_word()[0]);
            }
            lemma_tree_round_trip(es);
        },
    }
}

impl Object {
    /// The object's content bytes.
    pub fn get_content(&self) -> (r: Vec<u8>)
        ensures
            r@ == object_content(self@),
    {
        match self {
            Object::Blob(b) => b.get_content(),
            Object::Tree(t) => t.get_content(),
        }
    }

    /// The object's type name.
    pub fn get_object_type(&self) -> (r: &'static str)
        ensures
            r@ == match self@ {
                ObjectView::Blob(_) => seq!['b', 'l', 'o', 'b'],
                ObjectView::Tree(_) => seq!['t', 'r', 'e', 'e'],
            },
    {
        match self {
            Object::Blob(b) => b.get_object_type(),
            Object::Tree(t) => t.get_object_type(),
        }
    }

    /// The object as text: a blob's bytes read as UTF-8 (`None` when they are
    /// not UTF-8), a tree's listing.
    pub fn render(&self) -> (r: Option<String>)
        ensures
            match self@ {
                ObjectView::Blob(c) => match r {
                    Some(t) => valid_utf8(c) && t@ == decode_utf8(c),
                    None => !valid_utf8(c),
                },
                ObjectView::Tree(es) => r is Some && r->Some_0@ == tree_text(es),
            },
    {
        match self {
            Object::Blob(b) => b.render(),
            Object::Tree(t) => Some(t.render()),
        }
    }

    /// The length of the object's content.
    pub fn get_object_size(&self) -> (r: usize)
        ensures
            r == object_content(self@).len(),
    {
        match self {
            Object::Blob(b) => b.get_object_size(),
            Object::Tree(t) => t.get_content().len(),
        }
    }
}

} // verus!
