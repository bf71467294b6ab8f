//! Blobs: objects that hold opaque bytes.

use vstd::prelude::*;
use vstd::utf8::{decode_utf8, valid_utf8};

use crate::error::GitError;
use crate::store::object_path;
use crate::text::utf8_text;

verus! {

/// An object holding opaque bytes, such as a file's contents.
pub struct Blob {
    content: Vec<u8>,
}

impl View for Blob {
    type V = Seq<u8>;

    closed spec fn view(&self) -> Seq<u8> {
        self.content@
    }
}

impl Blob {
    /// A blob holding `content`; any bytes make a blob.
    pub fn from_content(content: Vec<u8>) -> (r: Result<Blob, GitError>)
        ensures
            r is Ok,
            r->Ok_0@ == content@,
    {
        Ok(Blob { content })
    }

    /// The blob's bytes.
    pub fn get_content(&self) -> (r: Vec<u8>)
        ensures
            r@ == self@,
    {
        self.content.clone()
    }

    /// The type name of blobs.
    pub fn get_object_type(&self) -> (r: &'static str)
        ensures
            r@ == seq!['b', 'l', 'o', 'b'],
    {
        proof {
            reveal_strlit("blob");
        }
        "blob"
    }

    /// The number of bytes the blob holds.
    pub fn get_object_size(&self) -> (r: usize)
        ensures
            r == self@.len(),
    {
        self.content.len()
    }

    /// The blob's bytes read as UTF-8 text; `None` when they are not UTF-8.
    pub fn render(&self) -> (r: Option<String>)
        ensures
            match r {
                Some(t) => valid_utf8(self@) && t@ == decode_utf8(self@),
                None => !valid_utf8(self@),
            },
    {
        match utf8_text(self.content.as_slice()) {
            Some(t) => Some(t.to_owned()),
            None => None,
        }
    }
}

/// The store path of the object with id `hash`.
pub fn get_file_path(hash: &str) -> (r: String)
    requires
        hash@.len() >= 2,
    ensures
        r@ == object_path(hash@),
{
    crate::store::get_file_path(hash)
}

} // verus!
