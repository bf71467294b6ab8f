//! The error kinds of the object and index layers.

use vstd::prelude::*;

verus! {

/// The kinds of failure that the object and index layers report.
#[derive(Debug, Clone, Copy, PartialEq, Eq, Structural)]
pub enum GitError {
    /// A malformed object header, tree entry, or text that is not UTF-8.
    Decode,
    /// An object type that the format reserves but this store does not handle.
    NotImplemented,
    /// A missing object file.
    NotFound,
    /// A bad index signature, or a field read past the end of the index buffer.
    Format,
    /// A failure of the file system or of the compressor.
    Io,
}

/// Puts `p` in front of a successful decoding; passes a failure on.
pub open spec fn prepend<T>(p: Seq<T>, r: Result<Seq<T>, GitError>) -> Result<Seq<T>, GitError> {
    match r {
        Ok(s) => Ok(p + s),
        Err(e) => Err(e),
    }
}

/// Prepending twice is prepending the concatenation.
pub proof fn lemma_prepend_assoc<T>(p: Seq<T>, q: Seq<T>, r: Result<Seq<T>, GitError>)
    ensures
        prepend(p, prepend(q, r)) == prepend(p + q, r),
{
    if let Ok(s) = r {
        assert(p + (q + s) =~= (p + q) + s);
    }
}

/// Prepending nothing changes nothing.
pub proof fn lemma_prepend_empty<T>(r: Result<Seq<T>, GitError>)
    ensures
        prepend(Seq::empty(), r) == r,
{
    if let Ok(s) = r {
        assert(Seq::<T>::empty() + s =~= s);
    }
}

} // verus!
