//! The staging index: a `DIRC` header and fixed-layout, big-endian entries.

use vstd::prelude::*;
use vstd::string::StringExecFns;

use crate::error::{lemma_prepend_assoc, lemma_prepend_empty, prepend, GitError};
use crate::text::{base_digits, digits_text, hex_text, to_hex};

verus! {

/// Characters that lossy UTF-8 decoding gives for a byte sequence.
pub uninterp spec fn lossy_utf8(b: Seq<u8>) -> Seq<char>;

/// Relies on `String::from_utf8_lossy`: decodes the path bytes, replacing each
/// invalid sequence; the result depends on the bytes alone.
#[verifier::external_body]
fn decode_lossy(b: &[u8]) -> (r: String)
    ensures
        r@ == lossy_utf8(b@),
{
    String::from_utf8_lossy(b).to_string()
}

/// Size of the fixed part of an index entry, before its path.
pub const ENTRY_FIXED_LEN: usize = 62;

/// One record of the staging index.
pub struct Entry {
    pub ctime: (u32, u32),
    pub mtime: (u32, u32),
    pub dev: u32,
    pub inode: u32,
    pub mode: u32,
    pub uid: u32,
    pub gid: u32,
    pub file_size: u32,
    pub sha1: [u8; 20],
    pub flags: u16,
    pub path: String,
}

/// The mathematical value of an index entry.
pub struct EntryView {
    pub ctime: (u32, u32),
    pub mtime: (u32, u32),
    pub dev: u32,
    pub inode: u32,
    pub mode: u32,
    pub uid: u32,
    pub gid: u32,
    pub file_size: u32,
    pub sha1: Seq<u8>,
    pub flags: u16,
    pub path: Seq<char>,
}

impl View for Entry {
    type V = EntryView;

    open spec fn view(&self) -> EntryView {
        EntryView {
            ctime: self.ctime,
            mtime: self.mtime,
            dev: self.dev,
            inode: self.inode,
            mode: self.mode,
            uid: self.uid,
            gid: self.gid,
            file_size: self.file_size,
            sha1: self.sha1@,
            flags: self.flags,
            path: self.path@,
        }
    }
}

/// An entry's line in a staging listing: the mode in octal, a space, the id in
/// hexadecimal, a space, the path.
pub open spec fn entry_line(e: EntryView) -> Seq<char> {
    base_digits(e.mode as nat, 8) + seq![' '] + hex_text(e.sha1) + seq![' '] + e.path
}

impl Entry {
    /// This entry's line in a staging listing.
    pub fn render(&self) -> (r: String)
        ensures
            r@ == entry_line(self@),
    {
        let mut line = digits_text(self.mode, 8);
        proof {
            reveal_strlit(" ");
        }
        line.append(" ");
        let hex = to_hex(self.sha1.as_slice());
        line.append(hex.as_str());
        line.append(" ");
        line.append(self.path.as_str());
        assert(line@ =~= entry_line(self@));
        line
    }
}

/// Path length that an entry's flags declare (their low twelve bits).
pub open spec fn path_len_of(flags: u16) -> int {
    (flags & 0x0fff) as int
}

/// Bytes of padding after an entry of `n` bytes, up to the next multiple of eight.
pub open spec fn padding_for(n: int) -> int {
    if n % 8 == 0 { 0 } else { 8 - n % 8 }
}

/// The entry whose fixed part starts at `off` (its bounds are checked by the caller).
pub open spec fn entry_at(buf: Seq<u8>, off: int) -> EntryView {
    let flags = be16(buf, off + 60) as u16;
    EntryView {
        ctime: (be32(buf, off) as u32, be32(buf, off + 4) as u32),
        mtime: (be32(buf, off + 8) as u32, be32(buf, off + 12) as u32),
        dev: be32(buf, off + 16) as u32,
        inode: be32(buf, off + 20) as u32,
        mode: be32(buf, off + 24) as u32,
        uid: be32(buf, off + 28) as u32,
        gid: be32(buf, off + 32) as u32,
        file_size: be32(buf, off + 36) as u32,
        sha1: buf.subrange(off + 40, off + 60),
        flags,
        path: lossy_utf8(buf.subrange(off + 62, off + 62 + path_len_of(flags))),
    }
}

/// Where the entry after the one at `off` starts.
pub open spec fn next_entry_offset(buf: Seq<u8>, off: int) -> int {
    let n = 62 + path_len_of(be16(buf, off + 60) as u16);
    off + n + padding_for(n)
}

/// Decodes `k` consecutive entries starting at `off`.
pub open spec fn entries_from(buf: Seq<u8>, off: int, k: nat) -> Result<Seq<EntryView>, GitError>
    decreases k,
{
    if k == 0 {
        Ok(Seq::empty())
    } else if off + 62 > buf.len() {
        Err(GitError::Format)
    } else if off + 62 + path_len_of(be16(buf, off + 60) as u16) > buf.len() {
        Err(GitError::Format)
    } else {
        prepend(seq![entry_at(buf, off)], entries_from(buf, next_entry_offset(buf, off), (k - 1) as nat))
    }
}

/// The result of decoding a whole index buffer: the `DIRC` signature, a version,
/// an entry count, then that many entries.
pub open spec fn index_entries(buf: Seq<u8>) -> Result<Seq<EntryView>, GitError> {
    if buf.len() < 12 {
        Err(GitError::Format)
    } else if buf.subrange(0, 4) != seq![0x44u8, 0x49u8, 0x52u8, 0x43u8] {
        Err(GitError::Format)
    } else {
        entries_from(buf, 12, be32(buf, 8) as nat)
    }
}

/// Whether the decoded entries `v` are the entries `s`, in order.
pub open spec fn entries_match(v: Seq<Entry>, s: Seq<EntryView>) -> bool {
    v.len() == s.len() && forall|i: int| 0 <= i < v.len() ==> (#[trigger] v[i])@ == s[i]
}

/// Big-endian value of the two bytes of `s` starting at `i`.
pub open spec fn be16(s: Seq<u8>, i: int) -> int {
    s[i] as int * 256 + s[i + 1] as int
}

/// Big-endian value of the four bytes of `s` starting at `i`.
pub open spec fn be32(s: Seq<u8>, i: int) -> int {
    s[i] as int * 16777216 + s[i + 1] as int * 65536 + s[i + 2] as int * 256 + s[i + 3] as int
}

/// Reads a big-endian `u32` at `*offset` and advances the offset past it; fails,
/// leaving the offset alone, when fewer than four bytes remain.
pub fn read_u32(buffer: &[u8], offset: &mut usize) -> (r: Result<u32, GitError>)
    ensures
        *old(offset) + 4 <= buffer@.len() ==> r == Ok::<u32, GitError>(
            be32(buffer@, *old(offset) as int) as u32,
        ) && *final(offset) == *old(offset) + 4,
        *old(offset) + 4 > buffer@.len() ==> r == Err::<u32, GitError>(GitError::Format)
            && *final(offset) == *old(offset),
{
    let len = buffer.len();
    if *offset > len || len - *offset < 4 {
        return Err(GitError::Format);
    }
    let i = *offset;
    let b0 = buffer[i] as u32;
    let b1 = buffer[i + 1] as u32;
    let b2 = buffer[i + 2] as u32;
    let b3 = buffer[i + 3] as u32;
    assert(b0 * 16777216 + b1 * 65536 + b2 * 256 + b3 <= 0xffff_ffff) by (nonlinear_arith)
        requires
            b0 <= 255,
            b1 <= 255,
            b2 <= 255,
            b3 <= 255,
    ;
    *offset = i + 4;
    Ok(b0 * 16777216 + b1 * 65536 + b2 * 256 + b3)
}

/// Reads a big-endian `u16` at `*offset` and advances the offset past it; fails,
/// leaving the offset alone, when fewer than two bytes remain.
pub fn read_u16(buffer: &[u8], offset: &mut usize) -> (r: Result<u16, GitError>)
    ensures
        *old(offset) + 2 <= buffer@.len() ==> r == Ok::<u16, GitError>(
            be16(buffer@, *old(offset) as int) as u16,
        ) && *final(offset) == *old(offset) + 2,
        *old(offset) + 2 > buffer@.len() ==> r == Err::<u16, GitError>(GitError::Format)
            && *final(offset) == *old(offset),
{
    let len = buffer.len();
    if *offset > len || len - *offset < 2 {
        return Err(GitError::Format);
    }
    let i = *offset;
    let b0 = buffer[i] as u16;
    let b1 = buffer[i + 1] as u16;
    *offset = i + 2;
    Ok(b0 * 256 + b1)
}

/// Copies the `N` bytes at `*offset` and advances the offset past them; fails,
/// leaving the offset alone, when fewer than `N` bytes remain.
pub fn read_bytes<const N: usize>(buffer: &[u8], offset: &mut usize) -> (r: Result<[u8; N], GitError>)
    ensures
        *old(offset) + N <= buffer@.len() ==> r is Ok && r->Ok_0@ == buffer@.subrange(
            *old(offset) as int,
            *old(offset) + N,
        ) && *final(offset) == *old(offset) + N,
        *old(offset) + N > buffer@.len() ==> r == Err::<[u8; N], GitError>(GitError::Format)
            && *final(offset) == *old(offset),
{
    let len = buffer.len();
    if *offset > len || len - *offset < N {
        return Err(GitError::Format);
    }
    let start = *offset;
    let mut out: [u8; N] = [0u8; N];
    let mut k: usize = 0;
    while k < N
        invariant
            k <= N,
            start + N <= len,
            len == buffer@.len(),
            out@.len() == N,
            forall|j: int| 0 <= j < k ==> out@[j] == buffer@[start + j],
        decreases N - k,
    {
        out[k] = buffer[start + k];
        k = k + 1;
    }
    assert(out@ =~= buffer@.subrange(start as int, start + N));
    *offset = start + N;
    Ok(out)
}

/// Decoding from any offset at or past the end is the same as decoding from the end.
proof fn lemma_entries_past_end(buf: Seq<u8>, off: int, k: nat)
    requires
        off >= buf.len(),
    ensures
        entries_from(buf, off, k) == entries_from(buf, buf.len() as int, k),
{
}

/// A buffer shorter than the twelve-byte header, or one that does not start with
/// the `DIRC` signature, is rejected with `Format`.
pub proof fn lemma_index_bad_header(buf: Seq<u8>)
    requires
        buf.len() < 12 || buf.subrange(0, 4) != seq![0x44u8, 0x49u8, 0x52u8, 0x43u8],
    ensures
        index_entries(buf) == Err::<Seq<EntryView>, GitError>(GitError::Format),
{
}

/// Decoding `k > 0` entries from `off` fails with `Format` when the buffer cannot
/// hold `k` fixed entry parts from there.
proof fn lemma_entries_too_many(buf: Seq<u8>, off: int, k: nat)
    requires
        k > 0,
        off + 62 * k > buf.len(),
    ensures
        entries_from(buf, off, k) == Err::<Seq<EntryView>, GitError>(GitError::Format),
    decreases k,
{
    if off + 62 <= buf.len() && off + 62 + path_len_of(be16(buf, off + 60) as u16) <= buf.len() {
        let next = next_entry_offset(buf, off);
        assert(next >= off + 62);
        assert(k > 1);
        assert(next + 62 * (k - 1) > buf.len()) by (nonlinear_arith)
            requires
                next >= off + 62,
                off + 62 * k > buf.len(),
                k > 1,
        ;
        lemma_entries_too_many(buf, next, (k - 1) as nat);
    }
}

/// An index whose declared entry count needs more bytes than the buffer has
/// after its header is rejected with `Format`.
pub proof fn lemma_index_count_too_large(buf: Seq<u8>)
    requires
        buf.len() >= 12,
        12 + 62 * be32(buf, 8) > buf.len(),
    ensures
        index_entries(buf) == Err::<Seq<EntryView>, GitError>(GitError::Format),
{
    if buf.subrange(0, 4) == seq![0x44u8, 0x49u8, 0x52u8, 0x43u8] {
        if be32(buf, 8) == 0 {
            assert(false);
        } else {
            lemma_entries_too_many(buf, 12, be32(buf, 8) as nat);
        }
    }
}

/// Whether the entry at `off` fits in `buf`, fixed part and path together.
pub open spec fn entry_fits(buf: Seq<u8>, off: int) -> bool {
    off + 62 <= buf.len() && off + 62 + path_len_of(be16(buf, off + 60) as u16) <= buf.len()
}

/// Decodes the entry at `*offset` and moves the offset to the end of its path.
fn read_entry(buffer: &[u8], offset: &mut usize) -> (r: Result<Entry, GitError>)
    requires
        *old(offset) <= buffer@.len(),
    ensures
        entry_fits(buffer@, *old(offset) as int) ==> r is Ok && r->Ok_0@ == entry_at(
            buffer@,
            *old(offset) as int,
        ) && *final(offset) == *old(offset) + 62 + path_len_of(
            be16(buffer@, *old(offset) + 60) as u16,
        ),
        !entry_fits(buffer@, *old(offset) as int) ==> r == Err::<Entry, GitError>(GitError::Format),
{
    let len = buffer.len();
    if len - *offset < ENTRY_FIXED_LEN {
        return Err(GitError::Format);
    }
    let ctime_s = read_u32(buffer, offset)?;
    let ctime_n = read_u32(buffer, offset)?;
    let mtime_s = read_u32(buffer, offset)?;
    let mtime_n = read_u32(buffer, offset)?;
    let dev = read_u32(buffer, offset)?;
    let inode = read_u32(buffer, offset)?;
    let mode = read_u32(buffer, offset)?;
    let uid = read_u32(buffer, offset)?;
    let gid = read_u32(buffer, offset)?;
    let file_size = read_u32(buffer, offset)?;
    let sha1 = read_bytes::<20>(buffer, offset)?;
    let flags = read_u16(buffer, offset)?;
    let path_length = (flags & 0x0fff) as usize;
    if len - *offset < path_length {
        return Err(GitError::Format);
    }
    let start = *offset;
    let path = decode_lossy(&buffer[start..start + path_length]);
    *offset = start + path_length;
    Ok(Entry {
        ctime: (ctime_s, ctime_n),
        mtime: (mtime_s, mtime_n),
        dev,
        inode,
        mode,
        uid,
        gid,
        file_size,
        sha1,
        flags,
        path,
    })
}

/// Decodes the staging index held in `buffer` into its entries, in order.
pub fn parse_index(buffer: &[u8]) -> (r: Result<Vec<Entry>, GitError>)
    ensures
        match index_entries(buffer@) {
            Ok(s) => r is Ok && entries_match(r->Ok_0@, s),
            Err(e) => r == Err::<Vec<Entry>, GitError>(e),
        },
{
    let len = buffer.len();
    if len < 12 {
        return Err(GitError::Format);
    }
    if !(buffer[0] == 0x44 && buffer[1] == 0x49 && buffer[2] == 0x52 && buffer[3] == 0x43) {
        proof {
            assert(buffer@.subrange(0, 4) != seq![0x44u8, 0x49u8, 0x52u8, 0x43u8]) by {
                if buffer@.subrange(0, 4) == seq![0x44u8, 0x49u8, 0x52u8, 0x43u8] {
                    assert(buffer@.subrange(0, 4)[0] == buffer@[0]);
                    assert(buffer@.subrange(0, 4)[1] == buffer@[1]);
                    assert(buffer@.subrange(0, 4)[2] == buffer@[2]);
                    assert(buffer@.subrange(0, 4)[3] == buffer@[3]);
                }
            }
        }
        return Err(GitError::Format);
    }
    assert(buffer@.subrange(0, 4) =~= seq![0x44u8, 0x49u8, 0x52u8, 0x43u8]);
    let mut offset: usize = 8;
    let count = read_u32(buffer, &mut offset)?;
    let ghost total = index_entries(buffer@);
    proof {
        lemma_prepend_empty(entries_from(buffer@, 12, count as nat));
    }
    let mut entries: Vec<Entry> = Vec::new();
    assert(entries@.map_values(|e: Entry| e@) =~= Seq::<EntryView>::empty());
    let mut remaining: u32 = count;
    while remaining > 0
        invariant
            offset <= len,
            len == buffer@.len(),
            total == index_entries(buffer@),
            total == prepend(entries@.map_values(|e: Entry| e@), entries_from(buffer@, offset as int, remaining as nat)),
        decreases remaining,
    {
        let start = offset;
        let ghost off0 = offset as int;
        let ghost before = entries@.map_values(|e: Entry| e@);
        let entry = read_entry(buffer, &mut offset)?;
        let end = offset;
        let n = end - start;
        proof {
            lemma_prepend_assoc(before, seq![entry@], entries_from(buffer@, next_entry_offset(buffer@, off0), (remaining - 1) as nat));
        }
        entries.push(entry);
        proof {
            assert(entries@.map_values(|e: Entry| e@) =~= before + seq![entry@]);
        }
        let padding: usize = if n % 8 == 0 { 0 } else { 8 - n % 8 };
        if len - end < padding {
            proof {
                lemma_entries_past_end(buffer@, next_entry_offset(buffer@, off0), (remaining - 1) as nat);
            }
            offset = len;
        } else {
            offset = end + padding;
        }
        remaining = remaining - 1;
    }
    proof {
        assert(entries@.map_values(|e: Entry| e@).len() == entries@.len());
    }
    Ok(entries)
}

} // verus!
