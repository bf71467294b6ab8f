//! Trees: ordered lists of mode, id and name, with their byte encoding.

use vstd::prelude::*;
use vstd::string::StringExecFns;
use vstd::utf8::{
    decode_utf8, encode_scalar, encode_utf8, encode_utf8_decode_utf8, encode_utf8_valid_utf8,
    last_continuation_byte, leading_byte_width_1, leading_byte_width_2, leading_byte_width_3,
    leading_byte_width_4, second_last_continuation_byte, third_last_continuation_byte, valid_utf8,
};

use crate::digits::{
    all_digits, decimal_bytes, decimal_digits, digits_value, lemma_decimal_digits, parse_u32_digits,
};
use crate::error::{lemma_prepend_assoc, lemma_prepend_empty, prepend, GitError};
use crate::index::read_bytes;
use crate::text::{base_digits, digits_text, hex_text, pad_zeros, to_hex, utf8_text, zero_padded};

verus! {

/// One named reference of a tree: a mode, the raw id of the object it names, and a name.
pub struct TreeEntry {
    pub mode: u32,
    pub sha1: [u8; 20],
    pub name: String,
}

/// The mathematical value of a tree entry.
pub struct TreeEntryView {
    pub mode: u32,
    pub sha1: Seq<u8>,
    pub name: Seq<char>,
}

impl View for TreeEntry {
    type V = TreeEntryView;

    open spec fn view(&self) -> TreeEntryView {
        TreeEntryView { mode: self.mode, sha1: self.sha1@, name: self.name@ }
    }
}

/// A directory listing: entries kept in the order they were given or decoded.
pub struct Tree {
    entries: Vec<TreeEntry>,
}

impl View for Tree {
    type V = Seq<TreeEntryView>;

    closed spec fn view(&self) -> Seq<TreeEntryView> {
        self.entries@.map_values(|e: TreeEntry| e@)
    }
}

/// The encoding of one entry: decimal mode, a space, the name, a NUL, the raw id.
pub open spec fn entry_bytes(e: TreeEntryView) -> Seq<u8> {
    decimal_digits(e.mode as nat) + seq![0x20u8] + encode_utf8(e.name) + seq![0u8] + e.sha1
}

/// The encoding of a whole tree: its entries' encodings, in order, with no separator.
pub open spec fn tree_bytes(es: Seq<TreeEntryView>) -> Seq<u8>
    decreases es.len(),
{
    if es.len() == 0 {
        Seq::empty()
    } else {
        tree_bytes(es.drop_last()) + entry_bytes(es.last())
    }
}

/// One line of a tree listing: the mode's digits zero-padded to six, a space,
/// the id in hexadecimal, two spaces, the name.
pub open spec fn entry_text(e: TreeEntryView) -> Seq<char> {
    zero_padded(base_digits(e.mode as nat, 10), 6) + seq![' '] + hex_text(e.sha1) + seq![' ', ' '] + e.name
}

/// A tree listing: one line per entry, joined by newlines, none after the last.
pub open spec fn tree_text(es: Seq<TreeEntryView>) -> Seq<char>
    decreases es.len(),
{
    if es.len() == 0 {
        Seq::empty()
    } else if es.len() == 1 {
        entry_text(es[0])
    } else {
        tree_text(es.drop_last()) + seq!['\n'] + entry_text(es.last())
    }
}

impl TreeEntry {
    /// This entry's line in a tree listing.
    pub fn render(&self) -> (r: String)
        ensures
            r@ == entry_text(self@),
    {
        let digits = digits_text(self.mode, 10);
        let mut line = pad_zeros(digits.as_str(), 6);
        proof {
            reveal_strlit(" ");
            reveal_strlit("  ");
        }
        line.append(" ");
        let hex = to_hex(self.sha1.as_slice());
        line.append(hex.as_str());
        line.append("  ");
        line.append(self.name.as_str());
        assert(line@ =~= entry_text(self@));
        line
    }
}

/// Whether `k` is the position of the first `b` in `s`.
pub open spec fn is_first(s: Seq<u8>, b: u8, k: int) -> bool {
    0 <= k < s.len() && s[k] == b && forall|m: int| 0 <= m < k ==> s[m] != b
}

/// The position of the first `b` in `s`, where there is one.
pub open spec fn first_of(s: Seq<u8>, b: u8) -> int {
    choose|k: int| is_first(s, b, k)
}

/// The entries that the tree content `s` decodes to, or why it does not decode.
pub open spec fn tree_entries(s: Seq<u8>) -> Result<Seq<TreeEntryView>, GitError>
    decreases s.len(),
{
    if s.len() == 0 {
        Ok(Seq::empty())
    } else if !(exists|k: int| is_first(s, 0x20, k)) {
        Err(GitError::Decode)
    } else {
        let sp = first_of(s, 0x20);
        let mode = s.subrange(0, sp);
        let r = s.subrange(sp + 1, s.len() as int);
        if !(mode.len() > 0 && all_digits(mode) && digits_value(mode) <= u32::MAX) {
            Err(GitError::Decode)
        } else if !(exists|k: int| is_first(r, 0, k)) {
            Err(GitError::Decode)
        } else {
            let nl = first_of(r, 0);
            let name = r.subrange(0, nl);
            if !valid_utf8(name) {
                Err(GitError::Decode)
            } else if r.len() < nl + 21 {
                Err(GitError::Decode)
            } else {
                prepend(
                    seq![TreeEntryView { mode: digits_value(mode) as u32, sha1: r.subrange(nl + 1, nl + 21), name: decode_utf8(name) }],
                    tree_entries(r.subrange(nl + 21, r.len() as int)),
                )
            }
        }
    }
}

pub proof fn lemma_first_of(s: Seq<u8>, b: u8, k: int)
    requires
        is_first(s, b, k),
    ensures
        first_of(s, b) == k,
{
    let j = first_of(s, b);
    assert(is_first(s, b, j));
    if j < k {
        assert(s[j] != b);
    } else if j > k {
        assert(s[k] != b);
    }
}

/// Index of the first `b` at or after `from` in `s`, or `s.len()` if there is none.
pub(crate) fn scan_to(s: &[u8], from: usize, b: u8) -> (r: usize)
    requires
        from <= s@.len(),
    ensures
        from <= r <= s@.len(),
        forall|m: int| from <= m < r ==> s@[m] != b,
        r < s@.len() ==> s@[r as int] == b,
{
    let mut j = from;
    while j < s.len() && s[j] != b
        invariant
            from <= j <= s@.len(),
            forall|m: int| from <= m < j ==> s@[m] != b,
        decreases s@.len() - j,
    {
        j = j + 1;
    }
    j
}

/// Whether an entry can be encoded and read back: a twenty-byte id and a name with no NUL.
pub open spec fn entry_encodable(e: TreeEntryView) -> bool {
    e.sha1.len() == 20 && forall|j: int| 0 <= j < e.name.len() ==> e.name[j] != '\0'
}

proof fn lemma_or_nonzero(a: u8, x: u8)
    requires
        a == 0x80 || a == 0xC0 || a == 0xE0 || a == 0xF0,
    ensures
        a | x != 0,
{
    assert(a != 0 ==> a | x != 0) by (bit_vector);
}

/// A non-NUL character encodes to bytes none of which is zero.
proof fn lemma_scalar_no_nul(c: u32)
    requires
        c != 0,
    ensures
        forall|i: int| 0 <= i < encode_scalar(c).len() ==> encode_scalar(c)[i] != 0,
{
    if c <= 0x7F {
        assert(1 <= c <= 0x7F ==> (c & 0x7F) as u8 != 0) by (bit_vector);
        assert(leading_byte_width_1(c) != 0);
    } else {
        lemma_or_nonzero(0xC0, ((c >> 6) & 0x1F) as u8);
        lemma_or_nonzero(0xE0, ((c >> 12) & 0x0F) as u8);
        lemma_or_nonzero(0xF0, ((c >> 18) & 0x7) as u8);
        lemma_or_nonzero(0x80, (c & 0x3F) as u8);
        lemma_or_nonzero(0x80, ((c >> 6) & 0x3F) as u8);
        lemma_or_nonzero(0x80, ((c >> 12) & 0x3F) as u8);
        assert(leading_byte_width_2(c) != 0);
        assert(leading_byte_width_3(c) != 0);
        assert(leading_byte_width_4(c) != 0);
        assert(last_continuation_byte(c) != 0);
        assert(second_last_continuation_byte(c) != 0);
        assert(third_last_continuation_byte(c) != 0);
    }
}

/// Text with no NUL character encodes to bytes with no zero byte.
proof fn lemma_utf8_no_nul(chars: Seq<char>)
    requires
        forall|j: int| 0 <= j < chars.len() ==> chars[j] != '\0',
    ensures
        forall|i: int| 0 <= i < encode_utf8(chars).len() ==> encode_utf8(chars)[i] != 0,
    decreases chars.len(),
{
    if chars.len() > 0 {
        assert(chars[0] != '\0');
        vstd::utf8::char_u32_cast(chars[0], chars[0] as u32);
        vstd::utf8::char_u32_cast('\0', 0u32);
        assert((chars[0] as u32) != 0);
        lemma_scalar_no_nul(chars[0] as u32);
        lemma_utf8_no_nul(chars.drop_first());
        let a = encode_scalar(chars[0] as u32);
        let b = encode_utf8(chars.drop_first());
        assert(encode_utf8(chars) == a + b);
        assert forall|i: int| 0 <= i < encode_utf8(chars).len() implies encode_utf8(chars)[i] != 0 by {
            if i < a.len() {
                assert(encode_utf8(chars)[i] == a[i]);
            } else {
                assert(encode_utf8(chars)[i] == b[i - a.len()]);
            }
        }
    }
}

/// A tree's encoding is its first entry's encoding followed by the encoding of the rest.
proof fn lemma_tree_bytes_front(es: Seq<TreeEntryView>)
    requires
        es.len() > 0,
    ensures
        tree_bytes(es) == entry_bytes(es[0]) + tree_bytes(es.drop_first()),
    decreases es.len(),
{
    if es.len() == 1 {
        assert(es.drop_last() =~= Seq::<TreeEntryView>::empty());
        assert(es.drop_first() =~= Seq::<TreeEntryView>::empty());
        assert(tree_bytes(es) =~= entry_bytes(es[0]) + tree_bytes(es.drop_first()));
    } else {
        let d = es.drop_last();
        lemma_tree_bytes_front(d);
        assert(d.drop_first() =~= es.drop_first().drop_last());
        assert(es.drop_first().last() == es.last());
        assert(tree_bytes(es) =~= entry_bytes(es[0]) + tree_bytes(es.drop_first()));
    }
}

/// Decoding an entry's encoding followed by more bytes gives that entry, then
/// whatever the rest decodes to.
proof fn lemma_decode_entry(e: TreeEntryView, rest: Seq<u8>)
    requires
        entry_encodable(e),
    ensures
        tree_entries(entry_bytes(e) + rest) == prepend(seq![e], tree_entries(rest)),
{
    let dd = decimal_digits(e.mode as nat);
    let nb = encode_utf8(e.name);
    let s = entry_bytes(e) + rest;
    lemma_decimal_digits(e.mode as nat);
    lemma_utf8_no_nul(e.name);
    encode_utf8_valid_utf8(e.name);
    encode_utf8_decode_utf8(e.name);
    let sp = dd.len() as int;
    assert(s[sp] == 0x20);
    assert forall|m: int| 0 <= m < sp implies s[m] != 0x20 by {
        assert(s[m] == dd[m]);
    }
    assert(is_first(s, 0x20, sp));
    lemma_first_of(s, 0x20, sp);
    assert(s.subrange(0, sp) =~= dd);
    let r = s.subrange(sp + 1, s.len() as int);
    assert(r =~= nb + seq![0u8] + e.sha1 + rest);
    let nl = nb.len() as int;
    assert forall|m: int| 0 <= m < nl implies r[m] != 0 by {
        assert(r[m] == nb[m]);
    }
    assert(r[nl] == 0);
    assert(is_first(r, 0, nl));
    lemma_first_of(r, 0, nl);
    assert(r.subrange(0, nl) =~= nb);
    assert(r.subrange(nl + 1, nl + 21) =~= e.sha1);
    assert(r.subrange(nl + 21, r.len() as int) =~= rest);
    let d = TreeEntryView { mode: digits_value(dd) as u32, sha1: e.sha1, name: decode_utf8(nb) };
    assert(d == e);
}

/// Encoding entries with twenty-byte ids and NUL-free names, then decoding the
/// bytes, gives back the same entries in the same order.
pub proof fn lemma_tree_round_trip(es: Seq<TreeEntryView>)
    requires
        forall|i: int| 0 <= i < es.len() ==> entry_encodable(#[trigger] es[i]),
    ensures
        tree_entries(tree_bytes(es)) == Ok::<Seq<TreeEntryView>, GitError>(es),
    decreases es.len(),
{
    if es.len() == 0 {
        assert(tree_bytes(es) =~= Seq::<u8>::empty());
        assert(es =~= Seq::<TreeEntryView>::empty());
    } else {
        lemma_tree_bytes_front(es);
        assert(entry_encodable(es[0]));
        let rest = es.drop_first();
        assert forall|i: int| 0 <= i < rest.len() implies entry_encodable(#[trigger] rest[i]) by {
            assert(rest[i] == es[i + 1]);
        }
        lemma_tree_round_trip(rest);
        lemma_decode_entry(es[0], tree_bytes(rest));
        assert(seq![es[0]] + rest =~= es);
    }
}

impl Tree {
    /// A tree holding `entries` in the given order.
    pub fn new(entries: Vec<TreeEntry>) -> (r: Tree)
        ensures
            r@ == entries@.map_values(|e: TreeEntry| e@),
    {
        Tree { entries }
    }

    /// The entries, in order.
    pub fn entries(&self) -> (r: &Vec<TreeEntry>)
        ensures
            r@.map_values(|e: TreeEntry| e@) == self@,
    {
        &self.entries
    }

    /// Decodes tree content: a run of entries, each a decimal mode, a space, a
    /// UTF-8 name, a NUL and twenty raw id bytes.
    pub fn from_content(data: Vec<u8>) -> (r: Result<Tree, GitError>)
        ensures
            match tree_entries(data@) {
                Ok(es) => r is Ok && r->Ok_0@ == es,
                Err(e) => r == Err::<Tree, GitError>(e),
            },
    {
        let bytes = data.as_slice();
        let len = bytes.len();
        let mut entries: Vec<TreeEntry> = Vec::new();
        let mut i: usize = 0;
        proof {
            assert(bytes@.subrange(0, len as int) =~= bytes@);
            lemma_prepend_empty(tree_entries(bytes@));
            assert(entries@.map_values(|e: TreeEntry| e@) =~= Seq::<TreeEntryView>::empty());
        }
        while i < len
            invariant
                i <= len,
                len == bytes@.len(),
                bytes@ == data@,
                tree_entries(data@) == prepend(
                    entries@.map_values(|e: TreeEntry| e@),
                    tree_entries(bytes@.subrange(i as int, len as int)),
                ),
            decreases len - i,
        {
            let ghost s = bytes@.subrange(i as int, len as int);
            let ghost before = entries@.map_values(|e: TreeEntry| e@);
            let j = scan_to(bytes, i, 0x20);
            if j == len {
                proof {
                    assert forall|k: int| !is_first(s, 0x20, k) by {
                        if is_first(s, 0x20, k) {
                            assert(bytes@[i + k] == 0x20);
                        }
                    }
                }
                return Err(GitError::Decode);
            }
            proof {
                assert(is_first(s, 0x20, j - i));
                lemma_first_of(s, 0x20, j - i);
                assert(s.subrange(0, j - i) =~= bytes@.subrange(i as int, j as int));
            }
            let ghost r = s.subrange(j - i + 1, s.len() as int);
            assert(r =~= bytes@.subrange(j + 1, len as int));
            let mode = match parse_u32_digits(bytes, i, j) {
                Some(m) => m,
                None => {
                    return Err(GitError::Decode);
                },
            };
            let k = scan_to(bytes, j + 1, 0);
            if k == len {
                proof {
                    assert forall|m: int| !is_first(r, 0, m) by {
                        if is_first(r, 0, m) {
                            assert(bytes@[j + 1 + m] == 0);
                        }
                    }
                }
                return Err(GitError::Decode);
            }
            proof {
                assert(is_first(r, 0, k - j - 1));
                lemma_first_of(r, 0, k - j - 1);
                assert(r.subrange(0, k - j - 1) =~= bytes@.subrange(j + 1, k as int));
            }
            let name = match utf8_text(&bytes[j + 1..k]) {
                Some(t) => t.to_owned(),
                None => {
                    return Err(GitError::Decode);
                },
            };
            if len - (k + 1) < 20 {
                return Err(GitError::Decode);
            }
            let mut off = k + 1;
            let sha1 = match read_bytes::<20>(bytes, &mut off) {
                Ok(h) => h,
                Err(_) => {
                    return Err(GitError::Decode);
                },
            };
            let entry = TreeEntry { mode, sha1, name };
            let ghost ev = entry@;
            proof {
                assert(r.subrange(k - j, k - j + 20) =~= bytes@.subrange(k + 1, k + 21));
                assert(r.subrange(k - j + 20, r.len() as int) =~= bytes@.subrange(k + 21, len as int));
                lemma_prepend_assoc(before, seq![ev], tree_entries(bytes@.subrange(k + 21, len as int)));
            }
            entries.push(entry);
            proof {
                assert(entries@.map_values(|e: TreeEntry| e@) =~= before + seq![ev]);
            }
            i = k + 21;
        }
        proof {
            assert(bytes@.subrange(i as int, len as int) =~= Seq::<u8>::empty());
            assert(tree_entries(Seq::<u8>::empty()) == Ok::<Seq<TreeEntryView>, GitError>(Seq::empty()));
            assert(entries@.map_values(|e: TreeEntry| e@) + Seq::<TreeEntryView>::empty() =~= entries@.map_values(|e: TreeEntry| e@));
        }
        Ok(Tree { entries })
    }

    /// Encodes the tree: each entry as decimal mode, a space, its name, a NUL and
    /// its raw id, in order.
    pub fn get_content(&self) -> (r: Vec<u8>)
        ensures
            r@ == tree_bytes(self@),
    {
        let mut content: Vec<u8> = Vec::new();
        let n = self.entries.len();
        let mut idx: usize = 0;
        assert(self@.take(0) =~= Seq::<TreeEntryView>::empty());
        while idx < n
            invariant
                idx <= n,
                n == self.entries@.len(),
                content@ == tree_bytes(self@.take(idx as int)),
            decreases n - idx,
        {
            let entry = &self.entries[idx];
            let mut mode = decimal_bytes(entry.mode as u64);
            content.append(&mut mode);
            content.push(0x20);
            content.extend_from_slice(entry.name.as_str().as_bytes());
            content.push(0);
            content.extend_from_slice(entry.sha1.as_slice());
            proof {
                let t = self@.take(idx + 1);
                assert(t.drop_last() =~= self@.take(idx as int));
                assert(t.last() == entry@);
                assert(content@ =~= tree_bytes(self@.take(idx as int)) + entry_bytes(entry@));
            }
            idx = idx + 1;
        }
        assert(self@.take(n as int) =~= self@);
        content
    }

    /// The tree listing: one line per entry, newline-separated, with no newline
    /// after the last.
    pub fn render(&self) -> (r: String)
        ensures
            r@ == tree_text(self@),
    {
        let mut out = "".to_owned();
        proof {
            reveal_strlit("");
        }
        let n = self.entries.len();
        let mut idx: usize = 0;
        assert(out@ =~= tree_text(self@.take(0)));
        while idx < n
            invariant
                idx <= n,
                n == self.entries@.len(),
                out@ == tree_text(self@.take(idx as int)),
            decreases n - idx,
        {
            let entry = &self.entries[idx];
            if idx > 0 {
                proof {
                    reveal_strlit("\n");
                }
                out.append("\n");
            }
            let line = entry.render();
            out.append(line.as_str());
            proof {
                let t = self@.take(idx + 1);
                assert(t.drop_last() =~= self@.take(idx as int));
                assert(t.last() == entry@);
                if idx == 0 {
                    assert(out@ =~= entry_text(t[0]));
                } else {
                    assert(out@ =~= tree_text(t.drop_last()) + seq!['\n'] + entry_text(t.last()));
                }
            }
            idx = idx + 1;
        }
        assert(self@.take(n as int) =~= self@);
        out
    }

    /// The index of the last entry named `name`, if any: the lookup that a
    /// name-to-position map built from the entries would answer.
    pub fn position_of(&self, name: &str) -> (r: Option<usize>)
        ensures
            match r {
                Some(i) => i < self@.len() && self@[i as int].name == name@ && forall|j: int|
                    i < j < self@.len() ==> self@[j].name != name@,
                None => forall|j: int| 0 <= j < self@.len() ==> self@[j].name != name@,
            },
    {
        let target = name.to_owned();
        let mut k = self.entries.len();
        while k > 0
            invariant
                k <= self.entries@.len(),
                self@.len() == self.entries@.len(),
                target@ == name@,
                forall|j: int| k <= j < self@.len() ==> self@[j].name != name@,
            decreases k,
        {
            let e = &self.entries[k - 1];
            assert(self@[k - 1] == e@);
            if e.name == target {
                return Some(k - 1);
            }
            k = k - 1;
        }
        None
    }

    /// The type name of trees.
    pub fn get_object_type(&self) -> (r: &'static str)
        ensures
            r@ == seq!['t', 'r', 'e', 'e'],
    {
        proof {
            reveal_strlit("tree");
        }
        "tree"
    }
}

} // verus!
