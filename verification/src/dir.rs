//! Directory entry parsing utilities.
use vstd::prelude::*;
use vstd::utf8::{decode_first_scalar, decode_utf8, pop_first_scalar, valid_utf8};

use crate::bpb::{le16, le32, read_le16, read_le32};

verus! {

/// What a directory entry records, as plain values.
pub struct EntryModel {
    pub name: Seq<char>,
    pub attr: u8,
    pub cluster: u32,
    pub size: u32,
}

/// Whether an attribute byte marks a directory.
pub open spec fn attr_is_dir(attr: u8) -> bool {
    attr & 0x10 != 0
}

impl EntryModel {
    /// Whether this entry denotes a directory.
    pub open spec fn is_dir(self) -> bool {
        attr_is_dir(self.attr)
    }
}

/// Raw directory entry extracted from a directory cluster.
#[derive(Debug, Clone, PartialEq, Eq)]
pub struct DirEntry {
    pub name: String,
    pub attr: u8,
    pub cluster: u32,
    pub size: u32,
}

impl View for DirEntry {
    type V = EntryModel;

    open spec fn view(&self) -> EntryModel {
        EntryModel { name: self.name@, attr: self.attr, cluster: self.cluster, size: self.size }
    }
}

impl DirEntry {
    pub const ATTR_DIRECTORY: u8 = 0x10;

    pub const ATTR_LONG_NAME: u8 = 0x0F;

    /// Whether this entry denotes a directory.
    pub fn is_dir(&self) -> (r: bool)
        ensures
            r == attr_is_dir(self.attr),
    {
        self.attr & Self::ATTR_DIRECTORY != 0
    }
}

/// Public information returned by `ls`.
#[derive(Debug, Clone, PartialEq, Eq)]
pub struct DirEntryInfo {
    pub name: String,
    pub is_dir: bool,
    pub size: u32,
}

/// What `ls` reports of one entry, as plain values.
pub struct InfoModel {
    pub name: Seq<char>,
    pub is_dir: bool,
    pub size: u32,
}

impl View for DirEntryInfo {
    type V = InfoModel;

    open spec fn view(&self) -> InfoModel {
        InfoModel { name: self.name@, is_dir: self.is_dir, size: self.size }
    }
}

/// What `ls` reports of an entry.
pub open spec fn info_of(e: EntryModel) -> InfoModel {
    InfoModel { name: e.name, is_dir: e.is_dir(), size: e.size }
}

/// The text that `String::from_utf8_lossy` makes of `bytes`.
pub uninterp spec fn utf8_lossy(bytes: Seq<u8>) -> Seq<char>;

/// Decodes `bytes` with `String::from_utf8_lossy`. Stated: the result is
/// `utf8_lossy` of the bytes; for valid UTF-8 it is the decoded text; and
/// bytes that are not empty give text that is not empty, since every byte
/// is either decoded or replaced by U+FFFD. How invalid sequences are
/// replaced is left to the name.
#[verifier::external_body]
fn decode_lossy(bytes: &[u8]) -> (s: String)
    ensures
        s@ == utf8_lossy(bytes@),
        valid_utf8(bytes@) ==> s@ == decode_utf8(bytes@),
        bytes@.len() > 0 ==> s@.len() > 0,
{
    String::from_utf8_lossy(bytes).into_owned()
}

/// `s` without its trailing space bytes.
pub open spec fn trim_spaces(s: Seq<u8>) -> Seq<u8>
    decreases s.len(),
{
    if s.len() > 0 && s.last() == 0x20u8 {
        trim_spaces(s.drop_last())
    } else {
        s
    }
}

/// The printable form of a short (8.3) name: the base, then a dot and the
/// extension where the extension is not empty, each without trailing spaces.
pub open spec fn short_name_of(raw: Seq<u8>) -> Seq<char> {
    let base = utf8_lossy(trim_spaces(raw.subrange(0, 8)));
    let ext = utf8_lossy(trim_spaces(raw.subrange(8, 11)));
    if ext.len() == 0 {
        base
    } else {
        base + seq!['.'] + ext
    }
}

/// Whether both halves of an 8.3 name, without trailing spaces, are valid UTF-8.
pub open spec fn name_parts_valid(raw: Seq<u8>) -> bool {
    &&& valid_utf8(trim_spaces(raw.subrange(0, 8)))
    &&& valid_utf8(trim_spaces(raw.subrange(8, 11)))
}

/// The printable form of an 8.3 name whose halves are valid UTF-8: each half
/// decoded, joined by a dot where the extension is not empty.
pub open spec fn decoded_short_name(raw: Seq<u8>) -> Seq<char> {
    let base = decode_utf8(trim_spaces(raw.subrange(0, 8)));
    let ext = decode_utf8(trim_spaces(raw.subrange(8, 11)));
    if ext.len() == 0 {
        base
    } else {
        base + seq!['.'] + ext
    }
}

/// Bytes below 0x80 are valid UTF-8 and decode to the characters of the
/// same codes.
pub proof fn lemma_ascii_decodes(bytes: Seq<u8>)
    requires
        forall|i: int| 0 <= i < bytes.len() ==> #[trigger] bytes[i] < 0x80,
    ensures
        valid_utf8(bytes),
        decode_utf8(bytes) == bytes.map_values(|b: u8| b as char),
    decreases bytes.len(),
{
    if bytes.len() > 0 {
        let b = bytes[0];
        assert(b < 0x80);
        assert(b & 0x7f == b) by (bit_vector)
            requires
                b < 0x80,
        ;
        let rest = bytes.drop_first();
        assert forall|i: int| 0 <= i < rest.len() implies #[trigger] rest[i] < 0x80 by {
            assert(rest[i] == bytes[i + 1]);
        }
        lemma_ascii_decodes(rest);
        assert(pop_first_scalar(bytes) =~= rest);
        assert(decode_first_scalar(bytes) == b as u32);
        assert(decode_utf8(bytes) == seq![b as u32 as char] + decode_utf8(rest));
        assert(seq![b as u32 as char] + rest.map_values(|b: u8| b as char) =~= bytes.map_values(
            |b: u8| b as char,
        ));
    } else {
        assert(bytes.map_values(|b: u8| b as char) =~= Seq::<char>::empty());
    }
}

/// The entry that a 32-byte directory record describes; `None` for the end
/// marker, a deleted record, a long-name record or a volume label.
pub open spec fn dir_entry_of(raw: Seq<u8>) -> Option<EntryModel> {
    if raw.len() < 32 || raw[0] == 0x00 || raw[0] == 0xE5 || raw[11] == 0x0F || raw[11] == 0x08 {
        None
    } else {
        Some(
            EntryModel {
                name: short_name_of(raw.subrange(0, 11)),
                attr: raw[11],
                cluster: (le16(raw, 20) as int * 0x1_0000 + le16(raw, 26) as int) as u32,
                size: le32(raw, 28),
            },
        )
    }
}

fn trim_space(s: &[u8]) -> (r: String)
    ensures
        r@ == utf8_lossy(trim_spaces(s@)),
        valid_utf8(trim_spaces(s@)) ==> r@ == decode_utf8(trim_spaces(s@)),
        r@.len() == 0 <==> trim_spaces(s@).len() == 0,
{
    let mut end = s.len();
    assert(s@.subrange(0, end as int) =~= s@);
    while end > 0 && s[end - 1] == 0x20u8
        invariant
            end <= s@.len(),
            trim_spaces(s@) == trim_spaces(s@.subrange(0, end as int)),
        decreases end,
    {
        assert(s@.subrange(0, end as int).drop_last() =~= s@.subrange(0, end - 1));
        end = end - 1;
    }
    decode_lossy(vstd::slice::slice_subrange(s, 0, end))
}

/// Convert a short (8.3) name into a printable string.
pub fn short_name(raw: &[u8]) -> (r: String)
    requires
        raw@.len() >= 11,
    ensures
        r@ == short_name_of(raw@),
        name_parts_valid(raw@) ==> r@ == decoded_short_name(raw@),
        r@ == (if trim_spaces(raw@.subrange(8, 11)).len() == 0 {
            utf8_lossy(trim_spaces(raw@.subrange(0, 8)))
        } else {
            utf8_lossy(trim_spaces(raw@.subrange(0, 8))) + seq!['.'] + utf8_lossy(
                trim_spaces(raw@.subrange(8, 11)),
            )
        }),
{
    let base = trim_space(vstd::slice::slice_subrange(raw, 0, 8));
    let extension = trim_space(vstd::slice::slice_subrange(raw, 8, 11));
    if extension.as_str().is_empty() {
        base
    } else {
        let mut name = base;
        name.append(".");
        name.append(extension.as_str());
        proof {
            reveal_strlit(".");
        }
        name
    }
}

/// Parse a 32-byte FAT directory entry. Returns `None` on deleted or padding entries.
pub fn parse_dir_entry(raw: &[u8]) -> (r: Option<DirEntry>)
    ensures
        r matches Some(e) ==> dir_entry_of(raw@) == Some(e@),
        r is None <==> dir_entry_of(raw@) is None,
        name_parts_valid(raw@) ==> (r matches Some(e) ==> e.name@ == decoded_short_name(raw@)),
{
    if raw.len() < 32 {
        return None;
    }
    if raw[0] == 0x00 || raw[0] == 0xE5 {
        return None;
    }
    let attr = raw[11];
    if attr == DirEntry::ATTR_LONG_NAME {
        return None;
    }
    if attr == 0x08 {
        return None;
    }
    let head = vstd::slice::slice_subrange(raw, 0, 11);
    let name = short_name(head);
    let cluster_high = read_le16(raw, 20);
    let cluster_low = read_le16(raw, 26);
    let cluster = ((cluster_high as u32) << 16) | cluster_low as u32;
    assert(((cluster_high as u32) << 16) | cluster_low as u32 == cluster_high as u32 * 0x1_0000
        + cluster_low as u32) by (bit_vector);
    let size = read_le32(raw, 28);
    proof {
        assert(raw@.subrange(0, 11) =~= head@);
        assert(head@.subrange(0, 8) =~= raw@.subrange(0, 8));
        assert(head@.subrange(8, 11) =~= raw@.subrange(8, 11));
    }
    Some(DirEntry { name, attr, cluster, size })
}

/// An entry is a directory exactly when bit 4 (value 0x10) of its attribute
/// byte is set, whatever its other bits (hidden, system, archive, ...).
pub proof fn lemma_dir_bit(a: u8)
    ensures
        attr_is_dir(a) == (a / 16 % 2 == 1),
{
    assert((a & 0x10 != 0) == (a / 16 % 2 == 1)) by (bit_vector);
}

/// A directory record of at least 32 bytes that is not an end marker (first
/// byte 0x00), a deleted record (0xE5), a long-name record (attribute 0x0F)
/// or a volume label (attribute 0x08) is kept, whatever its other attribute
/// bits: its entry has the record's attribute byte, the cluster from bytes
/// 20..22 (high half) and 26..28 (low half), the size from bytes 28..32, and
/// the record's 8.3 name.
pub proof fn lemma_record_kept(raw: Seq<u8>)
    requires
        raw.len() >= 32,
        raw[0] != 0x00,
        raw[0] != 0xE5,
        raw[11] != 0x0F,
        raw[11] != 0x08,
    ensures
        dir_entry_of(raw) matches Some(e) && e.attr == raw[11] && e.cluster == (raw[20] + 0x100
            * raw[21]) * 0x1_0000 + raw[26] + 0x100 * raw[27] && e.size == raw[28] + 0x100 * raw[29]
            + 0x1_0000 * raw[30] + 0x100_0000 * raw[31] && e.name == short_name_of(
            raw.subrange(0, 11),
        ),
{
}

/// End markers, deleted records, long-name records, volume labels and
/// records shorter than 32 bytes give no entry.
pub proof fn lemma_record_dropped(raw: Seq<u8>)
    requires
        raw.len() < 32 || raw[0] == 0x00 || raw[0] == 0xE5 || raw[11] == 0x0F || raw[11] == 0x08,
    ensures
        dir_entry_of(raw) is None,
{
}


/// A character's code with ASCII upper-case letters mapped to lower case.
pub open spec fn fold_case(c: char) -> u32 {
    let v = c as u32;
    if 65 <= v <= 90 {
        (v + 32) as u32
    } else {
        v
    }
}

/// Whether two names are equal when ASCII letters are compared without case.
pub open spec fn same_name_ignoring_ascii_case(a: Seq<char>, b: Seq<char>) -> bool {
    a.len() == b.len() && forall|i: int| 0 <= i < a.len() ==> fold_case(a[i]) == fold_case(b[i])
}

fn fold_char(c: char) -> (r: u32)
    ensures
        r == fold_case(c),
{
    let v = c as u32;
    if v >= 65 && v <= 90 {
        v + 32
    } else {
        v
    }
}

/// Compares two names, treating ASCII letters without regard to case.
pub fn eq_ignore_ascii_case(a: &str, b: &str) -> (r: bool)
    ensures
        r == same_name_ignoring_ascii_case(a@, b@),
{
    let n = a.unicode_len();
    if n != b.unicode_len() {
        return false;
    }
    let mut i: usize = 0;
    while i < n
        invariant
            n == a@.len() == b@.len(),
            i <= n,
            forall|j: int| 0 <= j < i ==> fold_case(a@[j]) == fold_case(b@[j]),
        decreases n - i,
    {
        if fold_char(a.get_char(i)) != fold_char(b.get_char(i)) {
            return false;
        }
        i = i + 1;
    }
    true
}

} // verus!
