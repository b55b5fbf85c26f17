//! The GRF archive format: a header, a zlib-packed file table, and entries
//! stored deflated, some of them run through the block cipher first.
use vstd::prelude::*;
use vstd::slice::{slice_subrange, slice_to_vec};
use vstd::utf8::encode_utf8;
use crate::des::{cycle, decrypt_header, decrypt_mixed, has_plain_extension, header_decrypted, is_digit_count, lemma_digit_count_of_u32, lemma_digit_count_unique, mixed_decrypted};
use crate::ascii::{ascii_lower, starts_with, starts_with_bytes};
use crate::fnv::{concat_chunks, fnv, fnv1a64};
use crate::text::{hex_digits, hex_padded, push_hex, push_hex_padded};
use crate::zlib::{zlib_inflate, zlib_inflated};
use crate::keyed::{is_last_with_key, last_wins, lemma_has_last, lemma_last_wins, KeyedIndex};
use crate::text::push_char;

verus! {

/// Bytes before the entries' data and the file table, which positions and
/// the table offset count from.
pub const HEADER_LEN: usize = 46;

/// Stored compressed only, no DES.
pub const FLAG_FILE: u8 = 1;

/// DES over the first 20 blocks only.
pub const FLAG_ENCRYPT_HEADER: u8 = 2;

/// DES over the header blocks, then one block in every cycle.
pub const FLAG_ENCRYPT_MIXED: u8 = 3;

/// Same as [`FLAG_ENCRYPT_MIXED`], seen on older archives.
pub const FLAG_ENCRYPT_MIXED_ALT: u8 = 5;

/// The little-endian `u32` at offset `o` of `s`.
pub open spec fn le_u32(s: Seq<u8>, o: int) -> u32 {
    (s[o] + 0x100 * s[o + 1] + 0x1_0000 * s[o + 2] + 0x100_0000 * s[o + 3]) as u32
}

/// The little-endian `u64` at offset `o` of `s`.
pub open spec fn le_u64(s: Seq<u8>, o: int) -> u64 {
    (le_u32(s, o) + 0x1_0000_0000 * le_u32(s, o + 4)) as u64
}

pub fn read_u32(s: &[u8], o: usize) -> (r: u32)
    requires
        o + 4 <= s.len(),
    ensures
        r == le_u32(s@, o as int),
{
    s[o] as u32 + 0x100 * (s[o + 1] as u32) + 0x1_0000 * (s[o + 2] as u32) + 0x100_0000 * (s[o + 3] as u32)
}

pub fn read_u64(s: &[u8], o: usize) -> (r: u64)
    requires
        o + 8 <= s.len(),
    ensures
        r == le_u64(s@, o as int),
{
    read_u32(s, o) as u64 + 0x1_0000_0000 * (read_u32(s, o + 4) as u64)
}

/// How a lookup key spells a byte: `\` becomes `/`, ASCII letters fold to
/// lower case, every other byte stays.
pub open spec fn normalize_byte(b: u8) -> u8 {
    if b == 0x5c {
        0x2f
    } else {
        ascii_lower(b)
    }
}

/// The lookup key of a path.
pub open spec fn normalized(name: Seq<u8>) -> Seq<u8> {
    name.map_values(|b: u8| normalize_byte(b))
}

/// The lookup key of a path: `\` separators turned into `/`, ASCII letters
/// folded to lower case, every other byte (those of CP949 names included)
/// left as it is.
pub fn normalize(name: &[u8]) -> (r: Vec<u8>)
    ensures
        r@ == normalized(name@),
{
    let mut out: Vec<u8> = Vec::with_capacity(name.len());
    let mut i: usize = 0;
    while i < name.len()
        invariant
            i <= name@.len(),
            out@ == normalized(name@.take(i as int)),
        decreases name@.len() - i,
    {
        let b = name[i];
        let n = if b == 0x5c {
            0x2f
        } else if 0x41 <= b && b <= 0x5a {
            b + 0x20
        } else {
            b
        };
        out.push(n);
        assert(normalized(name@.take(i + 1)) =~= normalized(name@.take(i as int)).push(n));
        i += 1;
    }
    assert(name@.take(i as int) =~= name@);
    out
}

/// The bytes read as Latin-1: one character per byte, of the same value.
pub open spec fn mojibake(name: Seq<u8>) -> Seq<char> {
    name.map_values(|b: u8| b as char)
}

/// The name as a client that mistook it for Latin-1 spells it: each byte
/// becomes the character of the same value.
pub fn to_mojibake(name: &[u8]) -> (r: String)
    ensures
        r@ == mojibake(name@),
{
    let mut out = String::new();
    let mut i: usize = 0;
    while i < name.len()
        invariant
            i <= name@.len(),
            out@ == mojibake(name@.take(i as int)),
        decreases name@.len() - i,
    {
        let c = name[i] as char;
        push_char(&mut out, c);
        assert(mojibake(name@.take(i + 1)) =~= mojibake(name@.take(i as int)).push(c));
        i += 1;
    }
    assert(name@.take(i as int) =~= name@);
    out
}

/// Mapping the characters of a mojibake name back to bytes recovers the name.
pub proof fn law_mojibake_reversible(name: Seq<u8>)
    ensures
        mojibake(name).map_values(|c: char| c as u8) == name,
{
    assert(mojibake(name).map_values(|c: char| c as u8) =~= name);
}

/// Normalizing a normalized key changes nothing.
pub proof fn law_normalize_idempotent(name: Seq<u8>)
    ensures
        normalized(normalized(name)) == normalized(name),
        normalized(name).len() == name.len(),
{
    assert(normalized(normalized(name)) =~= normalized(name));
}

/// What `encoding_rs::EUC_KR.decode` makes of the bytes: the decoded text and
/// whether a malformed sequence had to be replaced.
pub uninterp spec fn euc_kr_decoded(bytes: Seq<u8>) -> (Seq<char>, bool);

/// Calls `encoding_rs::Encoding::decode` on `EUC_KR`, which sniffs a UTF-8 or
/// UTF-16 byte order mark before decoding and replaces malformed sequences.
/// The contract claims only that the text and the error flag it returns are a
/// function of the input bytes, named `euc_kr_decoded`. The call panics only
/// when its output buffer size overflows `usize`, which the length bound rules
/// out.
#[verifier::external_body]
fn euc_kr_decode(bytes: &[u8]) -> (r: (String, bool))
    requires
        bytes@.len() <= usize::MAX / 4,
    ensures
        (r.0@, r.1) == euc_kr_decoded(bytes@),
{
    let (text, _, had_errors) = encoding_rs::EUC_KR.decode(bytes);
    (text.into_owned(), had_errors)
}

/// The Korean reading of a name: its CP949 decoding, when that has no error.
/// Names longer than a quarter of the address space are not decoded.
pub open spec fn cp949_name(name: Seq<u8>) -> Option<Seq<char>> {
    if name.len() > usize::MAX / 4 || euc_kr_decoded(name).1 {
        None
    } else {
        Some(euc_kr_decoded(name).0)
    }
}

/// The name decoded as CP949 (EUC-KR), or `None` when it is not valid there.
pub fn decode_cp949(name: &[u8]) -> (r: Option<String>)
    ensures
        r matches Some(s) ==> cp949_name(name@) == Some(s@),
        r is None ==> cp949_name(name@) is None,
{
    if name.len() > usize::MAX / 4 {
        return None;
    }
    let (decoded, had_errors) = euc_kr_decode(name);
    if had_errors {
        None
    } else {
        Some(decoded)
    }
}

/// Whether a name holds a byte outside ASCII.
pub open spec fn has_high_byte(name: Seq<u8>) -> bool {
    exists|i: int| 0 <= i < name.len() && name[i] >= 0x80
}

/// The keys an entry is indexed under, in the order they are inserted: for a
/// name with bytes outside ASCII, its Latin-1 reading and, when it decodes,
/// its Korean reading; then the name itself. Each key is normalized UTF-8.
pub open spec fn entry_keys(name: Seq<u8>) -> Seq<Seq<u8>> {
    if has_high_byte(name) {
        let moji = normalized(encode_utf8(mojibake(name)));
        match cp949_name(name) {
            Some(korean) => seq![moji, normalized(encode_utf8(korean)), normalized(name)],
            None => seq![moji, normalized(name)],
        }
    } else {
        seq![normalized(name)]
    }
}

/// One entry of the file table.
#[derive(Debug)]
pub struct Entry<'a> {
    pub name: &'a [u8],
    pack_size: u32,
    length_aligned: u32,
    real_size: u32,
    flags: u8,
    position: u64,
}

/// The fields of an entry.
pub struct EntryView {
    pub name: Seq<u8>,
    pub pack_size: u32,
    pub length_aligned: u32,
    pub real_size: u32,
    pub flags: u8,
    pub position: u64,
}

impl<'a> View for Entry<'a> {
    type V = EntryView;

    closed spec fn view(&self) -> EntryView {
        EntryView {
            name: self.name@,
            pack_size: self.pack_size,
            length_aligned: self.length_aligned,
            real_size: self.real_size,
            flags: self.flags,
            position: self.position,
        }
    }
}

pub open spec fn entry_opt_view(e: Option<Entry>) -> Option<EntryView> {
    match e {
        Some(e) => Some(e@),
        None => None,
    }
}

/// Bytes of metadata after each name's terminating zero.
pub open spec fn meta_len(version: u32) -> int {
    if version == 0x300 {
        21
    } else {
        17
    }
}

/// The first zero byte of `t` at or after `at`, or `t.len()` when there is none.
pub open spec fn name_end(t: Seq<u8>, at: int) -> int
    decreases t.len() - at,
{
    if at < 0 || at >= t.len() {
        t.len() as int
    } else if t[at] == 0 {
        at
    } else {
        name_end(t, at + 1)
    }
}

/// Whether a whole entry starts at `at`: a terminated name, then its metadata.
pub open spec fn entry_fits(t: Seq<u8>, version: u32, at: int) -> bool {
    0 <= at <= t.len() && name_end(t, at) < t.len() && name_end(t, at) + 1 + meta_len(version) <= t.len()
}

/// Where the entry after the one at `at` starts.
pub open spec fn next_entry(t: Seq<u8>, version: u32, at: int) -> int {
    name_end(t, at) + 1 + meta_len(version)
}

/// The entry of the table `t` that starts at `at`, if one fits there.
pub open spec fn entry_view_at(t: Seq<u8>, version: u32, at: int) -> Option<EntryView> {
    if entry_fits(t, version, at) {
        let m = name_end(t, at) + 1;
        Some(EntryView {
            name: t.subrange(at, name_end(t, at)),
            pack_size: le_u32(t, m),
            length_aligned: le_u32(t, m + 4),
            real_size: le_u32(t, m + 8),
            flags: t[m + 12],
            position: if version == 0x300 { le_u64(t, m + 13) } else { le_u32(t, m + 13) as u64 },
        })
    } else {
        None
    }
}

proof fn lemma_name_end(t: Seq<u8>, at: int)
    requires
        0 <= at <= t.len(),
    ensures
        at <= name_end(t, at) <= t.len(),
        forall|i: int| at <= i < name_end(t, at) ==> t[i] != 0,
        name_end(t, at) < t.len() ==> t[name_end(t, at)] == 0,
    decreases t.len() - at,
{
    if at < t.len() && t[at] != 0 {
        lemma_name_end(t, at + 1);
    }
}

/// The offsets of the entries, read one after the other from `at` until one
/// does not fit.
pub open spec fn walk(t: Seq<u8>, version: u32, at: int) -> Seq<int>
    decreases t.len() - at,
{
    if entry_fits(t, version, at) && at < next_entry(t, version, at) <= t.len() {
        seq![at] + walk(t, version, next_entry(t, version, at))
    } else {
        Seq::empty()
    }
}

/// The entry at `at` of `table`, if one fits there.
pub fn parse_entry<'a>(table: &'a [u8], version: u32, at: usize) -> (r: Option<Entry<'a>>)
    ensures
        entry_opt_view(r) == entry_view_at(table@, version, at as int),
        r matches Some(e) ==> at + e@.name.len() + 1 + meta_len(version) <= table@.len(),
{
    let ghost t = table@;
    if at > table.len() {
        return None;
    }
    proof {
        lemma_name_end(t, at as int);
    }
    let mut z = at;
    while z < table.len() && table[z] != 0
        invariant
            at <= z <= t.len(),
            t == table@,
            name_end(t, z as int) == name_end(t, at as int),
        decreases t.len() - z,
    {
        z += 1;
    }
    if z >= table.len() {
        return None;
    }
    let ml: usize = if version == 0x300 { 21 } else { 17 };
    if table.len() - (z + 1) < ml {
        return None;
    }
    let m = z + 1;
    let name = slice_subrange(table, at, z);
    let position = if version == 0x300 { read_u64(table, m + 13) } else { read_u32(table, m + 13) as u64 };
    let e = Entry {
        name,
        pack_size: read_u32(table, m),
        length_aligned: read_u32(table, m + 4),
        real_size: read_u32(table, m + 8),
        flags: table[m + 12],
        position,
    };
    Some(e)
}

/// The name of the entry at `at`.
pub open spec fn name_at(t: Seq<u8>, at: int) -> Seq<u8> {
    t.subrange(at, name_end(t, at))
}

/// The index insertions for the entries at the offsets `offs`, in order: each
/// of an entry's keys, paired with its offset.
pub open spec fn index_records(t: Seq<u8>, offs: Seq<int>) -> Seq<(Seq<u8>, u32)>
    decreases offs.len(),
{
    if offs.len() == 0 {
        Seq::empty()
    } else {
        index_records(t, offs.drop_last()) + entry_keys(name_at(t, offs.last())).map_values(
            |k: Seq<u8>| (k, offs.last() as u32),
        )
    }
}

/// The lookup table of a file table: each key maps to the offset of the last
/// entry indexed under it.
pub open spec fn index_map(t: Seq<u8>, version: u32) -> Map<Seq<u8>, u32> {
    last_wins(index_records(t, walk(t, version, 0)))
}

proof fn lemma_walk_step(t: Seq<u8>, version: u32, at: int)
    requires
        0 <= at <= t.len(),
    ensures
        entry_fits(t, version, at) ==> walk(t, version, at) == seq![at] + walk(t, version, next_entry(t, version, at)),
        entry_fits(t, version, at) ==> at < next_entry(t, version, at) <= t.len(),
        !entry_fits(t, version, at) ==> walk(t, version, at) == Seq::<int>::empty(),
{
    lemma_name_end(t, at);
}

fn has_high_byte_exec(name: &[u8]) -> (r: bool)
    ensures
        r == has_high_byte(name@),
{
    let mut i: usize = 0;
    while i < name.len()
        invariant
            i <= name@.len(),
            forall|k: int| 0 <= k < i ==> name@[k] < 0x80,
        decreases name@.len() - i,
    {
        if name[i] >= 0x80 {
            return true;
        }
        i += 1;
    }
    false
}

/// Insert each key of the entry named `name` at offset `at`.
fn insert_entry_keys(index: &mut KeyedIndex<u32>, name: &[u8], at: u32)
    ensures
        final(index).entries() == old(index).entries() + entry_keys(name@).map_values(|k: Seq<u8>| (k, at)),
{
    let ghost keys = entry_keys(name@);
    if has_high_byte_exec(name) {
        let moji = to_mojibake(name);
        index.insert(normalize(moji.as_str().as_bytes()), at);
        match decode_cp949(name) {
            Some(korean) => {
                index.insert(normalize(korean.as_str().as_bytes()), at);
            },
            None => {},
        }
    }
    index.insert(normalize(name), at);
    assert(index.entries() =~= old(index).entries() + keys.map_values(|k: Seq<u8>| (k, at)));
}

/// Walk the file table, index every entry under each of its keys, and count
/// the entries.
fn build_index(table: &[u8], version: u32) -> (r: (KeyedIndex<u32>, usize))
    ensures
        r.0.entries() == index_records(table@, walk(table@, version, 0)),
        r.1 == walk(table@, version, 0).len(),
{
    let ghost t = table@;
    let mut index: KeyedIndex<u32> = KeyedIndex::new();
    let mut at: usize = 0;
    let mut count: usize = 0;
    let ghost mut offs: Seq<int> = Seq::empty();
    assert(walk(t, version, 0) =~= offs + walk(t, version, 0));
    loop
        invariant
            t == table@,
            t.len() == table.len(),
            at <= t.len(),
            walk(t, version, 0) == offs + walk(t, version, at as int),
            index.entries() == index_records(t, offs),
            count == offs.len(),
            count <= at,
        ensures
            index.entries() == index_records(t, walk(t, version, 0)),
            count == walk(t, version, 0).len(),
        decreases t.len() - at,
    {
        proof {
            lemma_walk_step(t, version, at as int);
            lemma_name_end(t, at as int);
        }
        match parse_entry(table, version, at) {
            Some(entry) => {
                let ghost next = next_entry(t, version, at as int);
                let ghost before = index.entries();
                assert(entry.name@ == entry@.name);
                insert_entry_keys(&mut index, entry.name, at as u32);
                proof {
                    assert(entry@.name == name_at(t, at as int));
                    let offs2 = offs.push(at as int);
                    assert(offs2.drop_last() =~= offs);
                    assert(index_records(t, offs2) == index_records(t, offs) + entry_keys(name_at(t, at as int)).map_values(
                        |k: Seq<u8>| (k, at as u32),
                    ));
                    assert(offs2 + walk(t, version, next) =~= offs + (seq![at as int] + walk(t, version, next)));
                    offs = offs2;
                }
                assert(at + entry.name@.len() + 1 + meta_len(version) <= t.len());
                let step: usize = if version == 0x300 { 21 } else { 17 };
                assert(entry_fits(t, version, at as int));
                assert(entry_view_at(t, version, at as int) == Some(entry@));
                assert(entry@.name == t.subrange(at as int, name_end(t, at as int)));
                assert(entry.name@.len() == name_end(t, at as int) - at);
                at = at + entry.name.len() + 1 + step;
                assert(at == next);
                count += 1;
            },
            None => {
                assert(offs + walk(t, version, at as int) =~= offs);
                break;
            },
        }
    }
    (index, count)
}

/// Why an archive or one of its entries could not be read.
#[derive(Debug, PartialEq, Eq, Structural)]
pub enum GrfError {
    /// The data ends before a header, size pair or file table it should hold.
    Truncated,
    /// The signature is neither "Master of Magic" nor "Event Horizon".
    NotGrf,
    /// A version other than 0x200 and 0x300.
    UnsupportedVersion(u32),
    /// The file table offset lies past the end of the file.
    TableOffsetPastEnd { offset: u64, file_len: u64 },
    /// The file table sizes are zero.
    EmptyTable { pack_size: u32, real_size: u32 },
    /// The file table is not a valid zlib stream.
    CorruptTable,
    /// The file table inflated to another size than the header promised.
    TableSizeMismatch { inflated: usize, promised: u32 },
    /// The file table lists another number of entries than the header claims.
    EntryCountMismatch { walked: u64, claimed: u64 },
    /// An entry's data lies outside the archive.
    OutOfBounds { position: u64, len: u32 },
    /// An entry with these flags needs a custom decryption key.
    CustomKey { flags: u8 },
    /// An entry's data is not a valid zlib stream.
    CorruptEntry,
    /// An entry inflated to another size than its header promised.
    EntrySizeMismatch { inflated: usize, promised: u32 },
}

/// "Master of Magic", the usual signature.
pub open spec fn master_of_magic() -> Seq<u8> {
    seq![0x4du8, 0x61, 0x73, 0x74, 0x65, 0x72, 0x20, 0x6f, 0x66, 0x20, 0x4d, 0x61, 0x67, 0x69, 0x63]
}

/// "Event Horizon", the other accepted signature.
pub open spec fn event_horizon() -> Seq<u8> {
    seq![0x45u8, 0x76, 0x65, 0x6e, 0x74, 0x20, 0x48, 0x6f, 0x72, 0x69, 0x7a, 0x6f, 0x6e]
}

pub open spec fn has_signature(d: Seq<u8>) -> bool {
    starts_with(d, master_of_magic()) || starts_with(d, event_horizon())
}

/// `x - y`, or zero when `y` is larger.
pub open spec fn saturating_sub(x: u64, y: u64) -> u64 {
    if x >= y {
        (x - y) as u64
    } else {
        0
    }
}

/// The eight little-endian bytes of `x`.
pub open spec fn le_bytes(x: u64) -> Seq<u8> {
    seq![
        (x % 0x100) as u8,
        (x / 0x100 % 0x100) as u8,
        (x / 0x1_0000 % 0x100) as u8,
        (x / 0x100_0000 % 0x100) as u8,
        (x / 0x1_0000_0000 % 0x100) as u8,
        (x / 0x100_0000_0000 % 0x100) as u8,
        (x / 0x1_0000_0000_0000 % 0x100) as u8,
        (x / 0x100_0000_0000_0000 % 0x100) as u8,
    ]
}

/// The eight little-endian bytes of `x`.
pub fn to_le_bytes(x: u64) -> (r: [u8; 8])
    ensures
        r@ == le_bytes(x),
{
    let r = [
        (x % 0x100) as u8,
        (x / 0x100 % 0x100) as u8,
        (x / 0x1_0000 % 0x100) as u8,
        (x / 0x100_0000 % 0x100) as u8,
        (x / 0x1_0000_0000 % 0x100) as u8,
        (x / 0x100_0000_0000 % 0x100) as u8,
        (x / 0x1_0000_0000_0000 % 0x100) as u8,
        (x / 0x100_0000_0000_0000 % 0x100) as u8,
    ];
    assert(r@ =~= le_bytes(x));
    r
}

/// What an archive holds once opened.
pub struct ArchiveView {
    /// Stable identity of the archive: sixteen hex digits of the FNV-1a hash
    /// of the header, the packed file table, and the mtime and length of the
    /// file, each little-endian.
    pub id: Seq<char>,
    pub version: u32,
    pub real_file_count: u64,
    /// The inflated file table.
    pub table: Seq<u8>,
    /// The bytes of the archive file it was opened from, which its entries'
    /// data is read out of.
    pub file: Seq<u8>,
}

/// The identity of an archive file.
pub open spec fn archive_id(d: Seq<u8>, compressed: Seq<u8>, mtime: u64) -> Seq<char> {
    hex_padded(fnv(d.take(46) + compressed + le_bytes(mtime) + le_bytes(d.len() as u64)) as nat, 16)
}

/// The offset of the file table, counted from the end of the header.
pub open spec fn table_offset(d: Seq<u8>, version: u32) -> u64 {
    if version == 0x200 {
        le_u32(d, 30) as u64
    } else {
        le_u64(d, 30)
    }
}

/// How many entries the header claims: the file count, less the seed count
/// and seven for version 0x200.
pub open spec fn claimed_file_count(d: Seq<u8>, version: u32) -> u64 {
    if version == 0x200 {
        saturating_sub(saturating_sub(le_u32(d, 38) as u64, le_u32(d, 34) as u64), 7)
    } else {
        le_u32(d, 38) as u64
    }
}

/// Where the file table's sizes are stored: after the header, at the table
/// offset (four bytes further on for version 0x300).
pub open spec fn sizes_at(d: Seq<u8>) -> int {
    let version = le_u32(d, 42);
    46 + table_offset(d, version) + if version == 0x300 { 4int } else { 0int }
}

/// The packed file table.
pub open spec fn packed_table(d: Seq<u8>) -> Seq<u8> {
    d.subrange(sizes_at(d) + 8, sizes_at(d) + 8 + le_u32(d, sizes_at(d)))
}

/// The error the header of `d` gives, if any.
pub open spec fn header_error(d: Seq<u8>) -> Option<GrfError> {
    let version = le_u32(d, 42);
    if d.len() < 46 {
        Some(GrfError::Truncated)
    } else if !has_signature(d) {
        Some(GrfError::NotGrf)
    } else if version != 0x200 && version != 0x300 {
        Some(GrfError::UnsupportedVersion(version))
    } else {
        None
    }
}

/// The error locating the packed file table gives, if any.
pub open spec fn table_location_error(d: Seq<u8>) -> Option<GrfError> {
    let offset = table_offset(d, le_u32(d, 42));
    let sizes = sizes_at(d);
    let pack_size = le_u32(d, sizes);
    let real_size = le_u32(d, sizes + 4);
    if 46 + offset > d.len() {
        Some(GrfError::TableOffsetPastEnd { offset, file_len: d.len() as u64 })
    } else if sizes + 8 > d.len() {
        Some(GrfError::Truncated)
    } else if pack_size == 0 || real_size == 0 {
        Some(GrfError::EmptyTable { pack_size, real_size })
    } else if sizes + 8 + pack_size > d.len() {
        Some(GrfError::Truncated)
    } else {
        None
    }
}

/// What a packed file table gives, for an archive of this version whose
/// header promises `real_size` bytes of table and `claimed` entries, whose
/// identity is `id`, and whose file holds `file`.
pub open spec fn loaded_table(packed: Seq<u8>, version: u32, real_size: u32, claimed: u64, id: Seq<char>, file: Seq<u8>) -> Result<ArchiveView, GrfError> {
    match zlib_inflated(packed) {
        None => Err(GrfError::CorruptTable),
        Some(table) => if table.len() != real_size {
            Err(GrfError::TableSizeMismatch { inflated: table.len() as usize, promised: real_size })
        } else if walk(table, version, 0).len() != claimed {
            Err(GrfError::EntryCountMismatch { walked: walk(table, version, 0).len() as u64, claimed })
        } else {
            Ok(ArchiveView { id, version, real_file_count: claimed, table, file })
        },
    }
}

/// What the packed file table, once located, gives.
pub open spec fn table_outcome(d: Seq<u8>, mtime: u64) -> Result<ArchiveView, GrfError> {
    let version = le_u32(d, 42);
    loaded_table(
        packed_table(d),
        version,
        le_u32(d, sizes_at(d) + 4),
        claimed_file_count(d, version),
        archive_id(d, packed_table(d), mtime),
        d,
    )
}

/// What opening the archive whose file holds `d`, last modified at `mtime`,
/// gives: the first of the header, table location and table errors, or the
/// archive.
pub open spec fn open_outcome(d: Seq<u8>, mtime: u64) -> Result<ArchiveView, GrfError> {
    match header_error(d) {
        Some(e) => Err(e),
        None => match table_location_error(d) {
            Some(e) => Err(e),
            None => table_outcome(d, mtime),
        },
    }
}

fn check_header(data: &[u8]) -> (r: Result<u32, GrfError>)
    ensures
        match r {
            Ok(v) => header_error(data@) is None && v == le_u32(data@, 42),
            Err(e) => header_error(data@) == Some(e),
        },
{
    if data.len() < HEADER_LEN {
        return Err(GrfError::Truncated);
    }
    let master: [u8; 15] = [0x4d, 0x61, 0x73, 0x74, 0x65, 0x72, 0x20, 0x6f, 0x66, 0x20, 0x4d, 0x61, 0x67, 0x69, 0x63];
    let event: [u8; 13] = [0x45, 0x76, 0x65, 0x6e, 0x74, 0x20, 0x48, 0x6f, 0x72, 0x69, 0x7a, 0x6f, 0x6e];
    assert(master@ =~= master_of_magic());
    assert(event@ =~= event_horizon());
    if !starts_with_bytes(data, master.as_slice()) && !starts_with_bytes(data, event.as_slice()) {
        return Err(GrfError::NotGrf);
    }
    let version = read_u32(data, 42);
    if version != 0x200 && version != 0x300 {
        return Err(GrfError::UnsupportedVersion(version));
    }
    Ok(version)
}

/// Find the packed file table: where its sizes are, and the sizes.
fn locate_table(data: &[u8], version: u32) -> (r: Result<(usize, u32, u32), GrfError>)
    requires
        header_error(data@) is None,
        version == le_u32(data@, 42),
    ensures
        match r {
            Ok((sizes, pack_size, real_size)) => {
                &&& table_location_error(data@) is None
                &&& sizes + 8 + pack_size <= data@.len()
                &&& sizes == sizes_at(data@)
                &&& pack_size == le_u32(data@, sizes as int)
                &&& real_size == le_u32(data@, sizes + 4)
            },
            Err(e) => table_location_error(data@) == Some(e),
        },
{
    let table_offset = if version == 0x200 { read_u32(data, 30) as u64 } else { read_u64(data, 30) };
    let file_len = data.len() as u64;
    if table_offset > file_len - 46 {
        return Err(GrfError::TableOffsetPastEnd { offset: table_offset, file_len });
    }
    let base = 46 + table_offset as usize;
    let skip: usize = if version == 0x300 { 4 } else { 0 };
    if data.len() - base < skip + 8 {
        return Err(GrfError::Truncated);
    }
    let sizes = base + skip;
    let pack_size = read_u32(data, sizes);
    let real_size = read_u32(data, sizes + 4);
    if pack_size == 0 || real_size == 0 {
        return Err(GrfError::EmptyTable { pack_size, real_size });
    }
    if data.len() - (sizes + 8) < pack_size as usize {
        return Err(GrfError::Truncated);
    }
    Ok((sizes, pack_size, real_size))
}

/// How many entries the header of `data` claims.
fn file_count(data: &[u8], version: u32) -> (r: u64)
    requires
        data@.len() >= 46,
    ensures
        r == claimed_file_count(data@, version),
{
    let file_count = read_u32(data, 38) as u64;
    if version == 0x200 {
        file_count.saturating_sub(read_u32(data, 34) as u64).saturating_sub(7)
    } else {
        file_count
    }
}

/// The identity of the archive file: [`archive_id`].
fn identify(data: &[u8], compressed: &[u8], mtime: u64) -> (id: String)
    requires
        data@.len() >= 46,
    ensures
        id@ == archive_id(data@, compressed@, mtime),
{
    let header = slice_subrange(data, 0, 46);
    let mtime_bytes = to_le_bytes(mtime);
    let len_bytes = to_le_bytes(data.len() as u64);
    let chunks: [&[u8]; 4] = [header, compressed, mtime_bytes.as_slice(), len_bytes.as_slice()];
    let hash = fnv1a64(chunks.as_slice());
    proof {
        reveal_with_fuel(Seq::flatten, 5);
        assert(concat_chunks(chunks@) =~= data@.take(46) + compressed@ + le_bytes(mtime) + le_bytes(data@.len() as u64));
    }
    let mut id = String::new();
    push_hex_padded(&mut id, hash, 16);
    id
}

pub struct Archive {
    id: String,
    version: u32,
    real_file_count: u64,
    table: Vec<u8>,
    index: KeyedIndex<u32>,
    file: Ghost<Seq<u8>>,
}

impl View for Archive {
    type V = ArchiveView;

    closed spec fn view(&self) -> ArchiveView {
        ArchiveView {
            id: self.id@,
            version: self.version,
            real_file_count: self.real_file_count,
            table: self.table@,
            file: self.file@,
        }
    }
}

impl Archive {
    #[verifier::type_invariant]
    spec fn inv(self) -> bool {
        &&& self.version == 0x200 || self.version == 0x300
        &&& self.index.entries() == index_records(self.table@, walk(self.table@, self.version, 0))
    }

    /// Inflate the packed file table and index its entries, checking the
    /// table's size and entry count against what the header promised.
    fn load_table(compressed: &[u8], version: u32, real_size: u32, claimed: u64) -> (r: Result<(Vec<u8>, KeyedIndex<u32>), GrfError>)
        requires
            version == 0x200 || version == 0x300,
        ensures
            match r {
                Ok((table, index)) => {
                    &&& zlib_inflated(compressed@) == Some(table@)
                    &&& table@.len() == real_size
                    &&& walk(table@, version, 0).len() == claimed
                    &&& index.entries() == index_records(table@, walk(table@, version, 0))
                },
                Err(e) => match zlib_inflated(compressed@) {
                    None => e == GrfError::CorruptTable,
                    Some(table) => if table.len() != real_size {
                        e == (GrfError::TableSizeMismatch { inflated: table.len() as usize, promised: real_size })
                    } else {
                        &&& walk(table, version, 0).len() != claimed
                        &&& e == (GrfError::EntryCountMismatch { walked: walk(table, version, 0).len() as u64, claimed })
                    },
                },
            },
    {
        let table = match zlib_inflate(compressed) {
            Ok(table) => table,
            Err(_) => return Err(GrfError::CorruptTable),
        };
        if table.len() != real_size as usize {
            return Err(GrfError::TableSizeMismatch { inflated: table.len(), promised: real_size });
        }
        let (index, walked) = build_index(table.as_slice(), version);
        if walked as u64 != claimed {
            return Err(GrfError::EntryCountMismatch { walked: walked as u64, claimed });
        }
        Ok((table, index))
    }

    /// Open the archive whose file holds `data` and was last modified at
    /// `mtime` (seconds since the Unix epoch): check the header, inflate the
    /// file table and index its entries.
    pub fn open(data: &[u8], mtime: u64) -> (r: Result<Archive, GrfError>)
        ensures
            match r {
                Ok(a) => open_outcome(data@, mtime) == Ok::<ArchiveView, GrfError>(a@),
                Err(e) => open_outcome(data@, mtime) == Err::<ArchiveView, GrfError>(e),
            },
    {
        let version = match check_header(data) {
            Ok(v) => v,
            Err(e) => return Err(e),
        };
        let (sizes, pack_size, real_size) = match locate_table(data, version) {
            Ok(t) => t,
            Err(e) => return Err(e),
        };
        Self::open_located(data, mtime, version, sizes, pack_size, real_size)
    }

    /// The rest of `open`, once the header checked out and the packed table
    /// was found at `sizes`.
    fn open_located(data: &[u8], mtime: u64, version: u32, sizes: usize, pack_size: u32, real_size: u32) -> (r: Result<Archive, GrfError>)
        requires
            data@.len() >= 46,
            version == 0x200 || version == 0x300,
            version == le_u32(data@, 42),
            sizes + 8 + pack_size <= data@.len(),
            sizes == sizes_at(data@),
            pack_size == le_u32(data@, sizes as int),
            real_size == le_u32(data@, sizes + 4),
        ensures
            match r {
                Ok(a) => table_outcome(data@, mtime) == Ok::<ArchiveView, GrfError>(a@),
                Err(e) => table_outcome(data@, mtime) == Err::<ArchiveView, GrfError>(e),
            },
    {
        let real_file_count = file_count(data, version);
        assert(data@.len() == data.len());
        let compressed = slice_subrange(data, sizes + 8, sizes + 8 + pack_size as usize);
        assert(compressed@ == packed_table(data@));
        Self::open_table(data, compressed, mtime, version, real_size, real_file_count)
    }

    /// The rest of `open`, once the header checked out and the packed table
    /// was found.
    fn open_table(data: &[u8], compressed: &[u8], mtime: u64, version: u32, real_size: u32, claimed: u64) -> (r: Result<Archive, GrfError>)
        requires
            data@.len() >= 46,
            version == 0x200 || version == 0x300,
        ensures
            match r {
                Ok(a) => loaded_table(compressed@, version, real_size, claimed, archive_id(data@, compressed@, mtime), data@) == Ok::<ArchiveView, GrfError>(a@),
                Err(e) => loaded_table(compressed@, version, real_size, claimed, archive_id(data@, compressed@, mtime), data@) == Err::<ArchiveView, GrfError>(e),
            },
    {
        let (table, index) = match Self::load_table(compressed, version, real_size, claimed) {
            Ok(t) => t,
            Err(e) => return Err(e),
        };
        let id = identify(data, compressed, mtime);
        Ok(Archive { id, version, real_file_count: claimed, table, index, file: Ghost(data@) })
    }
}

/// The bytes of `data` an entry at `position` spans over `len` bytes, counted
/// from the end of the header, if they lie inside it.
pub open spec fn entry_bytes(data: Seq<u8>, position: u64, len: u32) -> Option<Seq<u8>> {
    if HEADER_LEN + position + len <= data.len() {
        Some(data.subrange(HEADER_LEN + position, HEADER_LEN + position + len))
    } else {
        None
    }
}

/// What undoing an entry's cipher gives: the bytes over its aligned length,
/// decrypted as its flags say, then cut back to its packed length.
pub open spec fn decrypt_outcome(data: Seq<u8>, e: EntryView) -> Result<Seq<u8>, GrfError> {
    match entry_bytes(data, e.position, e.length_aligned) {
        None => Err(GrfError::OutOfBounds { position: e.position, len: e.length_aligned }),
        Some(stored) => {
            let plain = if e.flags == FLAG_ENCRYPT_HEADER {
                Some(header_decrypted(stored))
            } else if e.flags == FLAG_ENCRYPT_MIXED || e.flags == FLAG_ENCRYPT_MIXED_ALT {
                let scrambled = has_plain_extension(e.name);
                let c = if scrambled { 0int } else { choose|c: int| is_digit_count(c, e.pack_size as int) };
                Some(mixed_decrypted(stored, c, scrambled))
            } else {
                None
            };
            match plain {
                None => Err(GrfError::CustomKey { flags: e.flags }),
                Some(p) => Ok(if e.pack_size <= p.len() { p.subrange(0, e.pack_size as int) } else { p }),
            }
        },
    }
}

/// The zlib stream an entry is stored as: its packed bytes for a plain entry,
/// the decrypted ones otherwise.
pub open spec fn stream_outcome(data: Seq<u8>, e: EntryView) -> Result<Seq<u8>, GrfError> {
    if e.flags == FLAG_FILE {
        match entry_bytes(data, e.position, e.pack_size) {
            Some(b) => Ok(b),
            None => Err(GrfError::OutOfBounds { position: e.position, len: e.pack_size }),
        }
    } else {
        decrypt_outcome(data, e)
    }
}

/// What inflating an entry gives.
pub open spec fn inflate_outcome(data: Seq<u8>, e: EntryView) -> Result<Seq<u8>, GrfError> {
    match stream_outcome(data, e) {
        Err(err) => Err(err),
        Ok(stream) => match zlib_inflated(stream) {
            None => Err(GrfError::CorruptEntry),
            Some(plain) => if plain.len() == e.real_size {
                Ok(plain)
            } else {
                Err(GrfError::EntrySizeMismatch { inflated: plain.len() as usize, promised: e.real_size })
            },
        },
    }
}

/// Whether the archive's file table holds the entry: one starts at some
/// offset and reads as `e`.
pub open spec fn holds_entry(a: ArchiveView, e: EntryView) -> bool {
    exists|at: int| entry_view_at(a.table, a.version, at) == Some(e)
}

/// The entry a lookup of `path` finds in the archive: the one at the offset
/// the index holds for the path's key.
pub open spec fn looked_up(a: ArchiveView, path: Seq<u8>) -> Option<EntryView> {
    let m = index_map(a.table, a.version);
    let key = normalized(path);
    if m.contains_key(key) {
        entry_view_at(a.table, a.version, m[key] as int)
    } else {
        None
    }
}

/// The names of the entries at the offsets `offs`.
pub open spec fn names_at(t: Seq<u8>, offs: Seq<int>) -> Seq<Seq<u8>> {
    offs.map_values(|o: int| name_at(t, o))
}

/// The contents of a list of byte slices.
pub open spec fn slice_views(v: Seq<&[u8]>) -> Seq<Seq<u8>> {
    v.map_values(|n: &[u8]| n@)
}

/// The names of the entries the file table lists, in order.
pub open spec fn listed_names(a: ArchiveView) -> Seq<Seq<u8>> {
    names_at(a.table, walk(a.table, a.version, 0))
}

impl Archive {
    pub fn id(&self) -> (r: &String)
        ensures
            r@ == self@.id,
    {
        &self.id
    }

    pub fn version(&self) -> (r: u32)
        ensures
            r == self@.version,
    {
        self.version
    }

    pub fn real_file_count(&self) -> (r: u64)
        ensures
            r == self@.real_file_count,
    {
        self.real_file_count
    }

    /// The entry that starts at `at` in the file table, if one fits there.
    pub fn entry_at(&self, at: usize) -> (r: Option<Entry<'_>>)
        ensures
            entry_opt_view(r) == entry_view_at(self@.table, self@.version, at as int),
            r matches Some(e) ==> holds_entry(self@, e@),
    {
        parse_entry(self.table.as_slice(), self.version, at)
    }

    /// The entry a path names, found whatever its case and separators.
    pub fn lookup(&self, path: &[u8]) -> (r: Option<Entry<'_>>)
        ensures
            entry_opt_view(r) == looked_up(self@, path@),
            r matches Some(e) ==> holds_entry(self@, e@),
    {
        proof {
            use_type_invariant(self);
        }
        let key = normalize(path);
        match self.index.get(key.as_slice()) {
            Some(at) => parse_entry(self.table.as_slice(), self.version, *at as usize),
            None => None,
        }
    }

    /// Walk the file table, yielding every entry name as stored.
    pub fn names(&self) -> (r: Vec<&[u8]>)
        ensures
            slice_views(r@) == listed_names(self@),
    {
        let ghost t = self.table@;
        let ghost v = self.version;
        let table = self.table.as_slice();
        let mut out: Vec<&[u8]> = Vec::new();
        let mut at: usize = 0;
        let ghost mut offs: Seq<int> = Seq::empty();
        assert(walk(t, v, 0) =~= offs + walk(t, v, 0));
        loop
            invariant
                t == table@,
                t.len() == table.len(),
                v == self.version,
                at <= t.len(),
                walk(t, v, 0) == offs + walk(t, v, at as int),
                slice_views(out@) == names_at(t, offs),
            ensures
                slice_views(out@) == names_at(t, walk(t, v, 0)),
            decreases t.len() - at,
        {
            proof {
                lemma_walk_step(t, v, at as int);
                lemma_name_end(t, at as int);
            }
            match parse_entry(table, self.version, at) {
                Some(entry) => {
                    let ghost next = next_entry(t, v, at as int);
                    assert(entry_view_at(t, v, at as int) == Some(entry@));
                    assert(entry.name@ == name_at(t, at as int));
                    let step: usize = if self.version == 0x300 { 21 } else { 17 };
                    let name = entry.name;
                    let ghost before = out@;
                    out.push(name);
                    proof {
                        let offs2 = offs.push(at as int);
                        assert(out@ == before.push(name));
                        assert(slice_views(before).len() == before.len());
                        assert(names_at(t, offs).len() == offs.len());
                        assert(before.len() == offs.len());
                        assert forall|i: int| 0 <= i < offs2.len() implies #[trigger] slice_views(out@)[i]
                            == names_at(t, offs2)[i] by {
                            if i < offs.len() {
                                assert(out@[i] == before[i]);
                                assert(slice_views(before)[i] == names_at(t, offs)[i]);
                            }
                        }
                        assert(slice_views(out@) =~= names_at(t, offs2));
                        assert(offs2 + walk(t, v, next) =~= offs + (seq![at as int] + walk(t, v, next)));
                        offs = offs2;
                    }
                    at = at + name.len() + 1 + step;
                },
                None => {
                    assert(offs + walk(t, v, at as int) =~= offs);
                    break;
                },
            }
        }
        out
    }

    /// The bytes an entry spans in the archive file `data`, over `len` bytes.
    fn slice<'d>(data: &'d [u8], entry: &Entry, len: u32) -> (r: Option<&'d [u8]>)
        ensures
            match r {
                Some(b) => entry_bytes(data@, entry@.position, len) == Some(b@),
                None => entry_bytes(data@, entry@.position, len) is None,
            },
    {
        let n = data.len();
        if n < HEADER_LEN || entry.position > (n - HEADER_LEN) as u64 {
            return None;
        }
        let start = HEADER_LEN + entry.position as usize;
        if n - start < len as usize {
            return None;
        }
        Some(slice_subrange(data, start, start + len as usize))
    }

    /// The entry's stored bytes, over its packed length, in `data`, the
    /// bytes the archive was opened from.
    pub fn raw<'d>(&self, data: &'d [u8], entry: &Entry) -> (r: Option<&'d [u8]>)
        requires
            data@ == self@.file,
            holds_entry(self@, entry@),
        ensures
            match r {
                Some(b) => entry_bytes(data@, entry@.position, entry@.pack_size) == Some(b@),
                None => entry_bytes(data@, entry@.position, entry@.pack_size) is None,
            },
    {
        Self::slice(data, entry, entry.pack_size)
    }

    /// Undo the DES pass an encrypted entry went through, leaving plain
    /// deflate data trimmed back to its packed length.
    fn decrypt(data: &[u8], entry: &Entry) -> (r: Result<Vec<u8>, GrfError>)
        ensures
            match r {
                Ok(v) => decrypt_outcome(data@, entry@) == Ok::<Seq<u8>, GrfError>(v@),
                Err(e) => decrypt_outcome(data@, entry@) == Err::<Seq<u8>, GrfError>(e),
            },
    {
        // Encrypted entries are stored padded out to a whole number of blocks.
        let stored = match Self::slice(data, entry, entry.length_aligned) {
            Some(b) => b,
            None => return Err(GrfError::OutOfBounds { position: entry.position, len: entry.length_aligned }),
        };
        let mut plain = slice_to_vec(stored);
        if entry.flags == FLAG_ENCRYPT_HEADER {
            decrypt_header(plain.as_mut_slice());
        } else if entry.flags == FLAG_ENCRYPT_MIXED || entry.flags == FLAG_ENCRYPT_MIXED_ALT {
            let (c, is_data_crypted) = cycle(entry.name, entry.pack_size);
            proof {
                if !is_data_crypted {
                    lemma_digit_count_of_u32(c as int, entry.pack_size as int);
                    assert(is_digit_count(c as int, entry@.pack_size as int));
                    lemma_digit_count_unique(c as int, entry@.pack_size as int);
                }
            }
            decrypt_mixed(plain.as_mut_slice(), c, is_data_crypted);
        } else {
            return Err(GrfError::CustomKey { flags: entry.flags });
        }
        plain.truncate(entry.pack_size as usize);
        Ok(plain)
    }

    /// The entry's contents: its zlib stream, read out of `data`, the bytes
    /// the archive was opened from, decrypted first where it needs to be,
    /// inflated and checked against its unpacked size.
    pub fn inflate(&self, data: &[u8], entry: &Entry) -> (r: Result<Vec<u8>, GrfError>)
        requires
            data@ == self@.file,
            holds_entry(self@, entry@),
        ensures
            match r {
                Ok(v) => inflate_outcome(data@, entry@) == Ok::<Seq<u8>, GrfError>(v@),
                Err(e) => inflate_outcome(data@, entry@) == Err::<Seq<u8>, GrfError>(e),
            },
    {
        let decrypted;
        let stream: &[u8] = if entry.flags == FLAG_FILE {
            match Self::slice(data, entry, entry.pack_size) {
                Some(b) => b,
                None => return Err(GrfError::OutOfBounds { position: entry.position, len: entry.pack_size }),
            }
        } else {
            decrypted = match Self::decrypt(data, entry) {
                Ok(v) => v,
                Err(e) => return Err(e),
            };
            decrypted.as_slice()
        };
        let plain = match zlib_inflate(stream) {
            Ok(v) => v,
            Err(_) => return Err(GrfError::CorruptEntry),
        };
        if plain.len() != entry.real_size as usize {
            return Err(GrfError::EntrySizeMismatch { inflated: plain.len(), promised: entry.real_size });
        }
        Ok(plain)
    }

    /// The entry's stored deflate stream, as a range of the archive file
    /// `data` rather than a copy of it. Only for entries the GRF holds in plain
    /// deflate: an encrypted one has to be decrypted first, so there is no
    /// stored range to hand out.
    pub fn raw_if_plain<'d>(&self, data: &'d [u8], entry: &Entry) -> (r: Option<&'d [u8]>)
        requires
            data@ == self@.file,
            holds_entry(self@, entry@),
        ensures
            match r {
                Some(b) => entry@.flags == FLAG_FILE && entry_bytes(data@, entry@.position, entry@.pack_size) == Some(b@),
                None => entry@.flags != FLAG_FILE || entry_bytes(data@, entry@.position, entry@.pack_size) is None,
            },
    {
        if entry.flags != FLAG_FILE {
            return None;
        }
        Self::slice(data, entry, entry.pack_size)
    }
}

impl<'a> Entry<'a> {
    /// The entry's identity within its archive: its position and unpacked size
    /// in lower-case hex, joined by a dash.
    pub fn identity(&self) -> (r: String)
        ensures
            r@ == hex_digits(self@.position as nat) + seq!['-'] + hex_digits(self@.real_size as nat),
    {
        let mut s = String::new();
        push_hex(&mut s, self.position);
        push_char(&mut s, '-');
        push_hex(&mut s, self.real_size as u64);
        s
    }
}

/// Every offset the walk visits holds a whole entry.
proof fn lemma_walk_fits(t: Seq<u8>, version: u32, at: int, j: int)
    requires
        0 <= at <= t.len(),
        0 <= j < walk(t, version, at).len(),
    ensures
        entry_fits(t, version, walk(t, version, at)[j]),
    decreases t.len() - at,
{
    lemma_walk_step(t, version, at);
    if entry_fits(t, version, at) && j > 0 {
        lemma_walk_fits(t, version, next_entry(t, version, at), j - 1);
    }
}

/// Each index record points at one of the offsets it was built from.
proof fn lemma_records_point_into(t: Seq<u8>, offs: Seq<int>, i: int)
    requires
        0 <= i < index_records(t, offs).len(),
    ensures
        exists|q: int| 0 <= q < offs.len() && index_records(t, offs)[i].1 == offs[q] as u32,
    decreases offs.len(),
{
    let init = offs.drop_last();
    let rs = index_records(t, offs);
    let before = index_records(t, init);
    if i < before.len() {
        lemma_records_point_into(t, init, i);
        let q = choose|q: int| 0 <= q < init.len() && before[i].1 == init[q] as u32;
        assert(offs[q] == init[q]);
    } else {
        assert(rs[i].1 == offs.last() as u32);
        assert(offs[offs.len() - 1] == offs.last());
    }
}

/// The index holds a record for every key of every entry it was built from.
proof fn lemma_records_hold_key(t: Seq<u8>, offs: Seq<int>, q: int, m: int)
    requires
        0 <= q < offs.len(),
        0 <= m < entry_keys(name_at(t, offs[q])).len(),
    ensures
        exists|i: int| 0 <= i < index_records(t, offs).len()
            && index_records(t, offs)[i].0 == entry_keys(name_at(t, offs[q]))[m],
    decreases offs.len(),
{
    let init = offs.drop_last();
    let before = index_records(t, init);
    let rs = index_records(t, offs);
    if q < init.len() {
        assert(init[q] == offs[q]);
        lemma_records_hold_key(t, init, q, m);
        let i = choose|i: int| 0 <= i < before.len() && before[i].0 == entry_keys(name_at(t, init[q]))[m];
        assert(rs[i] == before[i]);
    } else {
        let keys = entry_keys(name_at(t, offs.last()));
        assert(rs[before.len() + m].0 == keys[m]);
    }
}

/// A path whose key some entry listed at position `j` is indexed under finds
/// an entry.
proof fn lemma_key_found(a: ArchiveView, j: int, m: int, path: Seq<u8>)
    requires
        a.table.len() <= u32::MAX,
        0 <= j < walk(a.table, a.version, 0).len(),
        0 <= m < entry_keys(name_at(a.table, walk(a.table, a.version, 0)[j])).len(),
        normalized(path) == entry_keys(name_at(a.table, walk(a.table, a.version, 0)[j]))[m],
    ensures
        looked_up(a, path) is Some,
{
    let t = a.table;
    let v = a.version;
    let offs = walk(t, v, 0);
    let rs = index_records(t, offs);
    let key = normalized(path);
    lemma_records_hold_key(t, offs, j, m);
    lemma_has_last(rs, key);
    let i = choose|i: int| is_last_with_key(rs, key, i);
    lemma_last_wins(rs, key);
    lemma_records_point_into(t, offs, i);
    let q = choose|q: int| 0 <= q < offs.len() && rs[i].1 == offs[q] as u32;
    lemma_walk_fits(t, v, 0, q);
    assert(index_map(t, v)[key] == offs[q] as u32);
    assert(offs[q] as u32 as int == offs[q]);
}

/// Every entry the file table lists can be looked up by the name it is stored
/// under.
pub proof fn law_listed_names_found(a: ArchiveView, j: int)
    requires
        a.table.len() <= u32::MAX,
        0 <= j < listed_names(a).len(),
    ensures
        looked_up(a, listed_names(a)[j]) is Some,
{
    let name = name_at(a.table, walk(a.table, a.version, 0)[j]);
    assert(listed_names(a)[j] == name);
    let keys = entry_keys(name);
    lemma_key_found(a, j, keys.len() - 1, name);
}

/// A listed name with bytes outside ASCII can also be looked up by its
/// Latin-1 spelling and, when it decodes, by its Korean reading, both in
/// UTF-8.
pub proof fn law_listed_aliases_found(a: ArchiveView, j: int)
    requires
        a.table.len() <= u32::MAX,
        0 <= j < listed_names(a).len(),
        has_high_byte(listed_names(a)[j]),
    ensures
        looked_up(a, encode_utf8(mojibake(listed_names(a)[j]))) is Some,
        cp949_name(listed_names(a)[j]) matches Some(korean) ==> looked_up(a, encode_utf8(korean)) is Some,
{
    let name = name_at(a.table, walk(a.table, a.version, 0)[j]);
    assert(listed_names(a)[j] == name);
    lemma_key_found(a, j, 0, encode_utf8(mojibake(name)));
    if let Some(korean) = cp949_name(name) {
        lemma_key_found(a, j, 1, encode_utf8(korean));
    }
}

/// Lookups ignore ASCII case and accept both `/` and `\` as separators: two
/// paths that differ only so find the same entry.
pub proof fn law_lookup_ignores_case_and_separators(a: ArchiveView, p: Seq<u8>, q: Seq<u8>)
    requires
        normalized(p) == normalized(q),
    ensures
        looked_up(a, p) == looked_up(a, q),
{
}

/// The file table of an archive that opened fits in the 32-bit offsets its
/// index holds.
pub proof fn law_opened_table_fits(d: Seq<u8>, mtime: u64)
    requires
        open_outcome(d, mtime) is Ok,
    ensures
        open_outcome(d, mtime)->Ok_0.table.len() <= u32::MAX,
{
}

/// A lookup key has no ASCII upper-case letter and no `\`, and it is the
/// path with each `\` turned into `/` and each letter from `A` to `Z` moved
/// 0x20 up to its lower-case form, every other byte kept; so a path and its
/// ASCII-lower-cased spelling have the same key.
pub proof fn law_normalize_folds_case_and_separators(p: Seq<u8>)
    ensures
        normalized(p).len() == p.len(),
        forall|i: int| 0 <= i < p.len() ==> {
            let k = #[trigger] normalized(p)[i];
            &&& !(0x41 <= k <= 0x5a)
            &&& k != 0x5c
            &&& (p[i] == 0x5c ==> k == 0x2f)
            &&& (0x41 <= p[i] <= 0x5a ==> k == p[i] + 0x20)
            &&& (p[i] != 0x5c && !(0x41 <= p[i] <= 0x5a) ==> k == p[i])
        },
        normalized(p) == normalized(crate::ascii::lowered(p)),
{
    let q = crate::ascii::lowered(p);
    assert(normalized(p) =~= normalized(q));
}

/// Entries flagged 5, as older archives mark mixed encryption, read exactly
/// as the same entries flagged 3; entries flagged 2 get the header cipher;
/// entries flagged anything else but 1 cannot be read without a key.
pub proof fn law_entry_flags(data: Seq<u8>, e: EntryView)
    ensures
        e.flags == 5 ==> decrypt_outcome(data, e) == decrypt_outcome(data, EntryView { flags: 3, ..e }),
        e.flags == 5 ==> inflate_outcome(data, e) == inflate_outcome(data, EntryView { flags: 3, ..e }),
        (e.flags == 2 && entry_bytes(data, e.position, e.length_aligned) is Some) ==> {
            let stored = entry_bytes(data, e.position, e.length_aligned)->0;
            let plain = header_decrypted(stored);
            decrypt_outcome(data, e) == Ok::<Seq<u8>, GrfError>(
                if e.pack_size <= plain.len() { plain.subrange(0, e.pack_size as int) } else { plain },
            )
        },
        (e.flags == 3 || e.flags == 5) ==> !(decrypt_outcome(data, e) matches Err(GrfError::CustomKey { .. })),
        (e.flags != 1 && e.flags != 2 && e.flags != 3 && e.flags != 5 && entry_bytes(data, e.position, e.length_aligned) is Some)
            ==> inflate_outcome(data, e) == Err::<Seq<u8>, GrfError>(GrfError::CustomKey { flags: e.flags }),
{
}

} // verus!
