use flate2::write::ZlibEncoder;
use flate2::Compression;
use robrowser_remoteclient::des::decrypt_header;
use robrowser_remoteclient::grf::{Archive, GrfError};
use std::io::Write;

fn zlib(data: &[u8]) -> Vec<u8> {
    let mut encoder = ZlibEncoder::new(Vec::new(), Compression::new(6));
    encoder.write_all(data).unwrap();
    encoder.finish().unwrap()
}

struct Item<'a> {
    name: &'a [u8],
    content: &'a [u8],
    flags: u8,
    /// The unpacked size the table claims, when it is not the content's.
    claimed: Option<u32>,
}

fn plain<'a>(name: &'a [u8], content: &'a [u8]) -> Item<'a> {
    Item { name, content, flags: 1, claimed: None }
}

fn flagged<'a>(name: &'a [u8], content: &'a [u8], flags: u8) -> Item<'a> {
    Item { name, content, flags, claimed: None }
}

/// A version 0x200 or 0x300 archive holding `items`, their data first, the
/// file table after it.
fn build(version: u32, items: &[Item]) -> Vec<u8> {
    let mut body = Vec::new();
    let mut table = Vec::new();
    for item in items {
        let stream = zlib(item.content);
        let position = body.len() as u64;
        let (stored, aligned) = if item.flags == 1 {
            (stream.clone(), stream.len())
        } else {
            let mut padded = stream.clone();
            while padded.len() % 8 != 0 {
                padded.push(0);
            }
            let mut scrambled = padded.clone();
            decrypt_header(&mut scrambled);
            let len = scrambled.len();
            (scrambled, len)
        };
        body.extend_from_slice(&stored);
        table.extend_from_slice(item.name);
        table.push(0);
        table.extend_from_slice(&(stream.len() as u32).to_le_bytes());
        table.extend_from_slice(&(aligned as u32).to_le_bytes());
        table.extend_from_slice(&item.claimed.unwrap_or(item.content.len() as u32).to_le_bytes());
        table.push(item.flags);
        if version == 0x300 {
            table.extend_from_slice(&position.to_le_bytes());
        } else {
            table.extend_from_slice(&(position as u32).to_le_bytes());
        }
    }
    let packed = zlib(&table);
    let mut out = Vec::new();
    out.extend_from_slice(b"Master of Magic");
    out.extend_from_slice(&[0u8; 15]);
    if version == 0x300 {
        out.extend_from_slice(&(body.len() as u64).to_le_bytes());
        out.extend_from_slice(&(items.len() as u32).to_le_bytes());
    } else {
        out.extend_from_slice(&(body.len() as u32).to_le_bytes());
        out.extend_from_slice(&0u32.to_le_bytes());
        out.extend_from_slice(&(items.len() as u32 + 7).to_le_bytes());
    }
    out.extend_from_slice(&version.to_le_bytes());
    assert_eq!(out.len(), 46);
    out.extend_from_slice(&body);
    if version == 0x300 {
        out.extend_from_slice(&[0u8; 4]);
    }
    out.extend_from_slice(&(packed.len() as u32).to_le_bytes());
    out.extend_from_slice(&(table.len() as u32).to_le_bytes());
    out.extend_from_slice(&packed);
    out
}

fn sample() -> Vec<u8> {
    build(
        0x200,
        &[
            plain(br"data\texture\Foo.bmp", b"BM pixels"),
            plain(br"data\sprite\bar.spr", b"SP frames"),
        ],
    )
}

#[test]
fn opens_an_archive_and_counts_its_entries() {
    let data = sample();
    let archive = Archive::open(&data, 1_700_000_000).unwrap();
    assert_eq!(archive.version(), 0x200);
    assert_eq!(archive.real_file_count(), 2);
    assert_eq!(archive.id().len(), 16);
    assert!(archive.id().chars().all(|c| c.is_ascii_hexdigit() && !c.is_ascii_uppercase()));
}

#[test]
fn lookups_ignore_case_and_separators() {
    let data = sample();
    let archive = Archive::open(&data, 0).unwrap();
    for path in [&br"data\texture\Foo.bmp"[..], b"DATA/TEXTURE/FOO.BMP", b"data/texture/foo.bmp"] {
        let entry = archive.lookup(path).unwrap();
        assert_eq!(entry.name, br"data\texture\Foo.bmp");
        assert_eq!(archive.inflate(&data, &entry).unwrap(), b"BM pixels");
    }
    assert!(archive.lookup(b"data/texture/missing.bmp").is_none());
}

#[test]
fn names_are_listed_as_stored_in_table_order() {
    let data = sample();
    let archive = Archive::open(&data, 0).unwrap();
    let names = archive.names();
    assert_eq!(names, vec![&br"data\texture\Foo.bmp"[..], &br"data\sprite\bar.spr"[..]]);
    for name in names {
        assert!(archive.lookup(name).is_some());
    }
}

#[test]
fn version_0x300_archives_open_too() {
    let data = build(0x300, &[plain(b"data\\a.txt", b"hello"), plain(b"data\\b.txt", b"world")]);
    let archive = Archive::open(&data, 0).unwrap();
    assert_eq!(archive.version(), 0x300);
    assert_eq!(archive.real_file_count(), 2);
    let entry = archive.lookup(b"data/b.txt").unwrap();
    assert_eq!(archive.inflate(&data, &entry).unwrap(), b"world");
}

#[test]
fn entries_are_found_by_offset() {
    let data = sample();
    let archive = Archive::open(&data, 0).unwrap();
    let first = archive.entry_at(0).unwrap();
    assert_eq!(first.name, br"data\texture\Foo.bmp");
    let second_at = first.name.len() + 1 + 17;
    assert_eq!(archive.entry_at(second_at).unwrap().name, br"data\sprite\bar.spr");
    assert!(archive.entry_at(100_000).is_none());
}

#[test]
fn plain_entries_hand_out_their_stored_stream() {
    let data = sample();
    let archive = Archive::open(&data, 0).unwrap();
    let entry = archive.lookup(b"data/sprite/bar.spr").unwrap();
    let raw = archive.raw_if_plain(&data, &entry).unwrap();
    assert_eq!(raw, &zlib(b"SP frames")[..]);
    assert_eq!(archive.raw(&data, &entry).unwrap(), raw);
}

#[test]
fn entry_identity_is_position_and_size_in_hex() {
    let data = build(0x200, &[plain(b"a", &[7u8; 300]), plain(b"b", b"0123456789abcdefg")]);
    let archive = Archive::open(&data, 0).unwrap();
    let first = archive.lookup(b"a").unwrap();
    assert_eq!(first.identity(), "0-12c");
    let second = archive.lookup(b"b").unwrap();
    let position = zlib(&[7u8; 300]).len();
    assert_eq!(second.identity(), format!("{:x}-11", position));
}

#[test]
fn archive_identity_is_stable_and_follows_the_mtime() {
    let data = sample();
    let a = Archive::open(&data, 5).unwrap();
    let b = Archive::open(&data, 5).unwrap();
    let c = Archive::open(&data, 6).unwrap();
    assert_eq!(a.id(), b.id());
    assert_ne!(a.id(), c.id());
}

#[test]
fn header_encrypted_entries_are_decrypted_before_inflating() {
    let content: Vec<u8> = (0..2000u32).map(|i| (i * 7 % 251) as u8).collect();
    let data = build(0x200, &[flagged(b"data\\secret.bin", &content, 2)]);
    let archive = Archive::open(&data, 0).unwrap();
    let entry = archive.lookup(b"data/secret.bin").unwrap();
    assert_eq!(archive.inflate(&data, &entry).unwrap(), content);
    assert!(archive.raw_if_plain(&data, &entry).is_none());
}

#[test]
fn scrambled_entries_are_decrypted_before_inflating() {
    let content: Vec<u8> = (0..3000u32).map(|i| (i % 13) as u8).collect();
    let data = build(0x200, &[flagged(b"data\\map.gat", &content, 3)]);
    let archive = Archive::open(&data, 0).unwrap();
    let entry = archive.lookup(b"data/map.gat").unwrap();
    assert_eq!(archive.inflate(&data, &entry).unwrap(), content);
}

#[test]
fn korean_names_are_found_in_every_spelling() {
    let name: &[u8] = b"data\\\xc7\xc1\xb7\xd0\xc5\xd7\xb6\xf3.txt";
    let data = build(0x200, &[plain(name, b"prontera")]);
    let archive = Archive::open(&data, 0).unwrap();
    assert!(archive.lookup(name).is_some());
    assert!(archive.lookup("data/프론테라.txt".as_bytes()).is_some());
    assert!(archive.lookup("data/ÇÁ·ÐÅ×¶ó.txt".as_bytes()).is_some());
}

#[test]
fn short_data_is_truncated() {
    assert_eq!(Archive::open(b"Master of Magic", 0).err(), Some(GrfError::Truncated));
}

#[test]
fn foreign_signatures_are_refused() {
    let mut data = sample();
    data[0] = b'X';
    assert_eq!(Archive::open(&data, 0).err(), Some(GrfError::NotGrf));
}

#[test]
fn event_horizon_signatures_are_accepted() {
    let mut data = sample();
    data[..15].copy_from_slice(b"Event Horizon\0\0");
    assert!(Archive::open(&data, 0).is_ok());
}

#[test]
fn other_versions_are_refused() {
    let mut data = sample();
    data[42..46].copy_from_slice(&0x103u32.to_le_bytes());
    assert_eq!(Archive::open(&data, 0).err(), Some(GrfError::UnsupportedVersion(0x103)));
}

#[test]
fn a_table_offset_past_the_end_is_refused() {
    let mut data = sample();
    data[30..34].copy_from_slice(&0x7fff_ffffu32.to_le_bytes());
    let len = data.len() as u64;
    assert_eq!(
        Archive::open(&data, 0).err(),
        Some(GrfError::TableOffsetPastEnd { offset: 0x7fff_ffff, file_len: len })
    );
}

#[test]
fn an_empty_table_is_refused() {
    let data = sample();
    let table_offset = u32::from_le_bytes(data[30..34].try_into().unwrap()) as usize;
    let mut broken = data.clone();
    broken[46 + table_offset..46 + table_offset + 4].copy_from_slice(&0u32.to_le_bytes());
    let real = u32::from_le_bytes(data[46 + table_offset + 4..46 + table_offset + 8].try_into().unwrap());
    assert_eq!(
        Archive::open(&broken, 0).err(),
        Some(GrfError::EmptyTable { pack_size: 0, real_size: real })
    );
}

#[test]
fn a_table_that_does_not_inflate_is_corrupt() {
    let mut data = sample();
    let table_offset = u32::from_le_bytes(data[30..34].try_into().unwrap()) as usize;
    let start = 46 + table_offset + 8;
    for b in &mut data[start..start + 2] {
        *b = 0xff;
    }
    assert_eq!(Archive::open(&data, 0).err(), Some(GrfError::CorruptTable));
}

#[test]
fn a_table_of_the_wrong_size_is_refused() {
    let mut data = sample();
    let table_offset = u32::from_le_bytes(data[30..34].try_into().unwrap()) as usize;
    let at = 46 + table_offset + 4;
    let real = u32::from_le_bytes(data[at..at + 4].try_into().unwrap());
    data[at..at + 4].copy_from_slice(&(real + 1).to_le_bytes());
    assert_eq!(
        Archive::open(&data, 0).err(),
        Some(GrfError::TableSizeMismatch { inflated: real as usize, promised: real + 1 })
    );
}

#[test]
fn a_wrong_entry_count_is_refused() {
    let mut data = sample();
    data[38..42].copy_from_slice(&(3u32 + 7).to_le_bytes());
    assert_eq!(
        Archive::open(&data, 0).err(),
        Some(GrfError::EntryCountMismatch { walked: 2, claimed: 3 })
    );
}

#[test]
fn a_truncated_table_is_refused() {
    let data = sample();
    assert_eq!(Archive::open(&data[..data.len() - 1], 0).err(), Some(GrfError::Truncated));
}

#[test]
fn entries_outside_the_data_are_out_of_bounds() {
    let data = sample();
    let archive = Archive::open(&data, 0).unwrap();
    let entry = archive.lookup(b"data/sprite/bar.spr").unwrap();
    let short = &data[..50];
    let packed = zlib(b"SP frames").len() as u32;
    let position = zlib(b"BM pixels").len() as u64;
    assert_eq!(
        archive.inflate(short, &entry).err(),
        Some(GrfError::OutOfBounds { position, len: packed })
    );
    assert!(archive.raw(short, &entry).is_none());
    assert!(archive.raw_if_plain(short, &entry).is_none());
}

#[test]
fn entries_with_unknown_flags_need_a_key() {
    let data = build(0x200, &[flagged(b"x", b"abc", 7)]);
    let archive = Archive::open(&data, 0).unwrap();
    let entry = archive.lookup(b"x").unwrap();
    assert_eq!(archive.inflate(&data, &entry).err(), Some(GrfError::CustomKey { flags: 7 }));
}

#[test]
fn entries_that_do_not_inflate_are_corrupt() {
    let data = sample();
    let archive = Archive::open(&data, 0).unwrap();
    let entry = archive.lookup(b"data/texture/foo.bmp").unwrap();
    let mut broken = data.clone();
    broken[46] = 0xff;
    broken[47] = 0xff;
    assert_eq!(archive.inflate(&broken, &entry).err(), Some(GrfError::CorruptEntry));
}

#[test]
fn entries_of_the_wrong_size_are_refused() {
    let data = build(0x200, &[Item { name: b"x", content: b"abc", flags: 1, claimed: Some(4) }]);
    let archive = Archive::open(&data, 0).unwrap();
    let entry = archive.lookup(b"x").unwrap();
    assert_eq!(
        archive.inflate(&data, &entry).err(),
        Some(GrfError::EntrySizeMismatch { inflated: 3, promised: 4 })
    );
}
