use flate2::write::ZlibEncoder;
use flate2::Compression;
use robrowser_remoteclient::client::{disk_etag, Client, Located};
use robrowser_remoteclient::filter::{FilterError, SearchFilter};
use robrowser_remoteclient::grf::Archive;
use std::io::Write;

fn zlib(data: &[u8]) -> Vec<u8> {
    let mut encoder = ZlibEncoder::new(Vec::new(), Compression::new(6));
    encoder.write_all(data).unwrap();
    encoder.finish().unwrap()
}

/// A version 0x200 archive of plain entries.
fn grf(items: &[(&[u8], &[u8])]) -> Vec<u8> {
    let mut body = Vec::new();
    let mut table = Vec::new();
    for (name, content) in items {
        let stream = zlib(content);
        let position = body.len() as u32;
        body.extend_from_slice(&stream);
        table.extend_from_slice(name);
        table.push(0);
        table.extend_from_slice(&(stream.len() as u32).to_le_bytes());
        table.extend_from_slice(&(stream.len() as u32).to_le_bytes());
        table.extend_from_slice(&(content.len() as u32).to_le_bytes());
        table.push(1);
        table.extend_from_slice(&position.to_le_bytes());
    }
    let packed = zlib(&table);
    let mut out = Vec::new();
    out.extend_from_slice(b"Master of Magic");
    out.extend_from_slice(&[0u8; 15]);
    out.extend_from_slice(&(body.len() as u32).to_le_bytes());
    out.extend_from_slice(&0u32.to_le_bytes());
    out.extend_from_slice(&(items.len() as u32 + 7).to_le_bytes());
    out.extend_from_slice(&0x200u32.to_le_bytes());
    out.extend_from_slice(&body);
    out.extend_from_slice(&(packed.len() as u32).to_le_bytes());
    out.extend_from_slice(&(table.len() as u32).to_le_bytes());
    out.extend_from_slice(&packed);
    out
}

fn two_archives() -> (Vec<u8>, Vec<u8>) {
    (
        grf(&[(br"data\shared.txt", b"first"), (br"data\only_first.txt", b"1")]),
        grf(&[(br"data\shared.txt", b"second"), (br"data\only_second.txt", b"2")]),
    )
}

#[test]
fn loose_files_win_over_archives() {
    let (a, b) = two_archives();
    let mut client = Client::new(vec![Archive::open(&a, 0).unwrap(), Archive::open(&b, 0).unwrap()]);
    assert!(client.add_file(b"data/Shared.txt").is_none());
    match client.locate(br"DATA\SHARED.TXT") {
        Some(Located::Disk(path)) => assert_eq!(path, b"data/Shared.txt"),
        _ => panic!("expected the loose file"),
    }
}

#[test]
fn earlier_archives_win_over_later_ones() {
    let (a, b) = two_archives();
    let client = Client::new(vec![Archive::open(&a, 0).unwrap(), Archive::open(&b, 0).unwrap()]);
    match client.locate(b"data/shared.txt") {
        Some(Located::Archive(index, entry)) => {
            assert_eq!(index, 0);
            assert_eq!(client.archive(0).inflate(&a, &entry).unwrap(), b"first");
        }
        _ => panic!("expected the first archive"),
    }
    match client.locate(b"data/only_second.txt") {
        Some(Located::Archive(index, entry)) => {
            assert_eq!(index, 1);
            assert_eq!(client.archive(1).inflate(&b, &entry).unwrap(), b"2");
        }
        _ => panic!("expected the second archive"),
    }
    assert!(client.locate(b"data/nowhere.txt").is_none());
    assert_eq!(client.num_archives(), 2);
}

#[test]
fn a_later_loose_file_with_the_same_key_shadows_the_earlier() {
    let mut client = Client::new(Vec::new());
    assert!(client.add_file(b"data/A.txt").is_none());
    assert_eq!(client.add_file(b"data/a.TXT"), Some(b"data/A.txt".to_vec()));
    match client.locate(b"data\\A.txt") {
        Some(Located::Disk(path)) => assert_eq!(path, b"data/a.TXT"),
        _ => panic!("expected the loose file"),
    }
}

#[test]
fn search_matches_archive_names_and_backslashed_loose_paths() {
    let (a, b) = two_archives();
    let mut client = Client::new(vec![Archive::open(&a, 0).unwrap(), Archive::open(&b, 0).unwrap()]);
    client.add_file(b"data/loose/thing.txt");
    client.add_file(b"BGM/01.mp3");
    let filter = SearchFilter::new(r"data\\[^\\]+\.txt").unwrap();
    let found = client.search(&filter);
    assert_eq!(
        found,
        vec![
            br"data\only_first.txt".to_vec(),
            br"data\only_second.txt".to_vec(),
            br"data\shared.txt".to_vec(),
        ]
    );
    let everything = client.search(&SearchFilter::new(r"(?s-u).+").unwrap());
    assert_eq!(everything.len(), 5);
    assert!(everything.contains(&br"data\loose\thing.txt".to_vec()));
    assert!(everything.contains(&br"BGM\01.mp3".to_vec()));
    let mut sorted = everything.clone();
    sorted.sort();
    sorted.dedup();
    assert_eq!(sorted, everything);
}

#[test]
fn search_returns_matched_substrings_once() {
    let data = grf(&[(br"data\a.spr", b"x"), (br"data\b.spr", b"y")]);
    let client = Client::new(vec![Archive::open(&data, 0).unwrap()]);
    let found = client.search(&SearchFilter::new(r"data").unwrap());
    assert_eq!(found, vec![b"data".to_vec()]);
}

#[test]
fn invalid_filters_are_refused() {
    assert_eq!(SearchFilter::new("(").err(), Some(FilterError::InvalidPattern));
    assert_eq!(SearchFilter::new("a+").unwrap().pattern(), "a+");
}

#[test]
fn filters_find_every_match_in_order() {
    let filter = SearchFilter::new("a.").unwrap();
    assert_eq!(filter.matches(b"abacad"), vec![b"ab".to_vec(), b"ac".to_vec(), b"ad".to_vec()]);
    assert!(filter.matches(b"xyz").is_empty());
}

#[test]
fn etags_name_the_archive_and_entry_or_the_disk_file() {
    let data = grf(&[(br"data\a.txt", &[5u8; 300])]);
    let archive = Archive::open(&data, 0).unwrap();
    let id = archive.id().clone();
    let mut client = Client::new(vec![archive]);
    client.add_file(b"data/b.txt");
    let in_archive = client.locate(b"data/a.txt").unwrap();
    assert_eq!(client.etag(&in_archive, None), Some(format!("{id}-0-12c")));
    let on_disk = client.locate(b"data/b.txt").unwrap();
    assert_eq!(client.etag(&on_disk, Some((0x65f0_0000, 4096))), Some("65f00000-1000".to_string()));
    assert_eq!(client.etag(&on_disk, None), None);
}

#[test]
fn disk_etags_are_mtime_and_length_in_hex() {
    assert_eq!(disk_etag(0, 0), "0-0");
    assert_eq!(disk_etag(255, 16), "ff-10");
}
