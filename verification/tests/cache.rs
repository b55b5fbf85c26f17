use robrowser_remoteclient::cache::{
    cache_key, deflate_for_cache, is_compressible, keep_if_smaller, DeflateCache, CACHE_BUDGET,
};
use robrowser_remoteclient::client::{Client, StoreOutcome};
use std::io::Read;

fn inflate(stream: &[u8]) -> Vec<u8> {
    let mut back = Vec::new();
    flate2::read::ZlibDecoder::new(stream).read_to_end(&mut back).unwrap();
    back
}

fn client_with(files: &[&[u8]]) -> Client {
    let mut client = Client::new(Vec::new());
    for f in files {
        client.add_file(f);
    }
    client
}

#[test]
fn copies_are_found_by_path_mtime_and_length() {
    let client = client_with(&[b"data/a.txt"]);
    let mut cache = DeflateCache::new();
    let plain = vec![b'x'; 1000];
    let copy = deflate_for_cache(&plain).unwrap();
    let size = copy.stream().len();
    assert_eq!(client.store_compressed(&mut cache, b"data/a.txt", 10, 1000, copy), StoreOutcome::Stored);
    let found = cache.get(b"data/a.txt", 10, 1000).unwrap();
    assert_eq!(inflate(found.stream()), plain);
    assert!(cache.get(b"data/a.txt", 11, 1000).is_none());
    assert!(cache.get(b"data/a.txt", 10, 1001).is_none());
    assert!(cache.get(b"data/b.txt", 10, 1000).is_none());
    assert_eq!(cache.bytes(), size);
    assert_eq!(cache.stored(), 1);
}

#[test]
fn only_loose_files_worth_compressing_are_cached() {
    let client = client_with(&[b"data/a.txt", b"data/b.png"]);
    let mut cache = DeflateCache::new();
    let copy = || deflate_for_cache(&vec![b'x'; 1000]).unwrap();
    assert_eq!(client.store_compressed(&mut cache, b"data/missing.txt", 0, 1000, copy()), StoreOutcome::NotCompressible);
    assert_eq!(client.store_compressed(&mut cache, b"DATA/A.TXT", 0, 1000, copy()), StoreOutcome::NotCompressible);
    assert_eq!(client.store_compressed(&mut cache, b"data/b.png", 0, 1000, copy()), StoreOutcome::NotCompressible);
    assert_eq!(client.store_compressed(&mut cache, b"data/a.txt", 0, 100, copy()), StoreOutcome::NotCompressible);
    assert_eq!(cache.stored(), 0);
    assert_eq!(client.store_compressed(&mut cache, b"data/a.txt", 0, 1000, copy()), StoreOutcome::Stored);
    assert_eq!(cache.stored(), 1);
}

#[test]
fn the_budget_is_never_exceeded() {
    let client = client_with(&[b"a", b"b", b"c"]);
    let a = deflate_for_cache(&vec![b'a'; 4096]).unwrap();
    let b = deflate_for_cache(&vec![b'b'; 4096]).unwrap();
    let c = deflate_for_cache(&vec![b'c'; 4096]).unwrap();
    let (la, lb) = (a.stream().len(), b.stream().len());
    let mut cache = DeflateCache::with_budget(la + lb);
    assert_eq!(client.store_compressed(&mut cache, b"a", 0, 4096, a), StoreOutcome::Stored);
    assert_eq!(client.store_compressed(&mut cache, b"b", 0, 4096, b), StoreOutcome::Stored);
    assert_eq!(cache.bytes(), la + lb);
    assert_eq!(client.store_compressed(&mut cache, b"c", 0, 4096, c), StoreOutcome::OverBudget);
    assert!(cache.get(b"c", 0, 4096).is_none());
    assert_eq!(cache.bytes(), la + lb);
    assert_eq!(cache.stored(), 2);
    assert_eq!(CACHE_BUDGET, 256 * 1024 * 1024);
}

#[test]
fn cache_keys_hold_mtime_length_and_path() {
    let key = cache_key(b"p", 0x0102, 3);
    assert_eq!(key, vec![2, 1, 0, 0, 0, 0, 0, 0, 3, 0, 0, 0, 0, 0, 0, 0, b'p']);
}

#[test]
fn packed_or_small_files_are_not_compressed() {
    assert!(is_compressible(b"data/map.gat", Some(256)));
    assert!(!is_compressible(b"data/map.gat", Some(255)));
    assert!(!is_compressible(b"data/map.gat", None));
    assert!(!is_compressible(b"data/a.JPG", Some(10_000)));
    assert!(!is_compressible(b"BGM/01.mp3", Some(10_000)));
    assert!(!is_compressible(b"x.Gz", Some(10_000)));
    assert!(!is_compressible(b"data.grf", Some(10_000)));
    assert!(is_compressible(b"data/noext", Some(10_000)));
    assert!(is_compressible(b"data/.png", Some(10_000)));
    assert!(is_compressible(b"data/a.bmp", Some(10_000)));
}

#[test]
fn copies_that_barely_shrink_are_dropped() {
    assert_eq!(keep_if_smaller(100, vec![0; 90]), Some(vec![0; 90]));
    assert_eq!(keep_if_smaller(100, vec![0; 91]), None);
    assert_eq!(keep_if_smaller(0, Vec::new()), Some(Vec::new()));
}

#[test]
fn repetitive_files_deflate_into_a_zlib_stream() {
    let plain = vec![b'a'; 4096];
    let copy = deflate_for_cache(&plain).unwrap();
    assert!(copy.stream().len() * 10 <= plain.len() * 9);
    assert_eq!(inflate(copy.stream()), plain);
}

#[test]
fn random_files_are_not_worth_deflating() {
    let mut x = 12345u32;
    let plain: Vec<u8> = (0..4096)
        .map(|_| {
            x ^= x << 13;
            x ^= x >> 17;
            x ^= x << 5;
            x as u8
        })
        .collect();
    assert!(deflate_for_cache(&plain).is_none());
}
