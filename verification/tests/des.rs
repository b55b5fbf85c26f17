use robrowser_remoteclient::des::{cycle, decrypt_block, decrypt_header, decrypt_mixed, shuffle_block, BLOCK_SIZE};

/// Pseudo-random blocks from a linear congruential generator, the input the
/// expected values below were computed for.
fn sample(blocks: usize) -> Vec<u8> {
    let mut x = 1u64;

    (0..blocks * BLOCK_SIZE)
        .map(|_| {
            x = (x * 1103515245 + 12345) & 0x7fffffff;
            (x >> 16) as u8
        })
        .collect()
}

fn block_at(data: &[u8], i: usize) -> [u8; BLOCK_SIZE] {
    data[i * BLOCK_SIZE..(i + 1) * BLOCK_SIZE].try_into().unwrap()
}

#[test]
fn decrypts_a_single_block() {
    let mut block = [0xc6, 0x7e, 0x81, 0x6b, 0x4b, 0xfb, 0xe2, 0xfb];
    decrypt_block(&mut block);
    assert_eq!(block, [0x86, 0x7f, 0x84, 0x6b, 0x5b, 0xff, 0xb2, 0xfe]);
}

#[test]
fn header_decryption_stops_after_twenty_blocks() {
    let input = sample(30);
    let mut data = input.clone();

    decrypt_header(&mut data);

    assert_eq!(block_at(&data, 19), [0x37, 0x2d, 0xd1, 0xd1, 0x48, 0xf1, 0x0d, 0x5c]);
    assert_eq!(data[20 * BLOCK_SIZE..], input[20 * BLOCK_SIZE..]);
}

#[test]
fn mixed_decryption_hits_every_cycle_th_block_past_the_header() {
    let input = sample(30);
    let mut data = input.clone();

    // A cycle of 1 is bumped up to 3 for non-scrambled entries.
    decrypt_mixed(&mut data, 1, false);

    assert_eq!(
        data[..20 * BLOCK_SIZE],
        {
            let mut header = input.clone();
            decrypt_header(&mut header);
            header
        }[..20 * BLOCK_SIZE]
    );

    assert_eq!(block_at(&data, 21), [0x39, 0x74, 0xe3, 0x2f, 0xf5, 0x86, 0xd3, 0x00]);
    assert_eq!(block_at(&data, 22), block_at(&input, 22));
    assert_eq!(block_at(&data, 24), [0xe1, 0x60, 0x24, 0xc6, 0x94, 0x23, 0x95, 0xed]);
}

#[test]
fn mixed_decryption_shuffles_every_eighth_untouched_block() {
    let input = sample(40);
    let mut data = input.clone();

    decrypt_mixed(&mut data, 8, false);

    assert_eq!(block_at(&data, 28), [0xeb, 0xb7, 0x24, 0xac, 0xfb, 0xa0, 0x79, 0x72]);
    assert_eq!(block_at(&data, 35), [0x67, 0x64, 0x69, 0xa1, 0x7b, 0x75, 0x9a, 0xef]);
    assert_eq!(block_at(&data, 29), block_at(&input, 29));
}

#[test]
fn scrambled_entries_only_get_their_header_decrypted() {
    let input = sample(30);
    let mut data = input.clone();
    let mut expected = input.clone();

    decrypt_mixed(&mut data, 0, true);
    decrypt_header(&mut expected);

    assert_eq!(data, expected);
}

#[test]
fn cycle_grows_with_the_packed_size() {
    assert_eq!(cycle(b"data\\foo.gr2", 9), (1, false));
    assert_eq!(cycle(b"data\\foo.gr2", 10), (2, false));
    assert_eq!(cycle(b"data\\foo.gr2", 12_345), (5, false));
}

#[test]
fn scrambled_extensions_skip_the_cycle() {
    assert_eq!(cycle(b"data\\prontera.GND", 12_345), (0, true));
    assert_eq!(cycle(b"data\\prontera.gat", 12_345), (0, true));
}

#[test]
fn cycle_counts_every_digit_of_the_largest_size() {
    assert_eq!(cycle(b"data\\foo.spr", u32::MAX), (10, false));
    assert_eq!(cycle(b"data\\foo.spr", 0), (1, false));
    assert_eq!(cycle(b"data\\foo.ACT", 1), (0, true));
    assert_eq!(cycle(b"data\\foo.str", 1), (0, true));
    assert_eq!(cycle(b"gnd", 1), (1, false));
}

#[test]
fn decrypting_a_block_twice_gives_it_back() {
    let input = sample(1);
    let mut block = block_at(&input, 0);
    decrypt_block(&mut block);
    assert_ne!(block, block_at(&input, 0));
    decrypt_block(&mut block);
    assert_eq!(block, block_at(&input, 0));
}

#[test]
fn shuffling_reorders_and_swaps_the_last_byte() {
    let mut block = [1, 2, 3, 4, 5, 6, 7, 0x2b];
    shuffle_block(&mut block);
    assert_eq!(block, [4, 5, 7, 1, 2, 3, 6, 0x00]);
    let mut block = [1, 2, 3, 4, 5, 6, 7, 0x42];
    shuffle_block(&mut block);
    assert_eq!(block[7], 0x42);
}

#[test]
fn a_partial_trailing_block_is_left_alone() {
    let input = sample(3);
    let mut data = input[..20].to_vec();
    decrypt_header(&mut data);
    assert_eq!(data[16..], input[16..20]);
    let mut mixed = input[..20].to_vec();
    decrypt_mixed(&mut mixed, 3, false);
    assert_eq!(mixed, data);
}

#[test]
fn decrypting_the_header_twice_gives_it_back() {
    let input = sample(25);
    let mut data = input.clone();
    decrypt_header(&mut data);
    assert_ne!(data, input);
    decrypt_header(&mut data);
    assert_eq!(data, input);
}
