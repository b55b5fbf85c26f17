//! The mangled DES variant GRF uses for encrypted entries: a single round with
//! hardcoded S-boxes and no key.
use vstd::prelude::*;
use crate::ascii::{ends_with, ends_with_ignore_case, lowered};
use crate::bits::{bit, bit_of, from_bits, lemma_bits_determine, lemma_from_bits, lemma_mask_values, lemma_set_bit, lemma_zero_bits};

verus! {

pub const BLOCK_SIZE: usize = 8;

/// Initial permutation.
pub const IP: [u8; 64] = [
    58, 50, 42, 34, 26, 18, 10, 2, 60, 52, 44, 36, 28, 20, 12, 4, 62, 54, 46, 38, 30, 22, 14, 6,
    64, 56, 48, 40, 32, 24, 16, 8, 57, 49, 41, 33, 25, 17, 9, 1, 59, 51, 43, 35, 27, 19, 11, 3, 61,
    53, 45, 37, 29, 21, 13, 5, 63, 55, 47, 39, 31, 23, 15, 7,
];

/// Final permutation.
pub const FP: [u8; 64] = [
    40, 8, 48, 16, 56, 24, 64, 32, 39, 7, 47, 15, 55, 23, 63, 31, 38, 6, 46, 14, 54, 22, 62, 30,
    37, 5, 45, 13, 53, 21, 61, 29, 36, 4, 44, 12, 52, 20, 60, 28, 35, 3, 43, 11, 51, 19, 59, 27,
    34, 2, 42, 10, 50, 18, 58, 26, 33, 1, 41, 9, 49, 17, 57, 25,
];

/// P-box permutation.
pub const TP: [u8; 32] = [
    16, 7, 20, 21, 29, 12, 28, 17, 1, 15, 23, 26, 5, 18, 31, 10, 2, 8, 24, 14, 32, 27, 3, 9, 19,
    13, 30, 6, 22, 11, 4, 25,
];

pub const S: [[u8; 64]; 4] = [
    [
        0xef, 0x03, 0x41, 0xfd, 0xd8, 0x74, 0x1e, 0x47, 0x26, 0xef, 0xfb, 0x22, 0xb3, 0xd8, 0x84,
        0x1e, 0x39, 0xac, 0xa7, 0x60, 0x62, 0xc1, 0xcd, 0xba, 0x5c, 0x96, 0x90, 0x59, 0x05, 0x3b,
        0x7a, 0x85, 0x40, 0xfd, 0x1e, 0xc8, 0xe7, 0x8a, 0x8b, 0x21, 0xda, 0x43, 0x64, 0x9f, 0x2d,
        0x14, 0xb1, 0x72, 0xf5, 0x5b, 0xc8, 0xb6, 0x9c, 0x37, 0x76, 0xec, 0x39, 0xa0, 0xa3, 0x05,
        0x52, 0x6e, 0x0f, 0xd9,
    ],
    [
        0xa7, 0xdd, 0x0d, 0x78, 0x9e, 0x0b, 0xe3, 0x95, 0x60, 0x36, 0x36, 0x4f, 0xf9, 0x60, 0x5a,
        0xa3, 0x11, 0x24, 0xd2, 0x87, 0xc8, 0x52, 0x75, 0xec, 0xbb, 0xc1, 0x4c, 0xba, 0x24, 0xfe,
        0x8f, 0x19, 0xda, 0x13, 0x66, 0xaf, 0x49, 0xd0, 0x90, 0x06, 0x8c, 0x6a, 0xfb, 0x91, 0x37,
        0x8d, 0x0d, 0x78, 0xbf, 0x49, 0x11, 0xf4, 0x23, 0xe5, 0xce, 0x3b, 0x55, 0xbc, 0xa2, 0x57,
        0xe8, 0x22, 0x74, 0xce,
    ],
    [
        0x2c, 0xea, 0xc1, 0xbf, 0x4a, 0x24, 0x1f, 0xc2, 0x79, 0x47, 0xa2, 0x7c, 0xb6, 0xd9, 0x68,
        0x15, 0x80, 0x56, 0x5d, 0x01, 0x33, 0xfd, 0xf4, 0xae, 0xde, 0x30, 0x07, 0x9b, 0xe5, 0x83,
        0x9b, 0x68, 0x49, 0xb4, 0x2e, 0x83, 0x1f, 0xc2, 0xb5, 0x7c, 0xa2, 0x19, 0xd8, 0xe5, 0x7c,
        0x2f, 0x83, 0xda, 0xf7, 0x6b, 0x90, 0xfe, 0xc4, 0x01, 0x5a, 0x97, 0x61, 0xa6, 0x3d, 0x40,
        0x0b, 0x58, 0xe6, 0x3d,
    ],
    [
        0x4d, 0xd1, 0xb2, 0x0f, 0x28, 0xbd, 0xe4, 0x78, 0xf6, 0x4a, 0x0f, 0x93, 0x8b, 0x17, 0xd1,
        0xa4, 0x3a, 0xec, 0xc9, 0x35, 0x93, 0x56, 0x7e, 0xcb, 0x55, 0x20, 0xa0, 0xfe, 0x6c, 0x89,
        0x17, 0x62, 0x17, 0x62, 0x4b, 0xb1, 0xb4, 0xde, 0xd1, 0x87, 0xc9, 0x14, 0x3c, 0x4a, 0x7e,
        0xa8, 0xe2, 0x7d, 0xa0, 0x9f, 0xf6, 0x5c, 0x6a, 0x09, 0x8d, 0xf0, 0x0f, 0xe3, 0x53, 0x25,
        0x95, 0x36, 0x28, 0xcb,
    ],
];

pub const MASK: [u8; 8] = [0x80, 0x40, 0x20, 0x10, 0x08, 0x04, 0x02, 0x01];

/// The 8-byte block whose bit `i` is bit `table[i] - 1` of `src`.
pub open spec fn permuted(src: Seq<u8>, table: Seq<u8>) -> Seq<u8> {
    from_bits(|i: int| bit(src, table[i] - 1), 8)
}

/// A table of 64 one-based bit positions within a block.
pub open spec fn valid_table(table: Seq<u8>) -> bool {
    &&& table.len() == 64
    &&& forall|i: int| 0 <= i < 64 ==> 1 <= #[trigger] table[i] <= 64
}

proof fn lemma_mask_table()
    ensures
        forall|m: int| 0 <= m < 8 ==> #[trigger] MASK@[m] == 0x80u8 >> (m as u8),
{
    lemma_mask_values();
}

fn permute(src: &mut [u8; BLOCK_SIZE], table: &[u8; 64])
    requires
        valid_table(table@),
    ensures
        final(src)@ == permuted(old(src)@, table@),
{
    proof {
        lemma_mask_table();
    }
    let mut block = [0u8; BLOCK_SIZE];
    let ghost s = src@;
    assert forall|k: int| 0 <= k < 64 implies !#[trigger] bit(block@, k) by {
        lemma_zero_bits((k % 8) as u8);
    }
    for i in 0..64
        invariant
            src@ == s,
            valid_table(table@),
            forall|m: int| 0 <= m < 8 ==> #[trigger] MASK@[m] == 0x80u8 >> (m as u8),
            forall|k: int| 0 <= k < 64 ==> #[trigger] bit(block@, k) == (k < i && bit(s, table@[k] - 1)),
    {
        let j = table[i] as usize - 1;
        if src[j / 8] & MASK[j % 8] != 0 {
            let ghost before = block@;
            assert(MASK@[(j % 8) as int] == 0x80u8 >> ((j % 8) as u8));
            assert(bit(s, table@[i as int] - 1));
            assert(MASK@[(i % 8) as int] == 0x80u8 >> ((i % 8) as u8));
            block[i / 8] = block[i / 8] | MASK[i % 8];
            assert forall|k: int| 0 <= k < 64 implies #[trigger] bit(block@, k) == (k < i + 1 && bit(s, table@[k] - 1)) by {
                if k / 8 == i / 8 {
                    assert(block@[k / 8] == before[k / 8] | (0x80u8 >> ((i % 8) as u8)));
                    lemma_set_bit(before[k / 8], (i % 8) as u8, (k % 8) as u8);
                    assert(bit(before, k) == (k < i && bit(s, table@[k] - 1)));
                    assert(((i % 8) as u8 == (k % 8) as u8) == (k == i));
                } else {
                    assert(block@[k / 8] == before[k / 8]);
                    assert(bit(before, k) == (k < i && bit(s, table@[k] - 1)));
                }
            }
        } else {
            assert forall|k: int| 0 <= k < 64 implies #[trigger] bit(block@, k) == (k < i + 1 && bit(s, table@[k] - 1)) by {
                if k == i {
                    assert(!bit(s, table@[k] - 1));
                }
            }
        }
    }
    proof {
        lemma_bits_determine(block@, |i: int| bit(s, table@[i] - 1), 8);
    }
    *src = block;
}

/// The eight 6-bit S-box indices the round expands the right half into.
pub open spec fn expansion(s: Seq<u8>) -> Seq<u8> {
    seq![
        ((s[7] << 5u8) | (s[4] >> 3u8)) & 0x3fu8,
        ((s[4] << 1u8) | (s[5] >> 7u8)) & 0x3fu8,
        ((s[4] << 5u8) | (s[5] >> 3u8)) & 0x3fu8,
        ((s[5] << 1u8) | (s[6] >> 7u8)) & 0x3fu8,
        ((s[5] << 5u8) | (s[6] >> 3u8)) & 0x3fu8,
        ((s[6] << 1u8) | (s[7] >> 7u8)) & 0x3fu8,
        ((s[6] << 5u8) | (s[7] >> 3u8)) & 0x3fu8,
        ((s[7] << 1u8) | (s[4] >> 7u8)) & 0x3fu8,
    ]
}

/// The four bytes the S-boxes make of the expanded right half: the high
/// nibble from one lookup, the low nibble from the next.
pub open spec fn substituted(s: Seq<u8>) -> Seq<u8> {
    let e = expansion(s);
    Seq::new(
        4,
        |i: int| (S@[i]@[e[2 * i] as int] & 0xf0u8) | (S@[i]@[e[2 * i + 1] as int] & 0x0fu8),
    )
}

/// The round function: the substituted bytes put through the P-box.
pub open spec fn feistel(s: Seq<u8>) -> Seq<u8> {
    from_bits(|i: int| bit(substituted(s), TP@[i] - 1), 4)
}

/// One round: the left half is xored with the round function of the right
/// half, which is left as it is.
pub open spec fn rounded(s: Seq<u8>) -> Seq<u8> {
    Seq::new(8, |k: int| if k < 4 { s[k] ^ feistel(s)[k] } else { s[k] })
}

proof fn lemma_low_six_bits(x: u8)
    ensures
        x & 0x3fu8 < 64,
{
    assert(x & 0x3fu8 < 64) by (bit_vector);
}

fn round(src: &mut [u8; BLOCK_SIZE])
    ensures
        final(src)@ == rounded(old(src)@),
{
    proof {
        lemma_mask_table();
    }
    let ghost s = src@;
    let mut block = [0u8; BLOCK_SIZE];

    block[0] = ((src[7] << 5) | (src[4] >> 3)) & 0x3f;
    block[1] = ((src[4] << 1) | (src[5] >> 7)) & 0x3f;
    block[2] = ((src[4] << 5) | (src[5] >> 3)) & 0x3f;
    block[3] = ((src[5] << 1) | (src[6] >> 7)) & 0x3f;
    block[4] = ((src[5] << 5) | (src[6] >> 3)) & 0x3f;
    block[5] = ((src[6] << 1) | (src[7] >> 7)) & 0x3f;
    block[6] = ((src[6] << 5) | (src[7] >> 3)) & 0x3f;
    block[7] = ((src[7] << 1) | (src[4] >> 7)) & 0x3f;

    let ghost e = expansion(s);
    assert(block@ =~= e);
    proof {
        lemma_low_six_bits((s[7] << 5u8) | (s[4] >> 3u8));
        lemma_low_six_bits((s[4] << 1u8) | (s[5] >> 7u8));
        lemma_low_six_bits((s[4] << 5u8) | (s[5] >> 3u8));
        lemma_low_six_bits((s[5] << 1u8) | (s[6] >> 7u8));
        lemma_low_six_bits((s[5] << 5u8) | (s[6] >> 3u8));
        lemma_low_six_bits((s[6] << 1u8) | (s[7] >> 7u8));
        lemma_low_six_bits((s[6] << 5u8) | (s[7] >> 3u8));
        lemma_low_six_bits((s[7] << 1u8) | (s[4] >> 7u8));
    }
    let ghost sub = substituted(s);

    for i in 0..4
        invariant
            e == expansion(s),
            sub == substituted(s),
            forall|k: int| 0 <= k < 8 ==> #[trigger] e[k] < 64,
            forall|k: int| 0 <= k < i ==> #[trigger] block@[k] == sub[k],
            forall|k: int| i <= k < 8 ==> #[trigger] block@[k] == e[k],
    {
        block[i] = (S[i][block[i * 2] as usize] & 0xf0) | (S[i][block[i * 2 + 1] as usize] & 0x0f);
    }

    block[4] = 0;
    block[5] = 0;
    block[6] = 0;
    block[7] = 0;

    assert forall|k: int| 0 <= k < 32 implies !bit_of(#[trigger] block@[4 + k / 8], (k % 8) as u8) by {
        lemma_zero_bits((k % 8) as u8);
    }

    for i in 0..32
        invariant
            sub == substituted(s),
            forall|m: int| 0 <= m < 8 ==> #[trigger] MASK@[m] == 0x80u8 >> (m as u8),
            forall|k: int| 0 <= k < 4 ==> #[trigger] block@[k] == sub[k],
            forall|k: int| 0 <= k < 32 ==>
                bit_of(#[trigger] block@[4 + k / 8], (k % 8) as u8) == (k < i && bit(sub, TP@[k] - 1)),
    {
        let j = TP[i] as usize - 1;
        if block[j / 8] & MASK[j % 8] != 0 {
            let ghost before = block@;
            assert(MASK@[(j % 8) as int] == 0x80u8 >> ((j % 8) as u8));
            assert(bit(sub, TP@[i as int] - 1));
            assert(MASK@[(i % 8) as int] == 0x80u8 >> ((i % 8) as u8));
            block[i / 8 + 4] = block[i / 8 + 4] | MASK[i % 8];
            assert forall|k: int| 0 <= k < 32 implies
                bit_of(#[trigger] block@[4 + k / 8], (k % 8) as u8) == (k < i + 1 && bit(sub, TP@[k] - 1)) by {
                if k / 8 == i / 8 {
                    assert(block@[4 + k / 8] == before[4 + k / 8] | (0x80u8 >> ((i % 8) as u8)));
                    lemma_set_bit(before[4 + k / 8], (i % 8) as u8, (k % 8) as u8);
                    assert(bit_of(before[4 + k / 8], (k % 8) as u8) == (k < i && bit(sub, TP@[k] - 1)));
                    assert(((i % 8) as u8 == (k % 8) as u8) == (k == i));
                } else {
                    assert(block@[4 + k / 8] == before[4 + k / 8]);
                    assert(bit_of(before[4 + k / 8], (k % 8) as u8) == (k < i && bit(sub, TP@[k] - 1)));
                }
            }
        } else {
            assert forall|k: int| 0 <= k < 32 implies
                bit_of(#[trigger] block@[4 + k / 8], (k % 8) as u8) == (k < i + 1 && bit(sub, TP@[k] - 1)) by {
                if k == i {
                    assert(!bit(sub, TP@[k] - 1));
                }
            }
        }
    }

    let ghost right = block@.subrange(4, 8);
    assert forall|k: int| 0 <= k < 32 implies #[trigger] bit(right, k) == bit(sub, TP@[k] - 1) by {
        assert(right[k / 8] == block@[4 + k / 8]);
    }
    proof {
        lemma_bits_determine(right, |k: int| bit(sub, TP@[k] - 1), 4);
    }
    assert(right == feistel(s));

    src[0] = src[0] ^ block[4];
    src[1] = src[1] ^ block[5];
    src[2] = src[2] ^ block[6];
    src[3] = src[3] ^ block[7];
    assert(src@ =~= rounded(s));
}

/// What decrypting one block yields: the initial permutation, one round, and
/// the final permutation.
#[verifier::opaque]
pub open spec fn decrypted(b: Seq<u8>) -> Seq<u8> {
    permuted(rounded(permuted(b, IP@)), FP@)
}

proof fn lemma_tables_valid()
    ensures
        valid_table(IP@),
        valid_table(FP@),
        forall|i: int| 0 <= i < 32 ==> 1 <= #[trigger] TP@[i] <= 32,
{
}

pub fn decrypt_block(src: &mut [u8; BLOCK_SIZE])
    ensures
        final(src)@ == decrypted(old(src)@),
{
    proof {
        lemma_tables_valid();
        reveal(decrypted);
    }
    permute(src, &IP);
    round(src);
    permute(src, &FP);
}

/// The byte substitution a shuffled block's last byte goes through: seven
/// pairs of values trade places, every other value stays.
pub open spec fn swapped(b: u8) -> u8 {
    if b == 0x00 { 0x2b } else if b == 0x2b { 0x00 }
    else if b == 0x01 { 0x68 } else if b == 0x68 { 0x01 }
    else if b == 0x48 { 0x77 } else if b == 0x77 { 0x48 }
    else if b == 0x60 { 0xff } else if b == 0xff { 0x60 }
    else if b == 0x6c { 0x80 } else if b == 0x80 { 0x6c }
    else if b == 0xb9 { 0xc0 } else if b == 0xc0 { 0xb9 }
    else if b == 0xeb { 0xfe } else if b == 0xfe { 0xeb }
    else { b }
}

/// A shuffled block: the first seven bytes reordered, the last one swapped.
pub open spec fn shuffled(b: Seq<u8>) -> Seq<u8> {
    seq![b[3], b[4], b[6], b[0], b[1], b[2], b[5], swapped(b[7])]
}

pub fn shuffle_block(block: &mut [u8; BLOCK_SIZE])
    ensures
        final(block)@ == shuffled(old(block)@),
{
    let tmp = *block;

    block[0] = tmp[3];
    block[1] = tmp[4];
    block[2] = tmp[6];
    block[3] = tmp[0];
    block[4] = tmp[1];
    block[5] = tmp[2];
    block[6] = tmp[5];
    block[7] = match tmp[7] {
        0x00 => 0x2b,
        0x2b => 0x00,
        0x01 => 0x68,
        0x68 => 0x01,
        0x48 => 0x77,
        0x77 => 0x48,
        0x60 => 0xff,
        0xff => 0x60,
        0x6c => 0x80,
        0x80 => 0x6c,
        0xb9 => 0xc0,
        0xc0 => 0xb9,
        0xeb => 0xfe,
        0xfe => 0xeb,
        other => other,
    };
    assert(block@ =~= shuffled(tmp@));
}

/// `10` to the power `n`.
pub open spec fn pow10(n: nat) -> nat
    decreases n,
{
    if n == 0 {
        1
    } else {
        10 * pow10((n - 1) as nat)
    }
}

/// Extensions whose payload the packer only scrambled, never DES-encrypted
/// past the first 20 blocks: `.gnd`, `.gat`, `.act` and `.str`.
pub open spec fn plain_extensions() -> Seq<Seq<u8>> {
    seq![
        seq![0x2eu8, 0x67u8, 0x6eu8, 0x64u8],
        seq![0x2eu8, 0x67u8, 0x61u8, 0x74u8],
        seq![0x2eu8, 0x61u8, 0x63u8, 0x74u8],
        seq![0x2eu8, 0x73u8, 0x74u8, 0x72u8],
    ]
}

/// Whether `name`, ignoring ASCII case, ends with one of [`plain_extensions`].
pub open spec fn has_plain_extension(name: Seq<u8>) -> bool {
    exists|k: int| 0 <= k < 4 && ends_with(lowered(name), #[trigger] plain_extensions()[k])
}

/// The number of decimal digits of `n` (one for zero): the least `c >= 1`
/// with `n < 10^c`.
pub open spec fn is_digit_count(c: int, n: int) -> bool {
    &&& c >= 1
    &&& n < pow10(c as nat)
    &&& (c == 1 || pow10((c - 1) as nat) <= n)
}

/// How many blocks past the header take part in the cycle, derived from the
/// entry's packed size (and forced off for the plain extensions).
pub fn cycle(name: &[u8], pack_size: u32) -> (r: (usize, bool))
    ensures
        has_plain_extension(name@) ==> r == (0usize, true),
        !has_plain_extension(name@) ==> !r.1 && is_digit_count(r.0 as int, pack_size as int),
{
    let gnd: [u8; 4] = [0x2e, 0x67, 0x6e, 0x64];
    let gat: [u8; 4] = [0x2e, 0x67, 0x61, 0x74];
    let act: [u8; 4] = [0x2e, 0x61, 0x63, 0x74];
    let str: [u8; 4] = [0x2e, 0x73, 0x74, 0x72];
    let plain = ends_with_ignore_case(name, gnd.as_slice()) || ends_with_ignore_case(name, gat.as_slice())
        || ends_with_ignore_case(name, act.as_slice()) || ends_with_ignore_case(name, str.as_slice());
    proof {
        assert(gnd@ =~= plain_extensions()[0]);
        assert(gat@ =~= plain_extensions()[1]);
        assert(act@ =~= plain_extensions()[2]);
        assert(str@ =~= plain_extensions()[3]);
    }
    if plain {
        return (0, true);
    }

    let mut cycle: usize = 1;
    let mut i: u64 = 10;
    proof {
        reveal_with_fuel(pow10, 2);
    }
    while pack_size as u64 >= i
        invariant
            1 <= cycle <= 10,
            i == pow10(cycle as nat),
            cycle == 1 || pow10((cycle - 1) as nat) <= pack_size,
        decreases 20 - cycle,
    {
        proof {
            if cycle >= 10 {
                lemma_pow10_grows(10);
            }
        }
        cycle += 1;
        i *= 10;
    }
    (cycle, false)
}

/// A `u32` has at most ten decimal digits.
pub proof fn lemma_digit_count_of_u32(c: int, n: int)
    requires
        is_digit_count(c, n),
        n <= u32::MAX,
    ensures
        c <= 10,
{
    if c > 10 {
        lemma_pow10_grows((c - 1) as nat);
    }
}

/// A number has one digit count.
pub proof fn lemma_digit_count_unique(c: int, n: int)
    requires
        is_digit_count(c, n),
    ensures
        c == choose|d: int| is_digit_count(d, n),
{
    let d = choose|d: int| is_digit_count(d, n);
    if d < c {
        lemma_pow10_monotone(d as nat, (c - 1) as nat);
    } else if c < d {
        lemma_pow10_monotone(c as nat, (d - 1) as nat);
    }
}

proof fn lemma_pow10_monotone(a: nat, b: nat)
    requires
        a <= b,
    ensures
        pow10(a) <= pow10(b),
    decreases b,
{
    if a < b {
        lemma_pow10_monotone(a, (b - 1) as nat);
    }
}

proof fn lemma_pow10_grows(n: nat)
    requires
        n >= 10,
    ensures
        pow10(n) >= 10_000_000_000,
    decreases n,
{
    if n > 10 {
        lemma_pow10_grows((n - 1) as nat);
    } else {
        reveal_with_fuel(pow10, 11);
    }
}

/// Block `k` of `d`: its bytes `8k` to `8k + 7`.
pub open spec fn block_at(d: Seq<u8>, k: int) -> Seq<u8> {
    d.subrange(8 * k, 8 * k + 8)
}

/// `d` with each of its first `n` blocks replaced by `f` of the block's index
/// and contents; bytes past those blocks stay as they are.
pub open spec fn map_blocks(d: Seq<u8>, n: int, f: spec_fn(int, Seq<u8>) -> Seq<u8>) -> Seq<u8> {
    Seq::new(d.len(), |i: int| if i / 8 < n { f(i / 8, block_at(d, i / 8))[i % 8] } else { d[i] })
}

/// What a block turns into under the given action.
pub enum BlockAction {
    Decrypt,
    Shuffle,
    Keep,
}

pub open spec fn apply_action(a: BlockAction, b: Seq<u8>) -> Seq<u8> {
    match a {
        BlockAction::Decrypt => decrypted(b),
        BlockAction::Shuffle => shuffled(b),
        BlockAction::Keep => b,
    }
}

/// Apply `action` to block `k` of `data` in place.
fn transform_block(data: &mut [u8], k: usize, action: BlockAction)
    requires
        8 * k + 8 <= old(data)@.len(),
    ensures
        final(data)@.len() == old(data)@.len(),
        forall|i: int|
            0 <= i < old(data)@.len() ==> #[trigger] final(data)@[i] == if i / 8 == k {
                apply_action(action, block_at(old(data)@, k as int))[i % 8]
            } else {
                old(data)@[i]
            },
{
    let ghost d = data@;
    let o = 8 * k;
    let mut block = [data[o], data[o + 1], data[o + 2], data[o + 3], data[o + 4], data[o + 5], data[o + 6], data[o + 7]];
    assert(block@ =~= block_at(d, k as int));
    match action {
        BlockAction::Decrypt => decrypt_block(&mut block),
        BlockAction::Shuffle => shuffle_block(&mut block),
        BlockAction::Keep => {},
    }
    let mut m: usize = 0;
    while m < 8
        invariant
            o == 8 * k,
            8 * k + 8 <= d.len(),
            m <= 8,
            data@.len() == d.len(),
            block@ == apply_action(action, block_at(d, k as int)),
            forall|i: int|
                0 <= i < d.len() ==> #[trigger] data@[i] == if i / 8 == k && i % 8 < m {
                    block@[i % 8]
                } else {
                    d[i]
                },
        decreases 8 - m,
    {
        data[o + m] = block[m];
        m += 1;
    }
}

/// The header cipher: each of the first 20 whole blocks decrypted.
pub open spec fn header_decrypted(d: Seq<u8>) -> Seq<u8> {
    map_blocks(d, if d.len() / 8 < 20 { (d.len() / 8) as int } else { 20 }, |k: int, b: Seq<u8>| decrypted(b))
}

/// Decrypt the first 20 blocks, all the packer touched.
pub fn decrypt_header(data: &mut [u8])
    ensures
        final(data)@ == header_decrypted(old(data)@),
{
    let ghost d = data@;
    let ghost f = |k: int, b: Seq<u8>| decrypted(b);
    let blocks = if data.len() / BLOCK_SIZE < 20 { data.len() / BLOCK_SIZE } else { 20 };
    let mut k: usize = 0;
    while k < blocks
        invariant
            blocks <= d.len() / 8,
            blocks == if d.len() / 8 < 20 { d.len() / 8 } else { 20 },
            k <= blocks,
            forall|j: int, b: Seq<u8>| #[trigger] f(j, b) == decrypted(b),
            data@ == map_blocks(d, k as int, f),
        decreases blocks - k,
    {
        let ghost before = data@;
        transform_block(data, k, BlockAction::Decrypt);
        assert forall|i: int| 0 <= i < d.len() implies #[trigger] data@[i] == map_blocks(d, k + 1, f)[i] by {
            if i / 8 == k {
                assert forall|m: int| 0 <= m < 8 implies block_at(before, k as int)[m] == block_at(d, k as int)[m] by {
                    assert(before[8 * k + m] == map_blocks(d, k as int, f)[8 * k + m]);
                    assert((8 * k + m) / 8 == k);
                }
                assert(block_at(before, k as int) =~= block_at(d, k as int));
                assert(data@[i] == decrypted(block_at(before, k as int))[i % 8]);
                assert(f(k as int, block_at(d, k as int)) == decrypted(block_at(d, k as int)));
                assert(map_blocks(d, k + 1, f)[i] == f(i / 8, block_at(d, i / 8))[i % 8]);
            } else {
                assert(data@[i] == before[i]);
                assert(before[i] == map_blocks(d, k as int, f)[i]);
            }
        }
        assert(data@ =~= map_blocks(d, k + 1, f));
        k += 1;
    }
}

/// The cycle `decrypt_mixed` works with: bumped up for entries that are not
/// only scrambled, left as given for those that are.
pub open spec fn effective_cycle(cycle: int, is_data_crypted: bool) -> int {
    if is_data_crypted {
        cycle
    } else if cycle < 3 {
        3
    } else if cycle < 5 {
        cycle + 1
    } else if cycle < 7 {
        cycle + 9
    } else {
        cycle + 15
    }
}

/// Whether the mixed cipher decrypts block `k`: every header block, and past
/// the header every `c`-th block unless the entry is only scrambled.
pub open spec fn decrypts_block(k: int, c: int, is_data_crypted: bool) -> bool {
    k < 20 || (!is_data_crypted && k % c == 0)
}

/// How many of the blocks before block `k` the mixed cipher does not decrypt.
pub open spec fn untouched_before(k: int, c: int, is_data_crypted: bool) -> nat
    decreases k,
{
    if k <= 0 {
        0
    } else {
        untouched_before(k - 1, c, is_data_crypted) + if decrypts_block(k - 1, c, is_data_crypted) {
            0nat
        } else {
            1nat
        }
    }
}

/// What the mixed cipher does to block `k`: the blocks it does not decrypt are
/// counted from zero, and those whose count is a positive multiple of seven
/// get shuffled, unless the entry is only scrambled.
pub open spec fn mixed_action(k: int, c: int, is_data_crypted: bool) -> BlockAction {
    let u = untouched_before(k, c, is_data_crypted);
    if decrypts_block(k, c, is_data_crypted) {
        BlockAction::Decrypt
    } else if !is_data_crypted && u >= 7 && u % 7 == 0 {
        BlockAction::Shuffle
    } else {
        BlockAction::Keep
    }
}

/// The mixed cipher over every whole block of `d`.
pub open spec fn mixed_decrypted(d: Seq<u8>, cycle: int, is_data_crypted: bool) -> Seq<u8> {
    let c = effective_cycle(cycle, is_data_crypted);
    map_blocks(
        d,
        (d.len() / 8) as int,
        |k: int, b: Seq<u8>| apply_action(mixed_action(k, c, is_data_crypted), b),
    )
}

/// The shuffle counter after `u` undecrypted blocks.
spec fn shuffle_counter(u: nat) -> nat {
    if u == 0 {
        0
    } else {
        ((u - 1) % 7 + 1) as nat
    }
}

proof fn lemma_shuffle_counter(u: nat)
    ensures
        (shuffle_counter(u) == 7) == (u >= 7 && u % 7 == 0),
        shuffle_counter(u + 1) == if shuffle_counter(u) == 7 { 1 } else { shuffle_counter(u) + 1 },
        shuffle_counter(u) <= 7,
{
}

proof fn lemma_untouched_bounded(k: int, c: int, crypted: bool)
    requires
        k >= 0,
    ensures
        untouched_before(k, c, crypted) <= k,
    decreases k,
{
    if k > 0 {
        lemma_untouched_bounded(k - 1, c, crypted);
    }
}

/// Decrypt the header blocks, then every `cycle`-th block after them; blocks
/// in between get a byte shuffle instead, one in every seven after the first
/// seven.
pub fn decrypt_mixed(data: &mut [u8], cycle: usize, is_data_crypted: bool)
    requires
        is_data_crypted || cycle <= usize::MAX - 15,
    ensures
        final(data)@ == mixed_decrypted(old(data)@, cycle as int, is_data_crypted),
{
    let ghost d = data@;
    let mut cycle = cycle;
    let ghost given_cycle = cycle as int;
    if !is_data_crypted {
        if cycle < 3 {
            cycle = 3;
        } else if cycle < 5 {
            cycle += 1;
        } else if cycle < 7 {
            cycle += 9;
        } else {
            cycle += 15;
        }
    }
    let ghost c = cycle as int;
    assert(c == effective_cycle(given_cycle, is_data_crypted));
    let ghost f = |k: int, b: Seq<u8>| apply_action(mixed_action(k, c, is_data_crypted), b);

    let mut count: usize = 0;
    let blocks = data.len() / BLOCK_SIZE;
    let mut i: usize = 0;
    while i < blocks
        invariant
            blocks == d.len() / 8,
            i <= blocks,
            c == cycle,
            !is_data_crypted ==> cycle >= 3,
            forall|j: int, b: Seq<u8>| #[trigger] f(j, b) == apply_action(mixed_action(j, c, is_data_crypted), b),
            is_data_crypted ==> count == untouched_before(i as int, c, is_data_crypted),
            !is_data_crypted ==> count == shuffle_counter(untouched_before(i as int, c, is_data_crypted)),
            data@ == map_blocks(d, i as int, f),
        decreases blocks - i,
    {
        let ghost before = data@;
        let ghost u = untouched_before(i as int, c, is_data_crypted);
        proof {
            lemma_shuffle_counter(u);
            lemma_untouched_bounded(i as int, c, is_data_crypted);
        }
        let action;
        if i < 20 || (!is_data_crypted && i % cycle == 0) {
            action = BlockAction::Decrypt;
        } else {
            if count == 7 && !is_data_crypted {
                count = 0;
                action = BlockAction::Shuffle;
            } else {
                action = BlockAction::Keep;
            }
            count += 1;
        }
        assert(action == mixed_action(i as int, c, is_data_crypted));
        transform_block(data, i, action);
        assert forall|k: int| 0 <= k < d.len() implies #[trigger] data@[k] == map_blocks(d, i + 1, f)[k] by {
            if k / 8 == i {
                assert forall|m: int| 0 <= m < 8 implies block_at(before, i as int)[m] == block_at(d, i as int)[m] by {
                    assert(before[8 * i + m] == map_blocks(d, i as int, f)[8 * i + m]);
                    assert((8 * i + m) / 8 == i);
                }
                assert(block_at(before, i as int) =~= block_at(d, i as int));
            } else {
                assert(before[k] == map_blocks(d, i as int, f)[k]);
            }
        }
        assert(data@ =~= map_blocks(d, i + 1, f));
        i += 1;
    }
}

/// The cycle grows with the packed size: of two entries whose names carry
/// none of the plain extensions, the one with the larger packed size gets a
/// cycle at least as long.
pub proof fn law_cycle_grows(c1: int, pack_size1: int, c2: int, pack_size2: int)
    requires
        is_digit_count(c1, pack_size1),
        is_digit_count(c2, pack_size2),
        pack_size1 <= pack_size2,
    ensures
        c1 <= c2,
{
    if c1 > c2 {
        lemma_pow10_monotone(c2 as nat, (c1 - 1) as nat);
    }
}

/// Header decryption stops after twenty blocks: every byte past them is left
/// as it was.
pub proof fn law_header_only(d: Seq<u8>, i: int)
    requires
        160 <= i < d.len(),
    ensures
        header_decrypted(d)[i] == d[i],
{
    assert(i / 8 >= 20);
}

/// Mixed decryption treats the first twenty blocks as the header cipher does,
/// whatever the cycle.
pub proof fn law_mixed_starts_with_header(d: Seq<u8>, cycle: int, is_data_crypted: bool, i: int)
    requires
        0 <= i < 160,
        i < d.len(),
    ensures
        mixed_decrypted(d, cycle, is_data_crypted)[i] == header_decrypted(d)[i],
{
    let c = effective_cycle(cycle, is_data_crypted);
    assert(i / 8 < 20);
    assert(decrypts_block(i / 8, c, is_data_crypted));
    assert(mixed_action(i / 8, c, is_data_crypted) == BlockAction::Decrypt);
}

/// Entries that were only scrambled get their header decrypted and nothing
/// else, whatever cycle they are handed.
pub proof fn law_scrambled_is_header(d: Seq<u8>, cycle: int)
    ensures
        mixed_decrypted(d, cycle, true) == header_decrypted(d),
{
    let m = mixed_decrypted(d, cycle, true);
    let h = header_decrypted(d);
    assert forall|i: int| 0 <= i < d.len() implies m[i] == h[i] by {
        let k = i / 8;
        if k < 20 {
            law_mixed_starts_with_header(d, cycle, true, i);
        } else {
            assert(!decrypts_block(k, cycle, true));
            assert(mixed_action(k, cycle, true) == BlockAction::Keep);
            if k < d.len() / 8 {
                assert(block_at(d, k)[i % 8] == d[8 * k + i % 8]);
                assert(8 * k + i % 8 == i);
            }
        }
    }
    assert(m =~= h);
}

/// Permuting by one table, then by another that undoes it, gives the block
/// back.
proof fn lemma_permute_inverse(x: Seq<u8>, first: Seq<u8>, second: Seq<u8>)
    requires
        x.len() == 8,
        valid_table(first),
        valid_table(second),
        forall|i: int| 0 <= i < 64 ==> #[trigger] first[second[i] - 1] == i + 1,
    ensures
        permuted(permuted(x, first), second) == x,
{
    let y = permuted(x, first);
    let f = |i: int| bit(y, second[i] - 1);
    assert forall|i: int| 0 <= i < 64 implies #[trigger] bit(x, i) == f(i) by {
        lemma_from_bits(|j: int| bit(x, first[j] - 1), 8, second[i] - 1);
        assert(first[second[i] - 1] == i + 1);
    }
    lemma_bits_determine(x, f, 8);
}

/// The final permutation undoes the initial one, and the other way round, as
/// tables.
proof fn lemma_permutations_inverse()
    ensures
        forall|i: int| 0 <= i < 64 ==> #[trigger] FP@[IP@[i] - 1] == i + 1,
        forall|i: int| 0 <= i < 64 ==> #[trigger] IP@[FP@[i] - 1] == i + 1,
{
}

/// Two rounds cancel: the round leaves the right half alone and xors the left
/// half with a function of it, so running it twice gives the block back.
pub proof fn law_round_involution(s: Seq<u8>)
    requires
        s.len() == 8,
    ensures
        rounded(rounded(s)) == s,
{
    let r = rounded(s);
    assert(expansion(r) =~= expansion(s));
    assert(substituted(r) =~= substituted(s));
    assert(feistel(r) == feistel(s));
    let f = feistel(s);
    assert forall|k: int| 0 <= k < 8 implies #[trigger] rounded(r)[k] == s[k] by {
        if k < 4 {
            let a = s[k];
            let b = f[k];
            assert((a ^ b) ^ b == a) by (bit_vector);
        }
    }
    assert(rounded(r) =~= s);
}

/// Decrypting a block twice gives it back: the cipher is its own inverse.
pub proof fn law_decrypt_block_involution(b: Seq<u8>)
    requires
        b.len() == 8,
    ensures
        decrypted(b).len() == 8,
        decrypted(decrypted(b)) == b,
{
    reveal(decrypted);
    lemma_tables_valid();
    lemma_permutations_inverse();
    let p = permuted(b, IP@);
    let r = rounded(p);
    lemma_permute_inverse(r, FP@, IP@);
    law_round_involution(p);
    lemma_permute_inverse(b, IP@, FP@);
}

/// The final permutation undoes the initial permutation, and the initial one
/// undoes the final one.
pub proof fn law_permutations_inverse(x: Seq<u8>)
    requires
        x.len() == 8,
    ensures
        permuted(permuted(x, IP@), FP@) == x,
        permuted(permuted(x, FP@), IP@) == x,
{
    lemma_tables_valid();
    lemma_permutations_inverse();
    lemma_permute_inverse(x, IP@, FP@);
    lemma_permute_inverse(x, FP@, IP@);
}

/// The round changes only the left half: the right half stays, and the left
/// half is xored with a function of the right half alone.
pub proof fn law_round_changes_left_half(s: Seq<u8>, t: Seq<u8>)
    requires
        s.len() == 8,
        t.len() == 8,
        forall|k: int| 4 <= k < 8 ==> s[k] == t[k],
    ensures
        rounded(s).subrange(4, 8) == s.subrange(4, 8),
        feistel(s) == feistel(t),
        forall|k: int| 0 <= k < 4 ==> #[trigger] rounded(s)[k] == s[k] ^ feistel(s)[k],
{
    assert(s[4] == t[4] && s[5] == t[5] && s[6] == t[6] && s[7] == t[7]);
    assert(expansion(s) =~= expansion(t));
    assert(substituted(s) =~= substituted(t));
    assert(rounded(s).subrange(4, 8) =~= s.subrange(4, 8));
}

/// A decrypted block is a block.
proof fn lemma_decrypted_len(b: Seq<u8>)
    requires
        b.len() == 8,
    ensures
        decrypted(b).len() == 8,
{
    reveal(decrypted);
}

/// A block the header pass decrypts comes out decrypted.
proof fn lemma_header_block(d: Seq<u8>, k: int)
    requires
        0 <= k < 20,
        k < d.len() / 8,
    ensures
        block_at(header_decrypted(d), k) == decrypted(block_at(d, k)),
{
    let h = header_decrypted(d);
    lemma_decrypted_len(block_at(d, k));
    assert forall|m: int| 0 <= m < 8 implies #[trigger] block_at(h, k)[m] == decrypted(block_at(d, k))[m] by {
        assert((8 * k + m) / 8 == k);
        assert((8 * k + m) % 8 == m);
        assert(block_at(h, k)[m] == h[8 * k + m]);
    }
    assert(block_at(h, k) =~= decrypted(block_at(d, k)));
}

/// One byte of the data survives two header passes.
proof fn lemma_header_twice_at(d: Seq<u8>, i: int)
    requires
        0 <= i < d.len(),
    ensures
        header_decrypted(header_decrypted(d))[i] == d[i],
{
    let h = header_decrypted(d);
    let k = i / 8;
    if k < 20 && k < d.len() / 8 {
        lemma_header_block(d, k);
        law_decrypt_block_involution(block_at(d, k));
        assert(block_at(d, k)[i % 8] == d[i]);
    }
}

/// The header pass undoes itself: decrypting the header twice gives the data
/// back.
pub proof fn law_header_involution(d: Seq<u8>)
    ensures
        header_decrypted(header_decrypted(d)) == d,
{
    let hh = header_decrypted(header_decrypted(d));
    assert forall|i: int| 0 <= i < d.len() implies hh[i] == d[i] by {
        lemma_header_twice_at(d, i);
    }
    assert(hh =~= d);
}

/// The positions of the set bits of a block.
pub open spec fn set_bits(s: Seq<u8>) -> Set<int> {
    Set::new(|j: int| 0 <= j < 64 && bit(s, j))
}

/// A table whose inverse is `back` moves the set bits of a block around
/// without adding or losing any.
proof fn lemma_permute_keeps_count(x: Seq<u8>, table: Seq<u8>, back: Seq<u8>)
    requires
        x.len() == 8,
        valid_table(table),
        valid_table(back),
        forall|i: int| 0 <= i < 64 ==> #[trigger] back[table[i] - 1] == i + 1,
        forall|j: int| 0 <= j < 64 ==> #[trigger] table[back[j] - 1] == j + 1,
    ensures
        set_bits(permuted(x, table)).len() == set_bits(x).len(),
{
    let y = permuted(x, table);
    let a = set_bits(y);
    let b = set_bits(x);
    let f = |i: int| table[i] - 1;
    let g = |i: int| bit(x, table[i] - 1);
    assert forall|i: int| 0 <= i < 64 implies #[trigger] bit(y, i) == bit(x, table[i] - 1) by {
        lemma_from_bits(g, 8, i);
    }
    assert forall|j: int| #[trigger] a.map(f).contains(j) <==> b.contains(j) by {
        if b.contains(j) {
            let i = back[j] - 1;
            assert(table[back[j] - 1] == j + 1);
            assert(bit(y, i) == bit(x, table[i] - 1));
            assert(a.contains(i) && f(i) == j);
        }
        if a.map(f).contains(j) {
            let i = choose|i: int| a.contains(i) && f(i) == j;
            assert(bit(y, i) == bit(x, table[i] - 1));
        }
    }
    assert(a.map(f) =~= b);
    assert forall|i1: int, i2: int| a.contains(i1) && a.contains(i2) && #[trigger] f(i1) == #[trigger] f(i2) implies i1 == i2 by {
        assert(back[table[i1] - 1] == i1 + 1);
        assert(back[table[i2] - 1] == i2 + 1);
    }
    vstd::set_lib::lemma_int_range(0, 64);
    assert(a.subset_of(vstd::set_lib::set_int_range(0, 64)));
    vstd::set_lib::lemma_set_subset_finite(vstd::set_lib::set_int_range(0, 64), a);
    vstd::set_lib::lemma_map_size(a, b, f);
}

/// The initial and final permutations keep the number of set bits of a
/// block.
pub proof fn law_permutations_keep_set_bits(x: Seq<u8>)
    requires
        x.len() == 8,
    ensures
        set_bits(permuted(x, IP@)).len() == set_bits(x).len(),
        set_bits(permuted(x, FP@)).len() == set_bits(x).len(),
{
    lemma_tables_valid();
    lemma_permutations_inverse();
    lemma_permute_keeps_count(x, IP@, FP@);
    lemma_permute_keeps_count(x, FP@, IP@);
}

/// A shuffled block is a block.
proof fn lemma_shuffled_len(b: Seq<u8>)
    ensures
        shuffled(b).len() == 8,
{
}

/// Each whole block of the mixed cipher's output is what its action makes of
/// the block as stored.
proof fn lemma_mixed_block(d: Seq<u8>, cycle: int, is_data_crypted: bool, k: int)
    requires
        0 <= k < d.len() / 8,
    ensures
        block_at(mixed_decrypted(d, cycle, is_data_crypted), k) == apply_action(
            mixed_action(k, effective_cycle(cycle, is_data_crypted), is_data_crypted),
            block_at(d, k),
        ),
{
    let c = effective_cycle(cycle, is_data_crypted);
    let m = mixed_decrypted(d, cycle, is_data_crypted);
    let b = block_at(d, k);
    let a = apply_action(mixed_action(k, c, is_data_crypted), b);
    lemma_decrypted_len(b);
    lemma_shuffled_len(b);
    assert forall|j: int| 0 <= j < 8 implies #[trigger] block_at(m, k)[j] == a[j] by {
        assert((8 * k + j) / 8 == k);
        assert((8 * k + j) % 8 == j);
        assert(block_at(m, k)[j] == m[8 * k + j]);
    }
    assert(block_at(m, k) =~= a);
}

/// Past the header, the mixed cipher of an entry that is not only scrambled
/// decrypts exactly the blocks whose index is a multiple of the cycle it
/// works with: 3 for a cycle under 3, one more for 3 and 4, nine more for 5
/// and 6, fifteen more from 7 on. Every other block is left as stored or
/// shuffled, never decrypted.
pub proof fn law_mixed_cycle(d: Seq<u8>, cycle: int, k: int)
    requires
        cycle >= 0,
        20 <= k < d.len() / 8,
    ensures
        ({
            let period = if cycle < 3 {
                3
            } else if cycle < 5 {
                cycle + 1
            } else if cycle < 7 {
                cycle + 9
            } else {
                cycle + 15
            };
            let out = block_at(mixed_decrypted(d, cycle, false), k);
            let stored = block_at(d, k);
            &&& k % period == 0 ==> out == decrypted(stored)
            &&& k % period != 0 ==> (out == stored || out == shuffled(stored))
        }),
{
    lemma_mixed_block(d, cycle, false, k);
}

/// The last-byte substitution of a shuffled block trades values in pairs:
/// applying it twice gives the byte back, and it moves exactly the fourteen
/// values 0x00, 0x01, 0x2b, 0x48, 0x60, 0x68, 0x6c, 0x77, 0x80, 0xb9, 0xc0,
/// 0xeb, 0xfe and 0xff.
pub proof fn law_swap_pairs(b: u8)
    ensures
        swapped(swapped(b)) == b,
        (swapped(b) != b) == (b == 0x00 || b == 0x01 || b == 0x2b || b == 0x48 || b == 0x60 || b == 0x68
            || b == 0x6c || b == 0x77 || b == 0x80 || b == 0xb9 || b == 0xc0 || b == 0xeb || b == 0xfe
            || b == 0xff),
{
}

/// The digit count steps down with the number divided by ten: one digit
/// below ten, and one more than `n / 10` has from ten on.
pub proof fn law_digit_count_steps(c: int, n: int)
    requires
        n >= 0,
        is_digit_count(c, n),
    ensures
        n < 10 ==> c == 1,
        n >= 10 ==> is_digit_count(c - 1, n / 10),
{
    if n < 10 && c > 1 {
        lemma_pow10_monotone(1, (c - 1) as nat);
        reveal_with_fuel(pow10, 2);
    }
    if n >= 10 {
        if c == 1 {
            reveal_with_fuel(pow10, 2);
        } else {
            let p = pow10((c - 1) as nat);
            assert(pow10(c as nat) == 10 * p);
            if c - 1 == 1 {
                reveal_with_fuel(pow10, 2);
                assert(n / 10 < 10) by (nonlinear_arith) requires n < 100;
            } else {
                let q = pow10((c - 2) as nat);
                assert(p == 10 * q);
                assert(q <= n / 10 < p) by (nonlinear_arith)
                    requires 10 * q <= n, n < 10 * p;
            }
        }
    }
}

/// Whether an entry was only scrambled reads its name's extension whatever
/// its case: `.gnd`, `.gat`, `.act` and `.str` in any case, and nothing else.
pub proof fn law_plain_extensions(name: Seq<u8>)
    ensures
        has_plain_extension(name) == has_plain_extension(lowered(name)),
        has_plain_extension(name) == (
            ends_with(lowered(name), seq![0x2eu8, 0x67u8, 0x6eu8, 0x64u8])
            || ends_with(lowered(name), seq![0x2eu8, 0x67u8, 0x61u8, 0x74u8])
            || ends_with(lowered(name), seq![0x2eu8, 0x61u8, 0x63u8, 0x74u8])
            || ends_with(lowered(name), seq![0x2eu8, 0x73u8, 0x74u8, 0x72u8])
        ),
{
    assert(lowered(lowered(name)) =~= lowered(name));
    if ends_with(lowered(name), seq![0x2eu8, 0x67u8, 0x6eu8, 0x64u8]) {
        assert(ends_with(lowered(name), plain_extensions()[0]));
    }
    if ends_with(lowered(name), seq![0x2eu8, 0x67u8, 0x61u8, 0x74u8]) {
        assert(ends_with(lowered(name), plain_extensions()[1]));
    }
    if ends_with(lowered(name), seq![0x2eu8, 0x61u8, 0x63u8, 0x74u8]) {
        assert(ends_with(lowered(name), plain_extensions()[2]));
    }
    if ends_with(lowered(name), seq![0x2eu8, 0x73u8, 0x74u8, 0x72u8]) {
        assert(ends_with(lowered(name), plain_extensions()[3]));
    }
}

/// One step of counting multiples: `k / p` grows by one exactly at the
/// multiples of `p`.
proof fn lemma_div_step(k: int, p: int)
    requires
        k >= 1,
        p >= 1,
    ensures
        k / p - (k - 1) / p == if k % p == 0 { 1int } else { 0int },
{
    let q = (k - 1) / p;
    let r = (k - 1) % p;
    assert(k - 1 == q * p + r && 0 <= r < p) by (nonlinear_arith)
        requires p >= 1, q == (k - 1) / p, r == (k - 1) % p;
    if r == p - 1 {
        assert(k == (q + 1) * p) by (nonlinear_arith) requires k - 1 == q * p + r, r == p - 1;
        assert(k / p == q + 1 && k % p == 0) by (nonlinear_arith) requires k == (q + 1) * p, p >= 1;
    } else {
        assert(k == q * p + (r + 1)) by (nonlinear_arith) requires k - 1 == q * p + r;
        assert(k / p == q && k % p == r + 1) by (nonlinear_arith)
            requires k == q * p + (r + 1), 0 <= r + 1 < p, q >= 0;
    }
}

/// Before block `k` past the header, the blocks a mixed cipher with period
/// `p` leaves undecrypted are those from 20 on whose index is not a multiple
/// of `p`.
proof fn lemma_untouched_count(k: int, p: int)
    requires
        k >= 20,
        p >= 3,
    ensures
        untouched_before(k, p, false) == (k - 20) - ((k - 1) / p - 19int / p),
    decreases k,
{
    if k == 20 {
        assert forall|j: int| 0 <= j <= 20 implies untouched_before(j, p, false) == 0 by {
            lemma_untouched_prefix(j, p);
        }
        assert((k - 1) / p == 19int / p);
    } else {
        lemma_untouched_count(k - 1, p);
        lemma_div_step(k - 1, p);
    }
}

/// No block of the header is left undecrypted.
proof fn lemma_untouched_prefix(j: int, p: int)
    requires
        0 <= j <= 20,
    ensures
        untouched_before(j, p, false) == 0,
    decreases j,
{
    if j > 0 {
        lemma_untouched_prefix(j - 1, p);
    }
}

/// Past the header, the blocks the mixed cipher of an entry that is not only
/// scrambled leaves undecrypted are counted from zero, and each whose count is
/// a positive multiple of seven is shuffled: the eighth, the fifteenth, and so
/// on; the others stay as stored.
pub proof fn law_mixed_shuffles(d: Seq<u8>, cycle: int, k: int)
    requires
        cycle >= 0,
        20 <= k < d.len() / 8,
    ensures
        ({
            let period = if cycle < 3 {
                3
            } else if cycle < 5 {
                cycle + 1
            } else if cycle < 7 {
                cycle + 9
            } else {
                cycle + 15
            };
            let untouched = (k - 20) - ((k - 1) / period - 19int / period);
            let out = block_at(mixed_decrypted(d, cycle, false), k);
            let stored = block_at(d, k);
            k % period != 0 ==> (out == if untouched >= 7 && untouched % 7 == 0 {
                shuffled(stored)
            } else {
                stored
            })
        }),
{
    lemma_mixed_block(d, cycle, false, k);
    lemma_untouched_count(k, effective_cycle(cycle, false));
}

} // verus!
