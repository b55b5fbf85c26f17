//! Bit-level view of byte sequences, as the block cipher addresses them: bit
//! `j` of a sequence is bit `j % 8` of byte `j / 8`, counting from the most
//! significant bit of each byte.
use vstd::prelude::*;

verus! {

/// Bit `m` of `b`, where bit 0 is the most significant one.
pub open spec fn bit_of(b: u8, m: u8) -> bool {
    b & (0x80u8 >> m) != 0
}

/// Bit `j` of the byte sequence `s`.
pub open spec fn bit(s: Seq<u8>, j: int) -> bool {
    bit_of(s[j / 8], (j % 8) as u8)
}

/// The byte whose bits, from the most significant down, are `b0` to `b7`.
pub open spec fn byte_from(b0: bool, b1: bool, b2: bool, b3: bool, b4: bool, b5: bool, b6: bool, b7: bool) -> u8 {
    (if b0 { 0x80u8 } else { 0u8 }) | (if b1 { 0x40u8 } else { 0u8 }) | (if b2 { 0x20u8 } else { 0u8 })
        | (if b3 { 0x10u8 } else { 0u8 }) | (if b4 { 0x08u8 } else { 0u8 }) | (if b5 { 0x04u8 } else { 0u8 })
        | (if b6 { 0x02u8 } else { 0u8 }) | (if b7 { 0x01u8 } else { 0u8 })
}

/// The `n`-byte sequence whose bit `j` is `f(j)`.
pub open spec fn from_bits(f: spec_fn(int) -> bool, n: nat) -> Seq<u8> {
    Seq::new(
        n,
        |k: int|
            byte_from(
                f(8 * k),
                f(8 * k + 1),
                f(8 * k + 2),
                f(8 * k + 3),
                f(8 * k + 4),
                f(8 * k + 5),
                f(8 * k + 6),
                f(8 * k + 7),
            ),
    )
}

pub proof fn lemma_mask_values()
    ensures
        0x80u8 >> 0u8 == 0x80u8,
        0x80u8 >> 1u8 == 0x40u8,
        0x80u8 >> 2u8 == 0x20u8,
        0x80u8 >> 3u8 == 0x10u8,
        0x80u8 >> 4u8 == 0x08u8,
        0x80u8 >> 5u8 == 0x04u8,
        0x80u8 >> 6u8 == 0x02u8,
        0x80u8 >> 7u8 == 0x01u8,
{
    assert(0x80u8 >> 0u8 == 0x80u8 && 0x80u8 >> 1u8 == 0x40u8 && 0x80u8 >> 2u8 == 0x20u8
        && 0x80u8 >> 3u8 == 0x10u8 && 0x80u8 >> 4u8 == 0x08u8 && 0x80u8 >> 5u8 == 0x04u8
        && 0x80u8 >> 6u8 == 0x02u8 && 0x80u8 >> 7u8 == 0x01u8) by (bit_vector);
}

/// Setting bit `m` of a byte sets that bit and leaves the others alone.
pub proof fn lemma_set_bit(x: u8, m: u8, n: u8)
    requires
        m < 8,
        n < 8,
    ensures
        bit_of(x | (0x80u8 >> m), n) == (m == n || bit_of(x, n)),
{
    assert(((x | (0x80u8 >> m)) & (0x80u8 >> n) != 0) == (m == n || (x & (0x80u8 >> n) != 0)))
        by (bit_vector)
        requires
            m < 8,
            n < 8,
    ;
}

/// The zero byte has no bit set.
pub proof fn lemma_zero_bits(n: u8)
    requires
        n < 8,
    ensures
        !bit_of(0u8, n),
{
    assert(0u8 & (0x80u8 >> n) == 0u8) by (bit_vector);
}

/// Two bytes that agree on all eight bits are equal.
pub proof fn lemma_byte_ext(x: u8, y: u8)
    requires
        bit_of(x, 0) == bit_of(y, 0),
        bit_of(x, 1) == bit_of(y, 1),
        bit_of(x, 2) == bit_of(y, 2),
        bit_of(x, 3) == bit_of(y, 3),
        bit_of(x, 4) == bit_of(y, 4),
        bit_of(x, 5) == bit_of(y, 5),
        bit_of(x, 6) == bit_of(y, 6),
        bit_of(x, 7) == bit_of(y, 7),
    ensures
        x == y,
{
    lemma_mask_values();
    assert(x == y) by (bit_vector)
        requires
            (x & 0x80u8 != 0) == (y & 0x80u8 != 0),
            (x & 0x40u8 != 0) == (y & 0x40u8 != 0),
            (x & 0x20u8 != 0) == (y & 0x20u8 != 0),
            (x & 0x10u8 != 0) == (y & 0x10u8 != 0),
            (x & 0x08u8 != 0) == (y & 0x08u8 != 0),
            (x & 0x04u8 != 0) == (y & 0x04u8 != 0),
            (x & 0x02u8 != 0) == (y & 0x02u8 != 0),
            (x & 0x01u8 != 0) == (y & 0x01u8 != 0),
    ;
}

/// The bits of `byte_from` are its arguments.
pub proof fn lemma_byte_from_bits(b0: bool, b1: bool, b2: bool, b3: bool, b4: bool, b5: bool, b6: bool, b7: bool)
    ensures
        bit_of(byte_from(b0, b1, b2, b3, b4, b5, b6, b7), 0) == b0,
        bit_of(byte_from(b0, b1, b2, b3, b4, b5, b6, b7), 1) == b1,
        bit_of(byte_from(b0, b1, b2, b3, b4, b5, b6, b7), 2) == b2,
        bit_of(byte_from(b0, b1, b2, b3, b4, b5, b6, b7), 3) == b3,
        bit_of(byte_from(b0, b1, b2, b3, b4, b5, b6, b7), 4) == b4,
        bit_of(byte_from(b0, b1, b2, b3, b4, b5, b6, b7), 5) == b5,
        bit_of(byte_from(b0, b1, b2, b3, b4, b5, b6, b7), 6) == b6,
        bit_of(byte_from(b0, b1, b2, b3, b4, b5, b6, b7), 7) == b7,
{
    let x = byte_from(b0, b1, b2, b3, b4, b5, b6, b7);
    lemma_mask_values();
    assert(
        (x & 0x80u8 != 0) == b0 && (x & 0x40u8 != 0) == b1 && (x & 0x20u8 != 0) == b2
        && (x & 0x10u8 != 0) == b3 && (x & 0x08u8 != 0) == b4 && (x & 0x04u8 != 0) == b5
        && (x & 0x02u8 != 0) == b6 && (x & 0x01u8 != 0) == b7
    ) by (bit_vector)
        requires
            x == (if b0 { 0x80u8 } else { 0u8 }) | (if b1 { 0x40u8 } else { 0u8 }) | (if b2 { 0x20u8 } else { 0u8 })
                | (if b3 { 0x10u8 } else { 0u8 }) | (if b4 { 0x08u8 } else { 0u8 }) | (if b5 { 0x04u8 } else { 0u8 })
                | (if b6 { 0x02u8 } else { 0u8 }) | (if b7 { 0x01u8 } else { 0u8 }),
    ;
}

/// Bit `j` of `from_bits(f, n)` is `f(j)`.
pub proof fn lemma_from_bits(f: spec_fn(int) -> bool, n: nat, j: int)
    requires
        0 <= j < 8 * n,
    ensures
        bit(from_bits(f, n), j) == f(j),
{
    let k = j / 8;
    let m = j % 8;
    lemma_byte_from_bits(
        f(8 * k),
        f(8 * k + 1),
        f(8 * k + 2),
        f(8 * k + 3),
        f(8 * k + 4),
        f(8 * k + 5),
        f(8 * k + 6),
        f(8 * k + 7),
    );
    assert(j == 8 * k + m);
}

/// A byte sequence is `from_bits` of its own bits.
pub proof fn lemma_bits_determine(s: Seq<u8>, f: spec_fn(int) -> bool, n: nat)
    requires
        s.len() == n,
        forall|j: int| 0 <= j < 8 * n ==> #[trigger] bit(s, j) == f(j),
    ensures
        s == from_bits(f, n),
{
    let t = from_bits(f, n);
    assert forall|k: int| 0 <= k < n implies s[k] == t[k] by {
        lemma_from_bits(f, n, 8 * k + 0);
        assert(bit(s, 8 * k + 0) == bit(t, 8 * k + 0));
        lemma_from_bits(f, n, 8 * k + 1);
        assert(bit(s, 8 * k + 1) == bit(t, 8 * k + 1));
        lemma_from_bits(f, n, 8 * k + 2);
        assert(bit(s, 8 * k + 2) == bit(t, 8 * k + 2));
        lemma_from_bits(f, n, 8 * k + 3);
        assert(bit(s, 8 * k + 3) == bit(t, 8 * k + 3));
        lemma_from_bits(f, n, 8 * k + 4);
        assert(bit(s, 8 * k + 4) == bit(t, 8 * k + 4));
        lemma_from_bits(f, n, 8 * k + 5);
        assert(bit(s, 8 * k + 5) == bit(t, 8 * k + 5));
        lemma_from_bits(f, n, 8 * k + 6);
        assert(bit(s, 8 * k + 6) == bit(t, 8 * k + 6));
        lemma_from_bits(f, n, 8 * k + 7);
        assert(bit(s, 8 * k + 7) == bit(t, 8 * k + 7));
        lemma_byte_ext(s[k], t[k]);
    }
    assert(s =~= t);
}

} // verus!
