//! FNV-1a, 64-bit. Not cryptographic, and it does not need to be: it only has
//! to be cheap and identical across runs, which `std`'s randomly seeded
//! `DefaultHasher` is not.
use vstd::prelude::*;

verus! {

pub const FNV_OFFSET: u64 = 0xcbf2_9ce4_8422_2325;

pub const FNV_PRIME: u64 = 0x0000_0100_0000_01b3;

/// One FNV-1a step: fold the byte in, then multiply modulo `2^64`.
pub open spec fn fnv_step(h: u64, b: u8) -> u64 {
    vstd::wrapping::u64_specs::wrapping_mul(h ^ (b as u64), FNV_PRIME)
}

/// FNV-1a of `s`, starting from the state `h`.
pub open spec fn fnv_from(h: u64, s: Seq<u8>) -> u64
    decreases s.len(),
{
    if s.len() == 0 {
        h
    } else {
        fnv_step(fnv_from(h, s.drop_last()), s.last())
    }
}

/// FNV-1a of the byte sequence `s`.
pub open spec fn fnv(s: Seq<u8>) -> u64 {
    fnv_from(FNV_OFFSET, s)
}

/// The concatenation of the chunks.
pub open spec fn concat_chunks(chunks: Seq<&[u8]>) -> Seq<u8> {
    chunks.map_values(|c: &[u8]| c@).flatten()
}

/// FNV-1a over a list of chunks, as if they were one run of bytes.
pub fn fnv1a64(chunks: &[&[u8]]) -> (r: u64)
    ensures
        r == fnv(concat_chunks(chunks@)),
{
    let mut hash: u64 = FNV_OFFSET;
    let ghost views = chunks@.map_values(|c: &[u8]| c@);
    let mut i: usize = 0;
    while i < chunks.len()
        invariant
            i <= chunks@.len(),
            views == chunks@.map_values(|c: &[u8]| c@),
            hash == fnv(views.take(i as int).flatten()),
        decreases chunks@.len() - i,
    {
        let chunk: &[u8] = chunks[i];
        let ghost done = views.take(i as int).flatten();
        let mut j: usize = 0;
        while j < chunk.len()
            invariant
                j <= chunk@.len(),
                hash == fnv(done + chunk@.take(j as int)),
            decreases chunk@.len() - j,
        {
            let ghost prefix = done + chunk@.take(j as int);
            assert((done + chunk@.take(j + 1)).drop_last() =~= prefix);
            hash = (hash ^ chunk[j] as u64).wrapping_mul(FNV_PRIME);
            j += 1;
        }
        proof {
            assert(chunk@.take(j as int) =~= chunk@);
            assert(views.take(i + 1) =~= views.take(i as int).push(views[i as int]));
            views.take(i as int).lemma_flatten_push(views[i as int]);
        }
        i += 1;
    }
    assert(views.take(i as int) =~= views);
    hash
}

/// FNV-1a of a single run of bytes.
pub fn fnv1a64_bytes(bytes: &[u8]) -> (r: u64)
    ensures
        r == fnv(bytes@),
{
    let mut hash: u64 = FNV_OFFSET;
    let mut j: usize = 0;
    while j < bytes.len()
        invariant
            j <= bytes@.len(),
            hash == fnv(bytes@.take(j as int)),
        decreases bytes@.len() - j,
    {
        assert(bytes@.take(j + 1).drop_last() =~= bytes@.take(j as int));
        hash = (hash ^ bytes[j] as u64).wrapping_mul(FNV_PRIME);
        j += 1;
    }
    assert(bytes@.take(j as int) =~= bytes@);
    hash
}

} // verus!
