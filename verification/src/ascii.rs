//! ASCII case folding on bytes, leaving every byte outside `A`..=`Z` alone.
use vstd::prelude::*;

verus! {

/// `b` with an ASCII upper-case letter folded to lower case.
pub open spec fn ascii_lower(b: u8) -> u8 {
    if 0x41 <= b <= 0x5a {
        (b + 0x20) as u8
    } else {
        b
    }
}

/// Every byte of `s` folded with [`ascii_lower`].
pub open spec fn lowered(s: Seq<u8>) -> Seq<u8> {
    s.map_values(|b: u8| ascii_lower(b))
}

/// Whether `s` ends with `suffix`.
pub open spec fn ends_with(s: Seq<u8>, suffix: Seq<u8>) -> bool {
    s.len() >= suffix.len() && s.subrange(s.len() - suffix.len(), s.len() as int) == suffix
}

pub fn to_ascii_lower(b: u8) -> (r: u8)
    ensures
        r == ascii_lower(b),
{
    if 0x41 <= b && b <= 0x5a {
        b + 0x20
    } else {
        b
    }
}

/// Whether `s`, folded to lower case, ends with `suffix`.
pub fn ends_with_ignore_case(s: &[u8], suffix: &[u8]) -> (r: bool)
    ensures
        r == ends_with(lowered(s@), suffix@),
{
    if s.len() < suffix.len() {
        return false;
    }
    let start = s.len() - suffix.len();
    let mut i: usize = 0;
    while i < suffix.len()
        invariant
            start == s.len() - suffix.len(),
            i <= suffix.len(),
            forall|k: int| 0 <= k < i ==> ascii_lower(#[trigger] s@[start + k]) == suffix@[k],
        decreases suffix.len() - i,
    {
        if to_ascii_lower(s[start + i]) != suffix[i] {
            assert(lowered(s@).subrange(start as int, s@.len() as int)[i as int] != suffix@[i as int]);
            return false;
        }
        i += 1;
    }
    let ghost tail = lowered(s@).subrange(start as int, s@.len() as int);
    assert forall|k: int| 0 <= k < suffix@.len() implies tail[k] == suffix@[k] by {
        assert(ascii_lower(s@[start + k]) == suffix@[k]);
    }
    assert(tail =~= suffix@);
    true
}

/// Whether `s` starts with `prefix`.
pub open spec fn starts_with(s: Seq<u8>, prefix: Seq<u8>) -> bool {
    s.len() >= prefix.len() && s.take(prefix.len() as int) == prefix
}

pub fn starts_with_bytes(s: &[u8], prefix: &[u8]) -> (r: bool)
    ensures
        r == starts_with(s@, prefix@),
{
    if s.len() < prefix.len() {
        return false;
    }
    let mut i: usize = 0;
    while i < prefix.len()
        invariant
            s@.len() >= prefix@.len(),
            i <= prefix@.len(),
            forall|k: int| 0 <= k < i ==> s@[k] == prefix@[k],
        decreases prefix@.len() - i,
    {
        if s[i] != prefix[i] {
            assert(s@.take(prefix@.len() as int)[i as int] != prefix@[i as int]);
            return false;
        }
        i += 1;
    }
    assert(s@.take(prefix@.len() as int) =~= prefix@);
    true
}

/// `s` folded to ASCII lower case.
pub fn lowercase(s: &[u8]) -> (r: Vec<u8>)
    ensures
        r@ == lowered(s@),
{
    let mut out: Vec<u8> = Vec::new();
    let mut i: usize = 0;
    while i < s.len()
        invariant
            i <= s@.len(),
            out@ == lowered(s@.take(i as int)),
        decreases s@.len() - i,
    {
        let b = to_ascii_lower(s[i]);
        out.push(b);
        assert(lowered(s@.take(i + 1)) =~= lowered(s@.take(i as int)).push(b));
        i += 1;
    }
    assert(s@.take(i as int) =~= s@);
    out
}

} // verus!
