//! Building strings: hexadecimal numbers and byte-per-character text.
use vstd::prelude::*;

verus! {

/// Appends one character to a string. Specifies `String::push`, which the
/// standard library documents as appending the given char to the end of the
/// string.
#[verifier::external_body]
pub fn push_char(s: &mut String, c: char)
    ensures
        final(s)@ == old(s)@.push(c),
{
    s.push(c);
}

/// The lower-case hexadecimal digit for `d < 16`.
pub open spec fn hex_digit(d: nat) -> char {
    if d < 10 {
        (0x30 + d) as char
    } else {
        (0x61 + d - 10) as char
    }
}

/// `n` in lower-case hexadecimal, without leading zeros (`"0"` for zero).
pub open spec fn hex_digits(n: nat) -> Seq<char>
    decreases n,
{
    if n < 16 {
        seq![hex_digit(n)]
    } else {
        hex_digits(n / 16) + seq![hex_digit(n % 16)]
    }
}

/// `n` in lower-case hexadecimal, zero-padded on the left to `width` digits.
pub open spec fn hex_padded(n: nat, width: nat) -> Seq<char> {
    let digits = hex_digits(n);
    if digits.len() >= width {
        digits
    } else {
        Seq::new((width - digits.len()) as nat, |i: int| '0') + digits
    }
}

fn hex_digit_char(d: u64) -> (c: char)
    requires
        d < 16,
    ensures
        c == hex_digit(d as nat),
{
    let cs: [char; 16] = ['0', '1', '2', '3', '4', '5', '6', '7', '8', '9', 'a', 'b', 'c', 'd', 'e', 'f'];
    cs[d as usize]
}

/// Appends `n` in lower-case hexadecimal.
pub fn push_hex(s: &mut String, n: u64)
    ensures
        final(s)@ == old(s)@ + hex_digits(n as nat),
    decreases n,
{
    if n >= 16 {
        push_hex(s, n / 16);
    }
    let c = hex_digit_char(n % 16);
    push_char(s, c);
    assert(s@ =~= old(s)@ + hex_digits(n as nat));
}

spec fn pow16(k: nat) -> nat
    decreases k,
{
    if k == 0 {
        1
    } else {
        16 * pow16((k - 1) as nat)
    }
}

proof fn lemma_hex_len_bound(n: nat, k: nat)
    requires
        n < pow16(k),
    ensures
        1 <= hex_digits(n).len() <= k || (k == 0),
    decreases k,
{
    if n >= 16 && k > 0 {
        lemma_hex_len_bound(n / 16, (k - 1) as nat);
    }
}

proof fn lemma_hex_len(n: nat)
    requires
        n < 0x1_0000_0000_0000_0000,
    ensures
        1 <= hex_digits(n).len() <= 16,
{
    reveal_with_fuel(pow16, 17);
    lemma_hex_len_bound(n, 16);
}

fn hex_len(n: u64) -> (r: usize)
    ensures
        r == hex_digits(n as nat).len(),
    decreases n,
{
    proof {
        lemma_hex_len(n as nat);
    }
    if n >= 16 {
        hex_len(n / 16) + 1
    } else {
        1
    }
}

/// Appends `n` in lower-case hexadecimal, zero-padded to `width` digits.
pub fn push_hex_padded(s: &mut String, n: u64, width: usize)
    ensures
        final(s)@ == old(s)@ + hex_padded(n as nat, width as nat),
{
    let len = hex_len(n);
    let mut k = len;
    while k < width
        invariant
            len == hex_digits(n as nat).len(),
            len <= k <= width || (k == len && width <= len),
            s@ == old(s)@ + Seq::new((k - len) as nat, |i: int| '0'),
        decreases width - k,
    {
        push_char(s, '0');
        assert(s@ =~= old(s)@ + Seq::new((k + 1 - len) as nat, |i: int| '0'));
        k += 1;
    }
    push_hex(s, n);
    assert(s@ =~= old(s)@ + hex_padded(n as nat, width as nat));
}

} // verus!
