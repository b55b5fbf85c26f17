//! The decisions behind an HTTP answer: the content type a path is served
//! with, whether the client takes deflate, the entity tag, whether a
//! conditional request is answered "not modified", and the request path and
//! search form as bytes.
use vstd::prelude::*;
use vstd::slice::slice_subrange;
use vstd::utf8::encode_utf8;
use crate::ascii::{lowercase, lowered, starts_with};
use crate::keyed::bytes_equal;
use crate::paths::{extension, find_extension, law_extension_by_shape, same_shape};
use crate::text::push_char;

verus! {

/// Whether `e` is an extension that folds to `lit` under ASCII lower-casing.
pub open spec fn extension_is(e: Option<Seq<u8>>, lit: Seq<u8>) -> bool {
    e matches Some(x) && lowered(x) == lit
}

/// The media type a path is served with, by its extension, whatever its
/// case.
pub open spec fn content_type_of(path: Seq<u8>) -> Seq<char> {
    let e = extension(path);
    if extension_is(e, seq![0x62u8, 0x6du8, 0x70u8]) {
        "image/bmp"@
    } else if extension_is(e, seq![0x6au8, 0x70u8, 0x67u8]) || extension_is(e, seq![0x6au8, 0x70u8, 0x65u8, 0x67u8]) {
        "image/jpeg"@
    } else if extension_is(e, seq![0x67u8, 0x69u8, 0x66u8]) {
        "image/gif"@
    } else if extension_is(e, seq![0x70u8, 0x6eu8, 0x67u8]) {
        "image/png"@
    } else if extension_is(e, seq![0x77u8, 0x65u8, 0x62u8, 0x70u8]) {
        "image/webp"@
    } else if extension_is(e, seq![0x6du8, 0x70u8, 0x33u8]) {
        "audio/mpeg"@
    } else if extension_is(e, seq![0x77u8, 0x61u8, 0x76u8]) {
        "audio/wav"@
    } else if extension_is(e, seq![0x6fu8, 0x74u8, 0x66u8]) {
        "font/otf"@
    } else if extension_is(e, seq![0x74u8, 0x74u8, 0x66u8]) {
        "font/ttf"@
    } else if extension_is(e, seq![0x78u8, 0x6du8, 0x6cu8]) {
        "text/xml"@
    } else if extension_is(e, seq![0x74u8, 0x78u8, 0x74u8]) || extension_is(e, seq![0x6cu8, 0x75u8, 0x61u8]) {
        "text/plain"@
    } else {
        "application/octet-stream"@
    }
}

/// The media type a request path is served with.
pub fn content_type(path: &[u8]) -> (r: &'static str)
    ensures
        r@ == content_type_of(path@),
{
    let e = match find_extension(path) {
        Some((s, e)) => slice_subrange(path, s, e),
        None => return "application/octet-stream",
    };
    let low = lowercase(e);
    let ext = low.as_slice();
    let bmp: [u8; 3] = [0x62, 0x6d, 0x70];
    let jpg: [u8; 3] = [0x6a, 0x70, 0x67];
    let jpeg: [u8; 4] = [0x6a, 0x70, 0x65, 0x67];
    let gif: [u8; 3] = [0x67, 0x69, 0x66];
    let png: [u8; 3] = [0x70, 0x6e, 0x67];
    let webp: [u8; 4] = [0x77, 0x65, 0x62, 0x70];
    let mp3: [u8; 3] = [0x6d, 0x70, 0x33];
    let wav: [u8; 3] = [0x77, 0x61, 0x76];
    let otf: [u8; 3] = [0x6f, 0x74, 0x66];
    let ttf: [u8; 3] = [0x74, 0x74, 0x66];
    let xml: [u8; 3] = [0x78, 0x6d, 0x6c];
    let txt: [u8; 3] = [0x74, 0x78, 0x74];
    let lua: [u8; 3] = [0x6c, 0x75, 0x61];
    proof {
        assert(bmp@ =~= seq![0x62u8, 0x6du8, 0x70u8]);
        assert(jpg@ =~= seq![0x6au8, 0x70u8, 0x67u8]);
        assert(jpeg@ =~= seq![0x6au8, 0x70u8, 0x65u8, 0x67u8]);
        assert(gif@ =~= seq![0x67u8, 0x69u8, 0x66u8]);
        assert(png@ =~= seq![0x70u8, 0x6eu8, 0x67u8]);
        assert(webp@ =~= seq![0x77u8, 0x65u8, 0x62u8, 0x70u8]);
        assert(mp3@ =~= seq![0x6du8, 0x70u8, 0x33u8]);
        assert(wav@ =~= seq![0x77u8, 0x61u8, 0x76u8]);
        assert(otf@ =~= seq![0x6fu8, 0x74u8, 0x66u8]);
        assert(ttf@ =~= seq![0x74u8, 0x74u8, 0x66u8]);
        assert(xml@ =~= seq![0x78u8, 0x6du8, 0x6cu8]);
        assert(txt@ =~= seq![0x74u8, 0x78u8, 0x74u8]);
        assert(lua@ =~= seq![0x6cu8, 0x75u8, 0x61u8]);
    }
    if bytes_equal(ext, bmp.as_slice()) {
        "image/bmp"
    } else if bytes_equal(ext, jpg.as_slice()) || bytes_equal(ext, jpeg.as_slice()) {
        "image/jpeg"
    } else if bytes_equal(ext, gif.as_slice()) {
        "image/gif"
    } else if bytes_equal(ext, png.as_slice()) {
        "image/png"
    } else if bytes_equal(ext, webp.as_slice()) {
        "image/webp"
    } else if bytes_equal(ext, mp3.as_slice()) {
        "audio/mpeg"
    } else if bytes_equal(ext, wav.as_slice()) {
        "audio/wav"
    } else if bytes_equal(ext, otf.as_slice()) {
        "font/otf"
    } else if bytes_equal(ext, ttf.as_slice()) {
        "font/ttf"
    } else if bytes_equal(ext, xml.as_slice()) {
        "text/xml"
    } else if bytes_equal(ext, txt.as_slice()) || bytes_equal(ext, lua.as_slice()) {
        "text/plain"
    } else {
        "application/octet-stream"
    }
}

/// Whether `b` is ASCII white space, as `str::trim` strips it from ASCII text.
pub open spec fn is_ascii_space(b: u8) -> bool {
    b == 0x20 || b == 0x09 || b == 0x0a || b == 0x0b || b == 0x0c || b == 0x0d
}

/// The first position at or after `i` that does not hold white space, or the
/// length of `s`.
pub open spec fn skip_space(s: Seq<u8>, i: int) -> int
    decreases s.len() - i,
{
    if i < 0 || i >= s.len() || !is_ascii_space(s[i]) {
        i
    } else {
        skip_space(s, i + 1)
    }
}

/// The position just past the last byte before `j` that is not white space,
/// or `lo` when there is none from `lo` on.
pub open spec fn trim_end_at(s: Seq<u8>, lo: int, j: int) -> int
    decreases j - lo,
{
    if j <= lo || !is_ascii_space(s[j - 1]) {
        j
    } else {
        trim_end_at(s, lo, j - 1)
    }
}

/// `s` without its leading and trailing white space.
pub open spec fn trimmed(s: Seq<u8>) -> Seq<u8> {
    let a = skip_space(s, 0);
    s.subrange(a, trim_end_at(s, a, s.len() as int))
}

/// The first comma at or after `i`, or the length of `s`.
pub open spec fn field_end(s: Seq<u8>, i: int) -> int
    decreases s.len() - i,
{
    if i < 0 || i >= s.len() || s[i] == 0x2c {
        i
    } else {
        field_end(s, i + 1)
    }
}

/// `deflate`.
pub open spec fn deflate_token() -> Seq<u8> {
    seq![0x64u8, 0x65u8, 0x66u8, 0x6cu8, 0x61u8, 0x74u8, 0x65u8]
}

/// Whether a coding token names deflate: `deflate`, bare or with parameters.
pub open spec fn names_deflate(t: Seq<u8>) -> bool {
    t == deflate_token() || starts_with(t, deflate_token().push(0x3bu8))
}

/// Whether one of the comma-separated fields from position `i` on names
/// deflate once trimmed.
pub open spec fn deflate_listed_from(s: Seq<u8>, i: int) -> bool
    decreases s.len() - i,
{
    if i < 0 || i > s.len() {
        false
    } else {
        proof {
            lemma_field_end(s, i);
        }
        let e = field_end(s, i);
        names_deflate(trimmed(s.subrange(i, e))) || (e < s.len() && deflate_listed_from(s, e + 1))
    }
}

/// Whether an `Accept-Encoding` value lists deflate.
pub open spec fn accepts_deflate_value(value: Seq<u8>) -> bool {
    deflate_listed_from(value, 0)
}

proof fn lemma_skip_space(s: Seq<u8>, i: int)
    requires
        0 <= i <= s.len(),
    ensures
        i <= skip_space(s, i) <= s.len(),
    decreases s.len() - i,
{
    if i < s.len() && is_ascii_space(s[i]) {
        lemma_skip_space(s, i + 1);
    }
}

proof fn lemma_trim_end_at(s: Seq<u8>, lo: int, j: int)
    requires
        lo <= j,
    ensures
        lo <= trim_end_at(s, lo, j) <= j,
    decreases j - lo,
{
    if j > lo && is_ascii_space(s[j - 1]) {
        lemma_trim_end_at(s, lo, j - 1);
    }
}

/// A field ends within the value, at a comma or at the end.
pub proof fn lemma_field_end(s: Seq<u8>, i: int)
    requires
        0 <= i <= s.len(),
    ensures
        i <= field_end(s, i) <= s.len(),
        field_end(s, i) < s.len() ==> s[field_end(s, i)] == 0x2c,
    decreases s.len() - i,
{
    if i < s.len() && s[i] != 0x2c {
        lemma_field_end(s, i + 1);
    }
}

fn is_space(b: u8) -> (r: bool)
    ensures
        r == is_ascii_space(b),
{
    b == 0x20 || b == 0x09 || b == 0x0a || b == 0x0b || b == 0x0c || b == 0x0d
}

/// The bytes of `s` from `lo` to `hi`, trimmed.
fn trim(s: &[u8], lo: usize, hi: usize) -> (r: (usize, usize))
    requires
        lo <= hi <= s@.len(),
    ensures
        lo <= r.0 <= r.1 <= hi,
        s@.subrange(r.0 as int, r.1 as int) == trimmed(s@.subrange(lo as int, hi as int)),
{
    let ghost f = s@.subrange(lo as int, hi as int);
    let mut a = lo;
    while a < hi && is_space(s[a])
        invariant
            lo <= a <= hi <= s@.len(),
            f == s@.subrange(lo as int, hi as int),
            skip_space(f, 0) == skip_space(f, a - lo),
        decreases hi - a,
    {
        assert(f[a - lo] == s@[a as int]);
        a += 1;
    }
    proof {
        if a < hi {
            assert(f[a - lo] == s@[a as int]);
        }
        assert(skip_space(f, a - lo) == a - lo);
    }
    let mut b = hi;
    while b > a && is_space(s[b - 1])
        invariant
            lo <= a <= b <= hi <= s@.len(),
            f == s@.subrange(lo as int, hi as int),
            skip_space(f, 0) == a - lo,
            trim_end_at(f, a - lo, f.len() as int) == trim_end_at(f, a - lo, b - lo),
        decreases b - a,
    {
        assert(f[b - 1 - lo] == s@[b - 1]);
        b -= 1;
    }
    proof {
        if b > a {
            assert(f[b - 1 - lo] == s@[b - 1]);
        }
        assert(trim_end_at(f, a - lo, b - lo) == b - lo);
        assert(trimmed(f) =~= s@.subrange(a as int, b as int));
    }
    (a, b)
}

/// Whether the bytes of `s` from `lo` to `hi` name deflate.
fn range_names_deflate(s: &[u8], lo: usize, hi: usize) -> (r: bool)
    requires
        lo <= hi <= s@.len(),
    ensures
        r == names_deflate(s@.subrange(lo as int, hi as int)),
{
    let ghost t = s@.subrange(lo as int, hi as int);
    let token: [u8; 8] = [0x64, 0x65, 0x66, 0x6c, 0x61, 0x74, 0x65, 0x3b];
    assert(token@.take(7) =~= deflate_token());
    assert(token@ =~= deflate_token().push(0x3bu8));
    let n = hi - lo;
    if n < 7 {
        assert(t.len() < 7);
        return false;
    }
    let mut i: usize = 0;
    while i < 7
        invariant
            i <= 7 <= n == hi - lo,
            hi <= s@.len(),
            t == s@.subrange(lo as int, hi as int),
            token@ == deflate_token().push(0x3bu8),
            forall|k: int| 0 <= k < i ==> t[k] == token@[k],
        decreases 7 - i,
    {
        if s[lo + i] != token[i] {
            proof {
                assert(t[i as int] == s@[lo + i]);
                assert(t[i as int] != deflate_token()[i as int]);
                if t.len() >= 8 {
                    assert(t.take(8)[i as int] == t[i as int]);
                    assert(t.take(8) != deflate_token().push(0x3bu8));
                }
            }
            return false;
        }
        i += 1;
    }
    assert(t.take(7) =~= deflate_token());
    if n == 7 {
        assert(t =~= deflate_token());
        return true;
    }
    let r = s[lo + 7] == 0x3b;
    proof {
        if r {
            assert(t.take(8) =~= deflate_token().push(0x3bu8));
        } else {
            assert(t.take(8)[7] != 0x3b);
            assert(t.len() != 7);
        }
    }
    r
}

/// Whether an `Accept-Encoding` value, read as ASCII, lists deflate: a
/// comma-separated field that, trimmed of white space, is `deflate` or starts
/// with `deflate;`.
pub fn accepts_deflate(value: &[u8]) -> (r: bool)
    ensures
        r == accepts_deflate_value(value@),
{
    let mut i: usize = 0;
    loop
        invariant
            i <= value@.len(),
            deflate_listed_from(value@, 0) == deflate_listed_from(value@, i as int),
        decreases value@.len() - i,
    {
        let mut e = i;
        proof {
            lemma_field_end(value@, i as int);
        }
        while e < value.len() && value[e] != 0x2c
            invariant
                i <= e <= value@.len(),
                field_end(value@, i as int) == field_end(value@, e as int),
            decreases value@.len() - e,
        {
            e += 1;
        }
        assert(field_end(value@, e as int) == e);
        let (a, b) = trim(value, i, e);
        if range_names_deflate(value, a, b) {
            return true;
        }
        if e == value.len() {
            return false;
        }
        i = e + 1;
    }
}

/// The entity tag header value: the tag in double quotes, marked `-deflate`
/// for the deflated body so the two representations never share a tag.
pub open spec fn quoted_etag_text(core: Seq<char>, deflated: bool) -> Seq<char> {
    if deflated {
        seq!['"'] + core + "-deflate"@ + seq!['"']
    } else {
        seq!['"'] + core + seq!['"']
    }
}

/// The entity tag header value for a body with tag `core`.
pub fn quoted_etag(core: &str, deflated: bool) -> (r: String)
    ensures
        r@ == quoted_etag_text(core@, deflated),
{
    let mut s = String::new();
    push_char(&mut s, '"');
    s.append(core);
    if deflated {
        s.append("-deflate");
    }
    push_char(&mut s, '"');
    s
}

/// Whether a request whose `If-None-Match` value is `candidate` is answered
/// "not modified": the value is `*`, or it is the entity tag of the body.
pub open spec fn is_not_modified(candidate: Option<Seq<u8>>, etag: Option<Seq<u8>>) -> bool {
    match candidate {
        Some(c) => c == seq![0x2au8] || etag == Some(c),
        None => false,
    }
}

/// Whether a request is answered "not modified", given its `If-None-Match`
/// value, if it has a readable one, and the entity tag of the body, if it has
/// one.
pub fn not_modified(candidate: Option<&[u8]>, etag: Option<&[u8]>) -> (r: bool)
    ensures
        r == is_not_modified(
            match candidate { Some(c) => Some(c@), None => None },
            match etag { Some(e) => Some(e@), None => None },
        ),
{
    match candidate {
        None => false,
        Some(c) => {
            let star: [u8; 1] = [0x2a];
            assert(star@ =~= seq![0x2au8]);
            if bytes_equal(c, star.as_slice()) {
                return true;
            }
            match etag {
                Some(e) => bytes_equal(c, e),
                None => false,
            }
        },
    }
}

/// The value of the hexadecimal digit `b`, if it is one (either case).
pub open spec fn hex_value(b: u8) -> Option<u8> {
    if 0x30 <= b <= 0x39 {
        Some((b - 0x30) as u8)
    } else if 0x61 <= b <= 0x66 {
        Some((b - 0x57) as u8)
    } else if 0x41 <= b <= 0x46 {
        Some((b - 0x37) as u8)
    } else {
        None
    }
}

/// `s` with each `%` followed by two hexadecimal digits replaced by the byte
/// they spell; every other byte, a `%` without two digits after it included,
/// stays as it is.
pub open spec fn percent_decoded(s: Seq<u8>) -> Seq<u8>
    decreases s.len(),
{
    if s.len() == 0 {
        Seq::empty()
    } else if s[0] == 0x25 && s.len() >= 3 && hex_value(s[1]) is Some && hex_value(s[2]) is Some {
        seq![(hex_value(s[1])->0 * 16 + hex_value(s[2])->0) as u8] + percent_decoded(s.skip(3))
    } else {
        seq![s[0]] + percent_decoded(s.skip(1))
    }
}

/// The value of the hexadecimal digit `b`, if it is one.
fn hex_digit_value(b: u8) -> (r: Option<u8>)
    ensures
        r == hex_value(b),
{
    if 0x30 <= b && b <= 0x39 {
        Some(b - 0x30)
    } else if 0x61 <= b && b <= 0x66 {
        Some(b - 0x57)
    } else if 0x41 <= b && b <= 0x46 {
        Some(b - 0x37)
    } else {
        None
    }
}

/// `input` percent-decoded, as `percent_encoding::percent_decode` decodes it.
fn percent_decode(input: &[u8]) -> (r: Vec<u8>)
    ensures
        r@ == percent_decoded(input@),
{
    let ghost s = input@;
    let mut out: Vec<u8> = Vec::new();
    let mut i: usize = 0;
    assert(s.skip(0) =~= s);
    assert(out@ + percent_decoded(s) =~= percent_decoded(s));
    while i < input.len()
        invariant
            s == input@,
            i <= s.len(),
            out@ + percent_decoded(s.skip(i as int)) == percent_decoded(s),
        decreases s.len() - i,
    {
        let ghost rest = s.skip(i as int);
        let ghost before = out@;
        let b = input[i];
        assert(rest[0] == b);
        if b == 0x25 && input.len() - i >= 3 {
            let h = hex_digit_value(input[i + 1]);
            let l = hex_digit_value(input[i + 2]);
            assert(rest[1] == input@[i + 1] && rest[2] == input@[i + 2]);
            if let (Some(h), Some(l)) = (h, l) {
                out.push(h * 16 + l);
                assert(rest.skip(3) =~= s.skip(i + 3));
                assert(out@ + percent_decoded(s.skip(i + 3)) =~= before + percent_decoded(rest));
                i += 3;
                continue;
            }
        }
        out.push(b);
        assert(rest.skip(1) =~= s.skip(i + 1));
        assert(out@ + percent_decoded(s.skip(i + 1)) =~= before + percent_decoded(rest));
        i += 1;
    }
    assert(s.skip(i as int) =~= Seq::<u8>::empty());
    assert(out@ =~= out@ + percent_decoded(s.skip(i as int)));
    out
}

/// The first position at or after `i` that does not hold `/`, or the length
/// of `p`.
pub open spec fn skip_slashes(p: Seq<u8>, i: int) -> int
    decreases p.len() - i,
{
    if i < 0 || i >= p.len() || p[i] != 0x2f {
        i
    } else {
        skip_slashes(p, i + 1)
    }
}

/// The file a request path asks for: the path without its leading slashes,
/// percent-decoded.
pub open spec fn requested_file(path: Seq<u8>) -> Seq<u8> {
    percent_decoded(path.subrange(skip_slashes(path, 0), path.len() as int))
}

/// The file a request path asks for, as bytes.
pub fn decode_request_path(path: &[u8]) -> (r: Vec<u8>)
    ensures
        r@ == requested_file(path@),
{
    let mut i: usize = 0;
    while i < path.len() && path[i] == 0x2f
        invariant
            i <= path@.len(),
            skip_slashes(path@, 0) == skip_slashes(path@, i as int),
        decreases path@.len() - i,
    {
        i += 1;
    }
    percent_decode(slice_subrange(path, i, path.len()))
}

/// `s` with each `+` read as a space.
pub open spec fn plus_as_space(s: Seq<u8>) -> Seq<u8> {
    s.map_values(|b: u8| if b == 0x2b { 0x20u8 } else { b })
}

/// A name or value of a form-encoded body, decoded: `+` is a space, then
/// percent escapes are undone.
pub open spec fn form_decoded(s: Seq<u8>) -> Seq<u8> {
    percent_decoded(plus_as_space(s))
}

/// The first position at or after `i` that holds `c`, or `hi` when none does
/// before it.
pub open spec fn find_byte(s: Seq<u8>, c: u8, i: int, hi: int) -> int
    decreases hi - i,
{
    if i >= hi || s[i] == c {
        i
    } else {
        find_byte(s, c, i + 1, hi)
    }
}

/// The value of the first pair named `name` among the `&`-separated pairs of
/// a form-encoded body from position `i` on. Empty pairs are skipped; a pair
/// without `=` has an empty value.
pub open spec fn form_value_from(s: Seq<u8>, name: Seq<u8>, i: int) -> Option<Seq<u8>>
    decreases s.len() - i,
{
    if i < 0 || i >= s.len() {
        None
    } else {
        proof {
            lemma_find_byte(s, 0x26, i, s.len() as int);
        }
        let e = find_byte(s, 0x26, i, s.len() as int);
        let q = find_byte(s, 0x3d, i, e);
        if e > i && form_decoded(s.subrange(i, q)) == name {
            Some(form_decoded(if q < e { s.subrange(q + 1, e) } else { Seq::empty() }))
        } else if e < s.len() {
            form_value_from(s, name, e + 1)
        } else {
            None
        }
    }
}

/// The value of the first pair named `name` in a form-encoded body.
pub open spec fn form_value_of(body: Seq<u8>, name: Seq<u8>) -> Option<Seq<u8>> {
    form_value_from(body, name, 0)
}

/// A search stops within the range it looks in.
pub proof fn lemma_find_byte(s: Seq<u8>, c: u8, i: int, hi: int)
    requires
        i <= hi,
    ensures
        i <= find_byte(s, c, i, hi) <= hi,
    decreases hi - i,
{
    if i < hi && s[i] != c {
        lemma_find_byte(s, c, i + 1, hi);
    }
}

/// The first position in `lo..hi` of `s` that holds `c`, or `hi`.
fn find(s: &[u8], c: u8, lo: usize, hi: usize) -> (r: usize)
    requires
        lo <= hi <= s@.len(),
    ensures
        r == find_byte(s@, c, lo as int, hi as int),
{
    let mut i = lo;
    while i < hi && s[i] != c
        invariant
            lo <= i <= hi <= s@.len(),
            find_byte(s@, c, lo as int, hi as int) == find_byte(s@, c, i as int, hi as int),
        decreases hi - i,
    {
        i += 1;
    }
    i
}

/// A part of a form-encoded body, decoded.
fn decode_form_part(s: &[u8]) -> (r: Vec<u8>)
    ensures
        r@ == form_decoded(s@),
{
    let mut plain: Vec<u8> = Vec::new();
    let mut i: usize = 0;
    while i < s.len()
        invariant
            i <= s@.len(),
            plain@ == plus_as_space(s@.take(i as int)),
        decreases s@.len() - i,
    {
        let b = if s[i] == 0x2b { 0x20u8 } else { s[i] };
        plain.push(b);
        assert(plus_as_space(s@.take(i + 1)) =~= plus_as_space(s@.take(i as int)).push(b));
        i += 1;
    }
    assert(s@.take(i as int) =~= s@);
    percent_decode(plain.as_slice())
}

/// The value of the first pair named `name` in a form-encoded body, decoded.
pub fn form_value(body: &[u8], name: &[u8]) -> (r: Option<Vec<u8>>)
    ensures
        match r {
            Some(v) => form_value_of(body@, name@) == Some(v@),
            None => form_value_of(body@, name@) is None,
        },
{
    let mut i: usize = 0;
    while i < body.len()
        invariant
            i <= body@.len(),
            form_value_from(body@, name@, 0) == form_value_from(body@, name@, i as int),
        decreases body@.len() - i,
    {
        let e = find(body, 0x26, i, body.len());
        proof {
            lemma_find_byte(body@, 0x26, i as int, body@.len() as int);
        }
        let q = find(body, 0x3d, i, e);
        proof {
            lemma_find_byte(body@, 0x3d, i as int, e as int);
        }
        if e > i {
            let key = decode_form_part(slice_subrange(body, i, q));
            if bytes_equal(key.as_slice(), name) {
                let value = if q < e {
                    decode_form_part(slice_subrange(body, q + 1, e))
                } else {
                    let empty: [u8; 0] = [];
                    assert(empty@ =~= Seq::<u8>::empty());
                    decode_form_part(empty.as_slice())
                };
                return Some(value);
            }
        }
        if e == body.len() {
            return None;
        }
        i = e + 1;
    }
    None
}

/// `lines` joined by line feeds, without one after the last.
pub open spec fn joined_lines(lines: Seq<Seq<u8>>) -> Seq<u8>
    decreases lines.len(),
{
    if lines.len() == 0 {
        Seq::empty()
    } else if lines.len() == 1 {
        lines[0]
    } else {
        joined_lines(lines.drop_last()) + seq![0x0au8] + lines.last()
    }
}

/// The body answering a search: the matched names, one per line.
pub fn join_lines(lines: &Vec<Vec<u8>>) -> (r: Vec<u8>)
    ensures
        r@ == joined_lines(lines@.map_values(|l: Vec<u8>| l@)),
{
    let ghost views = lines@.map_values(|l: Vec<u8>| l@);
    let mut out: Vec<u8> = Vec::new();
    let mut k: usize = 0;
    while k < lines.len()
        invariant
            k <= lines@.len(),
            views == lines@.map_values(|l: Vec<u8>| l@),
            out@ == joined_lines(views.take(k as int)),
        decreases lines@.len() - k,
    {
        let ghost before = out@;
        if k > 0 {
            out.push(0x0a);
        }
        let mut line = lines[k].clone();
        assert(line@ == lines@[k as int]@);
        out.append(&mut line);
        proof {
            let t = views.take(k + 1);
            assert(t.drop_last() =~= views.take(k as int));
            assert(t.last() == views[k as int]);
            if k == 0 {
                assert(out@ =~= t[0]);
            } else {
                assert(out@ =~= before + seq![0x0au8] + views[k as int]);
            }
        }
        k += 1;
    }
    assert(views.take(k as int) =~= views);
    out
}

/// The head of the answer to a request for a file that was found.
pub struct Head {
    /// Whether the answer is "not modified", with no body.
    pub not_modified: bool,
    /// The media type of the body.
    pub content_type: &'static str,
    /// Whether the body is sent deflated.
    pub deflated: bool,
    /// The entity tag header value, if the body has a tag.
    pub etag: Option<String>,
}

/// The head of the answer to a request for the file at `path`, found with the
/// entity tag `core` (if it has one), sent deflated or not, to a request
/// whose `If-None-Match` value is `candidate`.
pub fn answer_head(path: &[u8], deflated: bool, core: Option<&str>, candidate: Option<&[u8]>) -> (r: Head)
    ensures
        r.content_type@ == content_type_of(path@),
        r.deflated == deflated,
        match core {
            Some(c) => r.etag matches Some(e) && e@ == quoted_etag_text(c@, deflated),
            None => r.etag is None,
        },
        r.not_modified == is_not_modified(
            match candidate { Some(c) => Some(c@), None => None },
            match core { Some(c) => Some(encode_utf8(quoted_etag_text(c@, deflated))), None => None },
        ),
{
    let etag = match core {
        Some(c) => Some(quoted_etag(c, deflated)),
        None => None,
    };
    let not_modified = match &etag {
        Some(e) => not_modified(candidate, Some(e.as_str().as_bytes())),
        None => not_modified(candidate, None),
    };
    Head { not_modified, content_type: content_type(path), deflated, etag }
}

/// The deflated and the plain body of one file never share an entity tag, so
/// a cache never answers for one with the other.
pub proof fn law_deflated_tag_differs(core: Seq<char>)
    ensures
        quoted_etag_text(core, true) != quoted_etag_text(core, false),
{
    reveal_strlit("-deflate");
    assert(quoted_etag_text(core, true).len() == quoted_etag_text(core, false).len() + 8);
}

/// A request that names the entity tag of the answer, or `*`, is answered
/// "not modified"; one that names another tag, or none, is not.
pub proof fn law_not_modified_when_tag_matches(candidate: Seq<u8>, etag: Seq<u8>)
    ensures
        is_not_modified(Some(etag), Some(etag)),
        is_not_modified(Some(seq![0x2au8]), None),
        candidate != etag && candidate != seq![0x2au8] ==> !is_not_modified(Some(candidate), Some(etag)),
        !is_not_modified(None, Some(etag)),
{
}

/// The hexadecimal digit of `n < 16`, upper-case or lower-case.
pub open spec fn hex_char(n: int, upper: bool) -> u8 {
    if n < 10 {
        (0x30 + n) as u8
    } else if upper {
        (0x41 + n - 10) as u8
    } else {
        (0x61 + n - 10) as u8
    }
}

/// Every byte of `v` written as `%` and its two hexadecimal digits, in the
/// given case.
pub open spec fn percent_escaped(v: Seq<u8>, upper: bool) -> Seq<u8>
    decreases v.len(),
{
    if v.len() == 0 {
        Seq::empty()
    } else {
        seq![0x25u8, hex_char(v[0] as int / 16, upper), hex_char(v[0] as int % 16, upper)] + percent_escaped(v.skip(1), upper)
    }
}

/// Percent-decoding undoes percent-encoding, whichever case the hexadecimal
/// digits are written in: every byte escaped as `%` and two digits comes back
/// as that byte.
pub proof fn law_percent_decoding_inverts_escapes(v: Seq<u8>, upper: bool)
    ensures
        percent_decoded(percent_escaped(v, upper)) == v,
    decreases v.len(),
{
    if v.len() > 0 {
        let e = percent_escaped(v, upper);
        let b = v[0];
        let hi = hex_char(b as int / 16, upper);
        let lo = hex_char(b as int % 16, upper);
        assert(e[0] == 0x25 && e[1] == hi && e[2] == lo);
        assert(hex_value(hi) == Some((b / 16) as u8));
        assert(hex_value(lo) == Some((b % 16) as u8));
        assert(e.skip(3) =~= percent_escaped(v.skip(1), upper));
        law_percent_decoding_inverts_escapes(v.skip(1), upper);
        assert(((b / 16) as u8 * 16 + (b % 16) as u8) as u8 == b);
        assert(percent_decoded(e) =~= v);
    }
}


/// The media type ignores the case of the path: a path and its ASCII
/// lower-cased spelling are served with the same type.
pub proof fn law_content_type_ignores_case(p: Seq<u8>)
    ensures
        content_type_of(p) == content_type_of(lowered(p)),
{
    let q = lowered(p);
    assert(same_shape(p, q));
    law_extension_by_shape(p, q);
    if extension(p) is Some {
        let (a, b) = choose|a: int, b: int| 0 <= a <= b <= p.len() && extension(p) == Some(p.subrange(a, b)) && extension(q) == Some(q.subrange(a, b));
        let x = p.subrange(a, b);
        assert(q.subrange(a, b) =~= lowered(x));
        assert(lowered(lowered(x)) =~= lowered(x));
    }
}


/// Bytes with no `%` among them decode to themselves.
pub proof fn law_percent_decoding_keeps_plain_bytes(v: Seq<u8>)
    requires
        forall|i: int| 0 <= i < v.len() ==> v[i] != 0x25,
    ensures
        percent_decoded(v) == v,
    decreases v.len(),
{
    if v.len() > 0 {
        let r = v.skip(1);
        assert forall|i: int| 0 <= i < r.len() implies r[i] != 0x25 by {
            assert(r[i] == v[i + 1]);
        }
        law_percent_decoding_keeps_plain_bytes(r);
        assert(seq![v[0]] + r =~= v);
    }
}

/// Leading slashes do not change the file a request asks for: one more in
/// front names the same file.
pub proof fn law_leading_slash_ignored(p: Seq<u8>)
    ensures
        requested_file(seq![0x2fu8] + p) == requested_file(p),
{
    let x = seq![0x2fu8] + p;
    lemma_skip_slashes_shift(p, 0);
    assert(x[0] == 0x2f);
    assert(skip_slashes(x, 0) == skip_slashes(x, 1));
    let k = skip_slashes(p, 0);
    assert(x.subrange(k + 1, x.len() as int) =~= p.subrange(k, p.len() as int));
}

proof fn lemma_skip_slashes_shift(p: Seq<u8>, i: int)
    requires
        0 <= i <= p.len(),
    ensures
        skip_slashes(seq![0x2fu8] + p, i + 1) == skip_slashes(p, i) + 1,
        i <= skip_slashes(p, i) <= p.len(),
    decreases p.len() - i,
{
    let x = seq![0x2fu8] + p;
    if i < p.len() {
        assert(x[i + 1] == p[i]);
        if p[i] == 0x2f {
            lemma_skip_slashes_shift(p, i + 1);
        }
    }
}


proof fn lemma_field_end_suffix(p: Seq<u8>, b: Seq<u8>, j: int)
    requires
        0 <= j <= b.len(),
    ensures
        field_end(p + b, p.len() + j) == p.len() + field_end(b, j),
    decreases b.len() - j,
{
    let s = p + b;
    if j < b.len() {
        assert(s[p.len() + j] == b[j]);
        if b[j] != 0x2c {
            lemma_field_end_suffix(p, b, j + 1);
        }
    }
}

proof fn lemma_field_end_prefix(a: Seq<u8>, r: Seq<u8>, i: int)
    requires
        0 <= i <= a.len(),
    ensures
        field_end(a + r, i) == if field_end(a, i) < a.len() { field_end(a, i) } else { a.len() + field_end(r, 0) },
    decreases a.len() - i,
{
    let s = a + r;
    if i < a.len() {
        assert(s[i] == a[i]);
        if a[i] != 0x2c {
            lemma_field_end_prefix(a, r, i + 1);
        }
    } else {
        lemma_field_end_suffix(a, r, 0);
    }
}

proof fn lemma_deflate_listed_suffix(p: Seq<u8>, b: Seq<u8>, j: int)
    requires
        0 <= j <= b.len(),
    ensures
        deflate_listed_from(p + b, p.len() + j) == deflate_listed_from(b, j),
    decreases b.len() - j,
{
    let s = p + b;
    lemma_field_end_suffix(p, b, j);
    lemma_field_end(b, j);
    let e = field_end(b, j);
    assert(s.subrange(p.len() + j, p.len() + e) =~= b.subrange(j, e));
    if e < b.len() {
        lemma_deflate_listed_suffix(p, b, e + 1);
    }
}

proof fn lemma_deflate_listed_prefix(a: Seq<u8>, b: Seq<u8>, i: int)
    requires
        0 <= i <= a.len(),
    ensures
        deflate_listed_from(a + seq![0x2cu8] + b, i) == (deflate_listed_from(a, i) || deflate_listed_from(b, 0)),
    decreases a.len() - i,
{
    let r = seq![0x2cu8] + b;
    let s = a + r;
    assert(a + seq![0x2cu8] + b =~= s);
    lemma_field_end_prefix(a, r, i);
    assert(field_end(r, 0) == 0);
    lemma_field_end(a, i);
    let e = field_end(a, i);
    assert(s.subrange(i, e) =~= a.subrange(i, e));
    if e < a.len() {
        lemma_deflate_listed_prefix(a, b, e + 1);
    } else {
        lemma_deflate_listed_suffix(a + seq![0x2cu8], b, 0);
        assert(a + seq![0x2cu8] + b =~= s);
    }
}

/// Joining two `Accept-Encoding` values with a comma takes deflate exactly
/// when one of them does: the order and number of the other codings do not
/// matter.
pub proof fn law_accepts_deflate_joined(a: Seq<u8>, b: Seq<u8>)
    ensures
        accepts_deflate_value(a + seq![0x2cu8] + b) == (accepts_deflate_value(a) || accepts_deflate_value(b)),
{
    lemma_deflate_listed_prefix(a, b, 0);
}

} // verus!
