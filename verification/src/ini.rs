//! `DATA.INI`: which GRF archives a client uses, and in which priority order.
//! Under a `[Data]` section, each `priority=file name` line lists one archive;
//! blank lines, `;` comments and lines that do not parse are skipped.
use vstd::prelude::*;

verus! {

/// Whether `c` is white space as `char::is_whitespace` reads it: the Unicode
/// `White_Space` characters.
pub open spec fn is_white(c: char) -> bool {
    let n = c as u32;
    ||| 0x09 <= n <= 0x0d
    ||| n == 0x20
    ||| n == 0x85
    ||| n == 0xa0
    ||| n == 0x1680
    ||| 0x2000 <= n <= 0x200a
    ||| n == 0x2028
    ||| n == 0x2029
    ||| n == 0x202f
    ||| n == 0x205f
    ||| n == 0x3000
}

/// The first position at or after `i` that is not white space, or the length.
pub open spec fn skip_white(s: Seq<char>, i: int) -> int
    decreases s.len() - i,
{
    if i < 0 || i >= s.len() || !is_white(s[i]) {
        i
    } else {
        skip_white(s, i + 1)
    }
}

/// Just past the last position before `j` that is not white space, or `lo`.
pub open spec fn white_end(s: Seq<char>, lo: int, j: int) -> int
    decreases j - lo,
{
    if j <= lo || !is_white(s[j - 1]) {
        j
    } else {
        white_end(s, lo, j - 1)
    }
}

/// `s` without leading and trailing white space, as `str::trim` leaves it.
pub open spec fn trim_chars(s: Seq<char>) -> Seq<char> {
    let a = skip_white(s, 0);
    s.subrange(a, white_end(s, a, s.len() as int))
}

/// Whether `c` is `[` or `]`.
pub open spec fn is_bracket(c: char) -> bool {
    c == '[' || c == ']'
}

/// The first position at or after `i` that is not a bracket, or the length.
pub open spec fn skip_brackets(s: Seq<char>, i: int) -> int
    decreases s.len() - i,
{
    if i < 0 || i >= s.len() || !is_bracket(s[i]) {
        i
    } else {
        skip_brackets(s, i + 1)
    }
}

/// Just past the last position before `j` that is not a bracket, or `lo`.
pub open spec fn brackets_end(s: Seq<char>, lo: int, j: int) -> int
    decreases j - lo,
{
    if j <= lo || !is_bracket(s[j - 1]) {
        j
    } else {
        brackets_end(s, lo, j - 1)
    }
}

/// `s` without leading and trailing brackets.
pub open spec fn strip_brackets(s: Seq<char>) -> Seq<char> {
    let a = skip_brackets(s, 0);
    s.subrange(a, brackets_end(s, a, s.len() as int))
}

/// `c` with an ASCII upper-case letter folded to lower case.
pub open spec fn fold_char(c: char) -> char {
    if 'A' <= c <= 'Z' {
        ((c as u32) + 32) as char
    } else {
        c
    }
}

/// Whether a section name is `data`, ignoring ASCII case.
pub open spec fn is_data(name: Seq<char>) -> bool {
    &&& name.len() == 4
    &&& fold_char(name[0]) == 'd'
    &&& fold_char(name[1]) == 'a'
    &&& fold_char(name[2]) == 't'
    &&& fold_char(name[3]) == 'a'
}

/// Whether `c` is an ASCII digit.
pub open spec fn is_digit(c: char) -> bool {
    '0' <= c <= '9'
}

/// The number the ASCII digits `d` spell.
pub open spec fn digits_value(d: Seq<char>) -> nat
    decreases d.len(),
{
    if d.len() == 0 {
        0
    } else {
        digits_value(d.drop_last()) * 10 + ((d.last() as u32) - 0x30) as nat
    }
}

/// The digits of an unsigned number: `s` without a leading `+`.
pub open spec fn unsigned_digits(s: Seq<char>) -> Seq<char> {
    if s.len() > 0 && s[0] == '+' {
        s.skip(1)
    } else {
        s
    }
}

/// What `str::parse::<u32>` makes of `s`: an optional `+`, then one or more
/// ASCII digits whose value fits in a `u32`.
pub open spec fn parsed_u32(s: Seq<char>) -> Option<u32> {
    let d = unsigned_digits(s);
    if d.len() == 0 || exists|i: int| 0 <= i < d.len() && !is_digit(#[trigger] d[i]) {
        None
    } else if digits_value(d) > u32::MAX {
        None
    } else {
        Some(digits_value(d) as u32)
    }
}

/// The position of the first `c` in `s` at or after `i`, or the length.
pub open spec fn find_char(s: Seq<char>, c: char, i: int) -> int
    decreases s.len() - i,
{
    if i < 0 || i >= s.len() || s[i] == c {
        i
    } else {
        find_char(s, c, i + 1)
    }
}

/// What one line does, in a `[Data]` section or not: whether the lines after
/// it are in one, and the archive it lists, if any.
pub open spec fn ini_line(line: Seq<char>, in_data: bool) -> (bool, Option<(u32, Seq<char>)>) {
    let l = trim_chars(line);
    if l.len() == 0 || l[0] == ';' {
        (in_data, None)
    } else if l[0] == '[' {
        (is_data(strip_brackets(l)), None)
    } else if !in_data {
        (false, None)
    } else {
        let q = find_char(l, '=', 0);
        if q >= l.len() {
            (true, None)
        } else {
            match parsed_u32(trim_chars(l.take(q))) {
                Some(n) => (true, Some((n, trim_chars(l.skip(q + 1))))),
                None => (true, None),
            }
        }
    }
}

/// The archives listed by the lines of `t` from position `i` on, in the order
/// they are listed.
pub open spec fn listed_from(t: Seq<char>, i: int, in_data: bool) -> Seq<(u32, Seq<char>)>
    decreases t.len() - i,
{
    if i < 0 || i > t.len() {
        Seq::empty()
    } else {
        proof {
            lemma_find_char(t, '\n', i);
        }
        let e = find_char(t, '\n', i);
        let (d, x) = ini_line(t.subrange(i, e), in_data);
        let rest = if e < t.len() { listed_from(t, e + 1, d) } else { Seq::<(u32, Seq<char>)>::empty() };
        match x {
            Some(p) => seq![p] + rest,
            None => rest,
        }
    }
}

/// The archives `DATA.INI` lists, in the order it lists them.
pub open spec fn listed_archives(text: Seq<char>) -> Seq<(u32, Seq<char>)> {
    listed_from(text, 0, false)
}

/// The first position at or after `i` in `s` whose priority is above `p`, or
/// the length.
pub open spec fn first_above(s: Seq<(u32, Seq<char>)>, p: u32, i: int) -> int
    decreases s.len() - i,
{
    if i < 0 || i >= s.len() || s[i].0 > p {
        i
    } else {
        first_above(s, p, i + 1)
    }
}

/// `es` ordered by priority, lowest first; entries with the same priority
/// keep the order they were listed in.
pub open spec fn by_priority(es: Seq<(u32, Seq<char>)>) -> Seq<(u32, Seq<char>)>
    decreases es.len(),
{
    if es.len() == 0 {
        Seq::empty()
    } else {
        let s = by_priority(es.drop_last());
        let e = es.last();
        s.insert(first_above(s, e.0, 0), e)
    }
}

/// The archives `DATA.INI` lists, ordered by priority.
pub open spec fn archive_order(text: Seq<char>) -> Seq<(u32, Seq<char>)> {
    by_priority(listed_archives(text))
}

/// A search stops within the text.
pub proof fn lemma_find_char(s: Seq<char>, c: char, i: int)
    requires
        0 <= i <= s.len(),
    ensures
        i <= find_char(s, c, i) <= s.len(),
        find_char(s, c, i) < s.len() ==> s[find_char(s, c, i)] == c,
        forall|k: int| i <= k < find_char(s, c, i) ==> s[k] != c,
    decreases s.len() - i,
{
    if i < s.len() && s[i] != c {
        lemma_find_char(s, c, i + 1);
    }
}

proof fn lemma_first_above(s: Seq<(u32, Seq<char>)>, p: u32, i: int)
    requires
        0 <= i <= s.len(),
    ensures
        i <= first_above(s, p, i) <= s.len(),
        first_above(s, p, i) < s.len() ==> s[first_above(s, p, i)].0 > p,
        forall|k: int| i <= k < first_above(s, p, i) ==> s[k].0 <= p,
    decreases s.len() - i,
{
    if i < s.len() && s[i].0 <= p {
        lemma_first_above(s, p, i + 1);
    }
}

/// Whether `s` is ordered by priority, lowest first.
pub open spec fn priority_ordered(s: Seq<(u32, Seq<char>)>) -> bool {
    forall|i: int, j: int| 0 <= i < j < s.len() ==> s[i].0 <= s[j].0
}

/// The archives come out ordered by priority, and each listed archive comes
/// out once: the order is a rearrangement of what `DATA.INI` lists.
pub proof fn law_priority_order(es: Seq<(u32, Seq<char>)>)
    ensures
        priority_ordered(by_priority(es)),
        by_priority(es).to_multiset() == es.to_multiset(),
    decreases es.len(),
{
    broadcast use vstd::seq_lib::group_to_multiset_ensures;
    if es.len() > 0 {
        let init = es.drop_last();
        let e = es.last();
        law_priority_order(init);
        let s = by_priority(init);
        lemma_first_above(s, e.0, 0);
        let k = first_above(s, e.0, 0);
        let r = s.insert(k, e);
        assert forall|i: int, j: int| 0 <= i < j < r.len() implies r[i].0 <= r[j].0 by {
            if j < k {
                assert(r[i] == s[i] && r[j] == s[j]);
            } else if j == k {
                assert(r[i] == s[i]);
            } else if i < k {
                assert(r[i] == s[i] && r[j] == s[j - 1]);
                assert(s[i].0 <= e.0);
                if k < s.len() {
                    assert(s[k].0 > e.0);
                }
            } else if i == k {
                assert(r[j] == s[j - 1]);
                assert(s[k].0 > e.0);
                assert(s[k].0 <= s[j - 1].0);
            } else {
                assert(r[i] == s[i - 1] && r[j] == s[j - 1]);
            }
        }
        vstd::seq_lib::to_multiset_insert(s, k, e);
        assert(es =~= init.push(e));
    }
}

fn is_white_char(c: char) -> (r: bool)
    ensures
        r == is_white(c),
{
    let n = c as u32;
    (0x09 <= n && n <= 0x0d) || n == 0x20 || n == 0x85 || n == 0xa0 || n == 0x1680 || (0x2000 <= n && n <= 0x200a)
        || n == 0x2028 || n == 0x2029 || n == 0x202f || n == 0x205f || n == 0x3000
}

/// The archive pairs with each name taken by its characters.
pub open spec fn pairs_view(v: Seq<(u32, String)>) -> Seq<(u32, Seq<char>)> {
    v.map_values(|p: (u32, String)| (p.0, p.1@))
}

/// The first position in `lo..hi` of `t` holding `c`, or `hi`.
fn find_in(t: &str, c: char, lo: usize, hi: usize) -> (r: usize)
    requires
        lo <= hi <= t@.len(),
    ensures
        lo <= r <= hi,
        r == lo + find_char(t@.subrange(lo as int, hi as int), c, 0),
{
    let ghost f = t@.subrange(lo as int, hi as int);
    let mut i = lo;
    while i < hi && t.get_char(i) != c
        invariant
            lo <= i <= hi <= t@.len(),
            f == t@.subrange(lo as int, hi as int),
            find_char(f, c, 0) == find_char(f, c, i - lo),
        decreases hi - i,
    {
        assert(f[i - lo] == t@[i as int]);
        i += 1;
    }
    proof {
        if i < hi {
            assert(f[i - lo] == t@[i as int]);
        }
        assert(find_char(f, c, i - lo) == i - lo);
    }
    i
}

/// The range of `t` from `lo` to `hi`, trimmed of white space.
fn trim_range(t: &str, lo: usize, hi: usize) -> (r: (usize, usize))
    requires
        lo <= hi <= t@.len(),
    ensures
        lo <= r.0 <= r.1 <= hi,
        t@.subrange(r.0 as int, r.1 as int) == trim_chars(t@.subrange(lo as int, hi as int)),
{
    let ghost f = t@.subrange(lo as int, hi as int);
    let mut a = lo;
    while a < hi && is_white_char(t.get_char(a))
        invariant
            lo <= a <= hi <= t@.len(),
            f == t@.subrange(lo as int, hi as int),
            skip_white(f, 0) == skip_white(f, a - lo),
        decreases hi - a,
    {
        assert(f[a - lo] == t@[a as int]);
        a += 1;
    }
    proof {
        if a < hi {
            assert(f[a - lo] == t@[a as int]);
        }
        assert(skip_white(f, a - lo) == a - lo);
    }
    let mut b = hi;
    while b > a && is_white_char(t.get_char(b - 1))
        invariant
            lo <= a <= b <= hi <= t@.len(),
            f == t@.subrange(lo as int, hi as int),
            skip_white(f, 0) == a - lo,
            white_end(f, a - lo, f.len() as int) == white_end(f, a - lo, b - lo),
        decreases b - a,
    {
        assert(f[b - 1 - lo] == t@[b - 1]);
        b -= 1;
    }
    proof {
        if b > a {
            assert(f[b - 1 - lo] == t@[b - 1]);
        }
        assert(white_end(f, a - lo, b - lo) == b - lo);
        assert(trim_chars(f) =~= t@.subrange(a as int, b as int));
    }
    (a, b)
}

/// Whether the range of `t` from `lo` to `hi`, without its brackets, names
/// the `data` section.
fn names_data(t: &str, lo: usize, hi: usize) -> (r: bool)
    requires
        lo <= hi <= t@.len(),
    ensures
        r == is_data(strip_brackets(t@.subrange(lo as int, hi as int))),
{
    let ghost f = t@.subrange(lo as int, hi as int);
    let mut a = lo;
    while a < hi && (t.get_char(a) == '[' || t.get_char(a) == ']')
        invariant
            lo <= a <= hi <= t@.len(),
            f == t@.subrange(lo as int, hi as int),
            skip_brackets(f, 0) == skip_brackets(f, a - lo),
        decreases hi - a,
    {
        assert(f[a - lo] == t@[a as int]);
        a += 1;
    }
    proof {
        if a < hi {
            assert(f[a - lo] == t@[a as int]);
        }
        assert(skip_brackets(f, a - lo) == a - lo);
    }
    let mut b = hi;
    while b > a && (t.get_char(b - 1) == '[' || t.get_char(b - 1) == ']')
        invariant
            lo <= a <= b <= hi <= t@.len(),
            f == t@.subrange(lo as int, hi as int),
            skip_brackets(f, 0) == a - lo,
            brackets_end(f, a - lo, f.len() as int) == brackets_end(f, a - lo, b - lo),
        decreases b - a,
    {
        assert(f[b - 1 - lo] == t@[b - 1]);
        b -= 1;
    }
    proof {
        if b > a {
            assert(f[b - 1 - lo] == t@[b - 1]);
        }
        assert(brackets_end(f, a - lo, b - lo) == b - lo);
        assert(strip_brackets(f) =~= t@.subrange(a as int, b as int));
    }
    if b - a != 4 {
        return false;
    }
    let r = fold(t.get_char(a)) == 'd' && fold(t.get_char(a + 1)) == 'a' && fold(t.get_char(a + 2)) == 't'
        && fold(t.get_char(a + 3)) == 'a';
    proof {
        let n = t@.subrange(a as int, b as int);
        assert(n[0] == t@[a as int] && n[1] == t@[a + 1] && n[2] == t@[a + 2] && n[3] == t@[a + 3]);
    }
    r
}

fn fold(c: char) -> (r: char)
    ensures
        r == fold_char(c),
{
    if 'A' <= c && c <= 'Z' {
        let n = (c as u32) + 32;
        assert(0x61 <= n <= 0x7a);
        char_of(n)
    } else {
        c
    }
}

/// The character of an ASCII code.
fn char_of(n: u32) -> (r: char)
    requires
        n < 0x80,
    ensures
        r == n as char,
{
    let b = n as u8;
    assert(b as u32 == n);
    b as char
}

/// Digits keep their value as more follow: a prefix never spells more.
proof fn lemma_digits_grow(d: Seq<char>, k: int)
    requires
        0 <= k <= d.len(),
        forall|i: int| 0 <= i < d.len() ==> is_digit(#[trigger] d[i]),
    ensures
        digits_value(d.take(k)) <= digits_value(d),
    decreases d.len() - k,
{
    if k < d.len() {
        lemma_digits_grow(d, k + 1);
        assert(d.take(k + 1).drop_last() =~= d.take(k));
    } else {
        assert(d.take(k) =~= d);
    }
}

/// What `str::parse::<u32>` makes of the range of `t` from `lo` to `hi`.
fn parse_u32(t: &str, lo: usize, hi: usize) -> (r: Option<u32>)
    requires
        lo <= hi <= t@.len(),
    ensures
        r == parsed_u32(t@.subrange(lo as int, hi as int)),
{
    let ghost s = t@.subrange(lo as int, hi as int);
    let start = if lo < hi && t.get_char(lo) == '+' { lo + 1 } else { lo };
    let ghost d = unsigned_digits(s);
    proof {
        if lo < hi {
            assert(s[0] == t@[lo as int]);
        }
        assert(d =~= t@.subrange(start as int, hi as int));
    }
    if start == hi {
        return None;
    }
    let mut value: u64 = 0;
    let mut i = start;
    while i < hi
        invariant
            lo <= start <= i <= hi <= t@.len(),
            start < hi,
            s == t@.subrange(lo as int, hi as int),
            d == t@.subrange(start as int, hi as int),
            d == unsigned_digits(s),
            forall|k: int| 0 <= k < i - start ==> is_digit(#[trigger] d[k]),
            value == digits_value(d.take(i - start)),
            value <= u32::MAX,
        decreases hi - i,
    {
        let c = t.get_char(i);
        assert(d[i - start] == c);
        if !('0' <= c && c <= '9') {
            proof {
                assert(0 <= i - start < d.len());
                assert(!is_digit(d[i - start]));
                assert(exists|k: int| 0 <= k < d.len() && !is_digit(#[trigger] d[k]));
            }
            return None;
        }
        let digit = (c as u32 - 0x30) as u64;
        assert(d.take(i - start + 1).drop_last() =~= d.take(i - start));
        let next = value * 10 + digit;
        assert(d.take(i - start + 1).last() == c);
        assert(next == digits_value(d.take(i - start + 1)));
        if next > 0xffff_ffff {
            proof {
                if forall|k: int| 0 <= k < d.len() ==> is_digit(#[trigger] d[k]) {
                    lemma_digits_grow(d, i - start + 1);
                    assert(digits_value(d) > u32::MAX);
                } else {
                    assert(exists|k: int| 0 <= k < d.len() && !is_digit(#[trigger] d[k]));
                }
            }
            return None;
        }
        value = next;
        i += 1;
    }
    assert(d.take(i - start) =~= d);
    Some(value as u32)
}

/// What the line of `t` from `lo` to `hi` does: whether the lines after it
/// are in the data section, and the priority and name range it lists.
fn line_effect(t: &str, lo: usize, hi: usize, in_data: bool) -> (r: (bool, Option<(u32, usize, usize)>))
    requires
        lo <= hi <= t@.len(),
    ensures
        r.0 == ini_line(t@.subrange(lo as int, hi as int), in_data).0,
        match r.1 {
            Some((n, a, b)) => a <= b <= t@.len() && ini_line(t@.subrange(lo as int, hi as int), in_data).1
                == Some((n, t@.subrange(a as int, b as int))),
            None => ini_line(t@.subrange(lo as int, hi as int), in_data).1 is None,
        },
{
    let ghost line = t@.subrange(lo as int, hi as int);
    let (a, b) = trim_range(t, lo, hi);
    let ghost l = t@.subrange(a as int, b as int);
    assert(l == trim_chars(line));
    if a == b {
        return (in_data, None);
    }
    let first = t.get_char(a);
    assert(l[0] == first);
    if first == ';' {
        return (in_data, None);
    }
    if first == '[' {
        return (names_data(t, a, b), None);
    }
    if !in_data {
        return (false, None);
    }
    let q = find_in(t, '=', a, b);
    proof {
        lemma_find_char(l, '=', 0);
    }
    if q == b {
        return (true, None);
    }
    let (ka, kb) = trim_range(t, a, q);
    let (va, vb) = trim_range(t, q + 1, b);
    proof {
        assert(l.take(q - a) =~= t@.subrange(a as int, q as int));
        assert(l.skip(q - a + 1) =~= t@.subrange(q + 1, b as int));
    }
    match parse_u32(t, ka, kb) {
        Some(n) => (true, Some((n, va, vb))),
        None => (true, None),
    }
}

/// The archives `DATA.INI` lists, in the order it lists them.
fn listed(text: &str) -> (r: Vec<(u32, String)>)
    ensures
        pairs_view(r@) == listed_archives(text@),
{
    let n = text.unicode_len();
    let ghost t = text@;
    let mut out: Vec<(u32, String)> = Vec::new();
    let mut i: usize = 0;
    let mut in_data = false;
    loop
        invariant
            n == t.len(),
            t == text@,
            i <= n,
            pairs_view(out@) + listed_from(t, i as int, in_data) == listed_archives(t),
        decreases n - i,
    {
        let e = find_in(text, '\n', i, n);
        proof {
            lemma_find_char(t, '\n', i as int);
            let f = t.subrange(i as int, n as int);
            lemma_find_char(f, '\n', 0);
            assert forall|k: int| 0 <= k < e - i implies f[k] != '\n' by {}
            if e < n {
                assert(f[e - i] == '\n');
            }
            lemma_find_char_shift(t, i as int, e as int);
        }
        let (d, x) = line_effect(text, i, e, in_data);
        let ghost before = pairs_view(out@);
        match x {
            Some((prio, a, b)) => {
                let name = String::from_str(text.substring_char(a, b));
                out.push((prio, name));
                assert(pairs_view(out@) =~= before.push((prio, t.subrange(a as int, b as int))));
            },
            None => {},
        }
        if e == n {
            proof {
                assert(listed_from(t, n as int + 1, d) == Seq::<(u32, Seq<char>)>::empty());
            }
            assert(pairs_view(out@) =~= listed_archives(t));
            return out;
        }
        i = e + 1;
        in_data = d;
    }
}

/// The first `'\n'` at or after `i` found from `i` is the one found in what
/// follows `i`.
proof fn lemma_find_char_shift(t: Seq<char>, i: int, e: int)
    requires
        0 <= i <= e <= t.len(),
        e == i + find_char(t.subrange(i, t.len() as int), '\n', 0),
    ensures
        find_char(t, '\n', i) == e,
{
    let f = t.subrange(i, t.len() as int);
    lemma_find_char(f, '\n', 0);
    lemma_find_char(t, '\n', i);
    let g = find_char(t, '\n', i);
    if g < e {
        assert(f[g - i] == t[g]);
    } else if e < g {
        assert(f[e - i] == t[e]);
    }
}

/// `es` ordered by priority, lowest first, keeping the listed order among
/// equal priorities.
fn order_by_priority(es: &Vec<(u32, String)>) -> (r: Vec<(u32, String)>)
    ensures
        pairs_view(r@) == by_priority(pairs_view(es@)),
{
    let ghost v = pairs_view(es@);
    let mut out: Vec<(u32, String)> = Vec::new();
    let mut k: usize = 0;
    while k < es.len()
        invariant
            k <= es@.len(),
            v == pairs_view(es@),
            pairs_view(out@) == by_priority(v.take(k as int)),
        decreases es@.len() - k,
    {
        let prio = es[k].0;
        let ghost s = pairs_view(out@);
        let mut p: usize = 0;
        while p < out.len() && out[p].0 <= prio
            invariant
                p <= out@.len(),
                s == pairs_view(out@),
                first_above(s, prio, 0) == first_above(s, prio, p as int),
            decreases out@.len() - p,
        {
            p += 1;
        }
        assert(first_above(s, prio, p as int) == p);
        let name = es[k].1.clone();
        out.insert(p, (prio, name));
        proof {
            assert(v.take(k + 1).drop_last() =~= v.take(k as int));
            assert(v.take(k + 1).last() == (prio, es@[k as int].1@));
            assert(pairs_view(out@) =~= s.insert(p as int, (prio, es@[k as int].1@)));
        }
        k += 1;
    }
    assert(v.take(k as int) =~= v);
    out
}

/// The archives `DATA.INI` lists, ordered by priority, lowest first; among
/// equal priorities, in the order they are listed.
pub fn data_ini_archives(text: &str) -> (r: Vec<(u32, String)>)
    ensures
        pairs_view(r@) == archive_order(text@),
{
    let es = listed(text);
    order_by_priority(&es)
}

/// White space is skipped to the end of a line that holds nothing else.
proof fn lemma_skip_all_white(s: Seq<char>, i: int)
    requires
        0 <= i <= s.len(),
        forall|j: int| 0 <= j < s.len() ==> is_white(#[trigger] s[j]),
    ensures
        skip_white(s, i) == s.len(),
    decreases s.len() - i,
{
    if i < s.len() {
        lemma_skip_all_white(s, i + 1);
    }
}

/// Blank lines and `;` comments change nothing: such a line lists no archive
/// and leaves the lines after it in, or out of, the data section as the lines
/// before it were, so what the whole file lists is what it would list without
/// that line.
pub proof fn law_blank_and_comment_lines(t: Seq<char>, i: int, in_data: bool)
    requires
        0 <= i <= t.len(),
        ({
            let line = t.subrange(i, find_char(t, '\n', i));
            ||| forall|j: int| 0 <= j < line.len() ==> is_white(#[trigger] line[j])
            ||| exists|a: int| 0 <= a < line.len() && line[a] == ';' && forall|j: int| 0 <= j < a ==> is_white(#[trigger] line[j])
        }),
    ensures
        listed_from(t, i, in_data) == if find_char(t, '\n', i) < t.len() {
            listed_from(t, find_char(t, '\n', i) + 1, in_data)
        } else {
            Seq::<(u32, Seq<char>)>::empty()
        },
{
    lemma_find_char(t, '\n', i);
    let e = find_char(t, '\n', i);
    let line = t.subrange(i, e);
    if forall|j: int| 0 <= j < line.len() ==> is_white(#[trigger] line[j]) {
        lemma_skip_all_white(line, 0);
        assert(trim_chars(line).len() == 0);
    } else {
        let a = choose|a: int| 0 <= a < line.len() && line[a] == ';' && forall|j: int| 0 <= j < a ==> is_white(#[trigger] line[j]);
        lemma_skip_white_to(line, 0, a);
        assert(!is_white(';'));
        assert(skip_white(line, a) == a);
        lemma_white_end_bound(line, a, line.len() as int);
        assert(trim_chars(line)[0] == ';');
    }
}

/// Skipping white space from `i` over only white space up to `a` goes on from
/// `a`.
proof fn lemma_skip_white_to(s: Seq<char>, i: int, a: int)
    requires
        0 <= i <= a <= s.len(),
        forall|j: int| i <= j < a ==> is_white(#[trigger] s[j]),
    ensures
        skip_white(s, i) == skip_white(s, a),
    decreases a - i,
{
    if i < a {
        lemma_skip_white_to(s, i + 1, a);
    }
}

/// Trimming the end stops no earlier than a byte that is not white space.
proof fn lemma_white_end_bound(s: Seq<char>, lo: int, j: int)
    requires
        0 <= lo < j <= s.len(),
        !is_white(s[lo]),
    ensures
        lo < white_end(s, lo, j) <= j,
    decreases j - lo,
{
    if j > lo + 1 && is_white(s[j - 1]) {
        lemma_white_end_bound(s, lo, j - 1);
    }
}

/// An archive listed after all others whose priority is no lower than any of
/// theirs comes last: among equal priorities, the one listed later comes
/// later.
pub proof fn law_later_listed_comes_later(es: Seq<(u32, Seq<char>)>, e: (u32, Seq<char>))
    requires
        forall|i: int| 0 <= i < es.len() ==> (#[trigger] es[i]).0 <= e.0,
    ensures
        by_priority(es.push(e)) == by_priority(es).push(e),
{
    broadcast use vstd::seq_lib::group_to_multiset_ensures;
    let s = by_priority(es);
    law_priority_order(es);
    assert(es.push(e).drop_last() =~= es);
    assert forall|i: int| 0 <= i < s.len() implies (#[trigger] s[i]).0 <= e.0 by {
        assert(s.to_multiset().count(s[i]) > 0);
        assert(es.to_multiset().count(s[i]) > 0);
        assert(es.contains(s[i]));
        let j = choose|j: int| 0 <= j < es.len() && es[j] == s[i];
        assert(es[j].0 <= e.0);
    }
    lemma_first_above(s, e.0, 0);
    assert(first_above(s, e.0, 0) == s.len());
    assert(s.insert(s.len() as int, e) =~= s.push(e));
}

/// How a priority is read, one character at a time: nothing and a lone `+`
/// are no number; a leading `+` changes nothing; a digit appended to a number
/// makes it ten times larger plus the digit, or no number once that passes
/// `u32::MAX`; any other character appended makes it no number.
pub proof fn law_priority_digits(d: Seq<char>, c: char)
    ensures
        parsed_u32(Seq::empty()) is None,
        parsed_u32(seq!['+']) is None,
        d.len() > 0 && d[0] != '+' ==> parsed_u32(seq!['+'] + d) == parsed_u32(d),
        '0' <= c <= '9' ==> parsed_u32(seq![c]) == Some((c as u32 - 0x30) as u32),
        parsed_u32(d) is Some && '0' <= c <= '9' ==> parsed_u32(d.push(c)) == if parsed_u32(d)->0 * 10 + (c as u32 - 0x30) <= u32::MAX {
            Some((parsed_u32(d)->0 * 10 + (c as u32 - 0x30)) as u32)
        } else {
            None
        },
        !('0' <= c <= '9') ==> parsed_u32(d.push(c)) is None,
{
    assert(unsigned_digits(seq!['+']) =~= Seq::<char>::empty());
    if d.len() > 0 && d[0] != '+' {
        assert(unsigned_digits(seq!['+'] + d) =~= d);
    }
    assert(unsigned_digits(seq![c]) == seq![c] || c == '+');
    if '0' <= c <= '9' {
        assert(seq![c].drop_last() =~= Seq::<char>::empty());
        assert(unsigned_digits(seq![c]) =~= seq![c]);
        assert(digits_value(seq![c]) == (c as u32 - 0x30));
    }
    let x = d.push(c);
    let u = unsigned_digits(d);
    if d.len() > 0 {
        assert(unsigned_digits(x) =~= u.push(c));
    } else if c != '+' {
        assert(unsigned_digits(x) =~= seq![c]);
        assert(u =~= Seq::<char>::empty());
        assert(u.push(c) =~= seq![c]);
    }
    if parsed_u32(d) is Some && '0' <= c <= '9' {
        let ux = unsigned_digits(x);
        assert(ux =~= u.push(c));
        assert(ux.drop_last() =~= u);
        assert forall|i: int| 0 <= i < ux.len() implies is_digit(#[trigger] ux[i]) by {
            if i < u.len() {
                assert(ux[i] == u[i]);
            }
        }
    }
    if !('0' <= c <= '9') {
        let ux = unsigned_digits(x);
        if ux.len() > 0 {
            assert(ux[ux.len() - 1] == c);
            assert(!is_digit(ux[ux.len() - 1]));
        }
    }
}


proof fn lemma_skip_white_bound(s: Seq<char>, i: int)
    requires
        0 <= i <= s.len(),
    ensures
        i <= skip_white(s, i) <= s.len(),
        skip_white(s, i) < s.len() ==> !is_white(s[skip_white(s, i)]),
    decreases s.len() - i,
{
    if i < s.len() && is_white(s[i]) {
        lemma_skip_white_bound(s, i + 1);
    }
}

/// A trimmed line that is not empty starts with a character of the line.
proof fn lemma_trimmed_first(line: Seq<char>)
    ensures
        trim_chars(line).len() > 0 ==> exists|j: int| 0 <= j < line.len() && line[j] == trim_chars(line)[0],
{
    lemma_skip_white_bound(line, 0);
    let a = skip_white(line, 0);
    if a < line.len() {
        lemma_white_end_bound(line, a, line.len() as int);
        assert(trim_chars(line)[0] == line[a]);
    }
}

/// Lines outside a `[Data]` section list nothing, so a text with no section
/// header from some line on lists nothing from there, whatever its lines say.
pub proof fn law_no_section_lists_nothing(t: Seq<char>, i: int)
    requires
        0 <= i <= t.len(),
        forall|j: int| i <= j < t.len() ==> t[j] != '[',
    ensures
        listed_from(t, i, false) == Seq::<(u32, Seq<char>)>::empty(),
    decreases t.len() - i,
{
    lemma_find_char(t, '\n', i);
    let e = find_char(t, '\n', i);
    let line = t.subrange(i, e);
    lemma_trimmed_first(line);
    if trim_chars(line).len() > 0 {
        let j = choose|j: int| 0 <= j < line.len() && line[j] == trim_chars(line)[0];
        assert(line[j] == t[i + j]);
    }
    assert(ini_line(line, false) == (false, Option::<(u32, Seq<char>)>::None));
    if e < t.len() {
        law_no_section_lists_nothing(t, e + 1);
    }
}

} // verus!
