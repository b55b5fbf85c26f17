//! File names and extensions of `/`-separated byte paths, read the way
//! `std::path::Path` reads them on Unix: empty segments and `.` segments are
//! skipped, a `..` segment has no file name, and a name whose only dot leads
//! it has no extension.
use vstd::prelude::*;

verus! {

/// Where the segment that ends at `end` starts: just past the last `/` before
/// `end`, or at the start of the path.
pub open spec fn segment_start(p: Seq<u8>, end: int) -> int
    decreases end,
{
    if end <= 0 {
        0
    } else if p[end - 1] == 0x2f {
        end
    } else {
        segment_start(p, end - 1)
    }
}

/// The file name among the segments that end at or before `end`: the last one
/// that is neither empty nor `.`, unless that one is `..`.
pub open spec fn file_name_before(p: Seq<u8>, end: int) -> Option<(int, int)>
    decreases end,
{
    if end <= 0 {
        None
    } else {
        proof {
            lemma_segment_start_bounds(p, end);
        }
        let start = segment_start(p, end);
        let segment = p.subrange(start, end);
        if segment.len() == 0 || segment == seq![0x2eu8] {
            if start <= 0 {
                None
            } else {
                file_name_before(p, start - 1)
            }
        } else if segment == seq![0x2eu8, 0x2eu8] {
            None
        } else {
            Some((start, end))
        }
    }
}

/// Where the file name of `p` lies in it, if it has one.
pub open spec fn file_name_range(p: Seq<u8>) -> Option<(int, int)> {
    file_name_before(p, p.len() as int)
}

/// The file name of `p`, if it has one.
pub open spec fn file_name(p: Seq<u8>) -> Option<Seq<u8>> {
    match file_name_range(p) {
        Some((start, end)) => Some(p.subrange(start, end)),
        None => None,
    }
}

/// The position of the last `.` in `f` before `end`, or `-1`.
pub open spec fn last_dot(f: Seq<u8>, end: int) -> int
    decreases end,
{
    if end <= 0 {
        -1
    } else if f[end - 1] == 0x2e {
        end - 1
    } else {
        last_dot(f, end - 1)
    }
}

/// The extension of `p`: what follows the last `.` of its file name, unless
/// that dot starts the name or there is none.
pub open spec fn extension(p: Seq<u8>) -> Option<Seq<u8>> {
    match file_name(p) {
        Some(f) => {
            let d = last_dot(f, f.len() as int);
            if d <= 0 {
                None
            } else {
                Some(f.subrange(d + 1, f.len() as int))
            }
        },
        None => None,
    }
}

/// A segment starts within the path, at or before its end.
pub proof fn lemma_segment_start_bounds(p: Seq<u8>, end: int)
    requires
        end > 0,
    ensures
        0 <= segment_start(p, end) <= end,
    decreases end,
{
    if p[end - 1] != 0x2f {
        if end > 1 {
            lemma_segment_start_bounds(p, end - 1);
        } else {
            assert(segment_start(p, 0) == 0);
        }
    }
}

proof fn lemma_segment_start(p: Seq<u8>, end: int)
    requires
        0 <= end <= p.len(),
    ensures
        0 <= segment_start(p, end) <= end,
        segment_start(p, end) > 0 ==> p[segment_start(p, end) - 1] == 0x2f,
    decreases end,
{
    if end > 0 && p[end - 1] != 0x2f {
        lemma_segment_start(p, end - 1);
    }
}

proof fn lemma_file_name_before(p: Seq<u8>, end: int)
    requires
        0 <= end <= p.len(),
    ensures
        file_name_before(p, end) matches Some((s, e)) ==> 0 <= s < e <= end,
    decreases end,
{
    if end > 0 {
        lemma_segment_start(p, end);
        let start = segment_start(p, end);
        if start > 0 {
            lemma_file_name_before(p, start - 1);
        }
    }
}

proof fn lemma_last_dot(f: Seq<u8>, end: int)
    requires
        0 <= end <= f.len(),
    ensures
        -1 <= last_dot(f, end) < end,
    decreases end,
{
    if end > 0 && f[end - 1] != 0x2e {
        lemma_last_dot(f, end - 1);
    }
}

fn is_dot_segment(p: &[u8], start: usize, end: usize) -> (r: (bool, bool))
    requires
        start <= end <= p@.len(),
    ensures
        r.0 == (p@.subrange(start as int, end as int) == seq![0x2eu8]),
        r.1 == (p@.subrange(start as int, end as int) == seq![0x2eu8, 0x2eu8]),
{
    let n = end - start;
    let one = n == 1 && p[start] == 0x2e;
    let two = n == 2 && p[start] == 0x2e && p[start + 1] == 0x2e;
    proof {
        let seg = p@.subrange(start as int, end as int);
        if seg == seq![0x2eu8] {
            assert(seg.len() == 1);
            assert(seg[0] == p@[start as int]);
        }
        if one {
            assert(seg =~= seq![0x2eu8]);
        }
        if seg == seq![0x2eu8, 0x2eu8] {
            assert(seg.len() == 2);
            assert(seg[0] == p@[start as int] && seg[1] == p@[start + 1]);
        }
        if two {
            assert(seg =~= seq![0x2eu8, 0x2eu8]);
        }
    }
    (one, two)
}

/// Where the file name of `p` lies in it, if it has one.
pub fn find_file_name(p: &[u8]) -> (r: Option<(usize, usize)>)
    ensures
        match r {
            Some((s, e)) => file_name_range(p@) == Some((s as int, e as int)),
            None => file_name_range(p@) is None,
        },
{
    let mut end: usize = p.len();
    loop
        invariant
            end <= p@.len(),
            file_name_before(p@, end as int) == file_name_range(p@),
        decreases end,
    {
        if end == 0 {
            return None;
        }
        let mut start = end;
        while start > 0 && p[start - 1] != 0x2f
            invariant
                start <= end <= p@.len(),
                segment_start(p@, start as int) == segment_start(p@, end as int),
            decreases start,
        {
            start -= 1;
        }
        assert(segment_start(p@, start as int) == start);
        let (dot, dotdot) = is_dot_segment(p, start, end);
        if start == end || dot {
            if start == 0 {
                return None;
            }
            end = start - 1;
        } else if dotdot {
            return None;
        } else {
            return Some((start, end));
        }
    }
}

/// Where the extension of `p` lies in it, if it has one.
pub fn find_extension(p: &[u8]) -> (r: Option<(usize, usize)>)
    ensures
        match r {
            Some((s, e)) => s <= e <= p@.len() && extension(p@) == Some(p@.subrange(s as int, e as int)),
            None => extension(p@) is None,
        },
{
    match find_file_name(p) {
        None => None,
        Some((start, end)) => {
            proof {
                lemma_file_name_before(p@, p@.len() as int);
            }
            let ghost f = p@.subrange(start as int, end as int);
            let mut d = end;
            while d > start && p[d - 1] != 0x2e
                invariant
                    start <= d <= end <= p@.len(),
                    f == p@.subrange(start as int, end as int),
                    last_dot(f, f.len() as int) == last_dot(f, d - start),
                decreases d,
            {
                assert(f[d - start - 1] == p@[d - 1]);
                d -= 1;
            }
            proof {
                lemma_last_dot(f, f.len() as int);
                if d > start {
                    assert(f[d - start - 1] == p@[d - 1]);
                }
            }
            if d <= start + 1 {
                None
            } else {
                assert(f.subrange(d - start, f.len() as int) =~= p@.subrange(d as int, end as int));
                Some((d, end))
            }
        },
    }
}


/// Whether `p` and `q` have the same length and hold `/` and `.` at the same
/// places.
pub open spec fn same_shape(p: Seq<u8>, q: Seq<u8>) -> bool {
    &&& p.len() == q.len()
    &&& forall|i: int| 0 <= i < p.len() ==> ((#[trigger] p[i] == 0x2f) == (q[i] == 0x2f) && (p[i] == 0x2e) == (q[i] == 0x2e))
}

proof fn lemma_same_shape_segment(p: Seq<u8>, q: Seq<u8>, end: int)
    requires
        same_shape(p, q),
        0 <= end <= p.len(),
    ensures
        segment_start(p, end) == segment_start(q, end),
    decreases end,
{
    if end > 0 {
        assert((p[end - 1] == 0x2f) == (q[end - 1] == 0x2f));
        lemma_same_shape_segment(p, q, end - 1);
    }
}

proof fn lemma_same_shape_dots(p: Seq<u8>, q: Seq<u8>, a: int, b: int)
    requires
        same_shape(p, q),
        0 <= a <= b <= p.len(),
    ensures
        (p.subrange(a, b) == seq![0x2eu8]) == (q.subrange(a, b) == seq![0x2eu8]),
        (p.subrange(a, b) == seq![0x2eu8, 0x2eu8]) == (q.subrange(a, b) == seq![0x2eu8, 0x2eu8]),
{
    let x = p.subrange(a, b);
    let y = q.subrange(a, b);
    assert(seq![0x2eu8].len() == 1 && seq![0x2eu8, 0x2eu8].len() == 2);
    if b - a == 1 {
        assert((p[a] == 0x2e) == (q[a] == 0x2e));
        if x == seq![0x2eu8] {
            assert(x[0] == 0x2e);
            assert(y =~= seq![0x2eu8]);
        }
        if y == seq![0x2eu8] {
            assert(y[0] == 0x2e);
            assert(x =~= seq![0x2eu8]);
        }
    }
    if b - a == 2 {
        assert((p[a] == 0x2e) == (q[a] == 0x2e));
        assert((p[a + 1] == 0x2e) == (q[a + 1] == 0x2e));
        if x == seq![0x2eu8, 0x2eu8] {
            assert(x[0] == 0x2e && x[1] == 0x2e);
            assert(y =~= seq![0x2eu8, 0x2eu8]);
        }
        if y == seq![0x2eu8, 0x2eu8] {
            assert(y[0] == 0x2e && y[1] == 0x2e);
            assert(x =~= seq![0x2eu8, 0x2eu8]);
        }
    }
}

proof fn lemma_same_shape_file_name(p: Seq<u8>, q: Seq<u8>, end: int)
    requires
        same_shape(p, q),
        0 <= end <= p.len(),
    ensures
        file_name_before(p, end) == file_name_before(q, end),
    decreases end,
{
    if end > 0 {
        lemma_same_shape_segment(p, q, end);
        lemma_segment_start(p, end);
        let start = segment_start(p, end);
        lemma_same_shape_dots(p, q, start, end);
        if start > 0 {
            lemma_same_shape_file_name(p, q, start - 1);
        }
    }
}

proof fn lemma_same_shape_last_dot(p: Seq<u8>, q: Seq<u8>, end: int)
    requires
        same_shape(p, q),
        0 <= end <= p.len(),
    ensures
        last_dot(p, end) == last_dot(q, end),
    decreases end,
{
    if end > 0 {
        assert((p[end - 1] == 0x2e) == (q[end - 1] == 0x2e));
        lemma_same_shape_last_dot(p, q, end - 1);
    }
}

/// Two paths with `/` and `.` at the same places have their file names and
/// extensions at the same places: where one has an extension, so does the
/// other, over the same positions.
pub proof fn law_extension_by_shape(p: Seq<u8>, q: Seq<u8>)
    requires
        same_shape(p, q),
    ensures
        file_name_range(p) == file_name_range(q),
        extension(p) is Some == extension(q) is Some,
        extension(p) is Some ==> exists|a: int, b: int| 0 <= a <= b <= p.len() && extension(p) == Some(p.subrange(a, b)) && extension(q) == Some(q.subrange(a, b)),
{
    lemma_same_shape_file_name(p, q, p.len() as int);
    lemma_file_name_before(p, p.len() as int);
    if let Some((s, e)) = file_name_range(p) {
        let f = p.subrange(s, e);
        let g = q.subrange(s, e);
        assert(same_shape(f, g)) by {
            assert forall|i: int| 0 <= i < f.len() implies ((#[trigger] f[i] == 0x2f) == (g[i] == 0x2f) && (f[i] == 0x2e) == (g[i] == 0x2e)) by {
                assert(f[i] == p[s + i] && g[i] == q[s + i]);
            }
        }
        lemma_same_shape_last_dot(f, g, f.len() as int);
        lemma_last_dot(f, f.len() as int);
        let d = last_dot(f, f.len() as int);
        if d > 0 {
            assert(f.subrange(d + 1, f.len() as int) =~= p.subrange(s + d + 1, e));
            assert(g.subrange(d + 1, g.len() as int) =~= q.subrange(s + d + 1, e));
        }
    }
}

} // verus!
