//! Byte strings in lexicographic order, and sorting a list of them into the
//! ordered set of its distinct members.
use vstd::prelude::*;
use vstd::slice::slice_to_vec;

verus! {

/// Whether `a` comes before `b` in lexicographic order: at the first byte
/// where they differ, `a` has the smaller one; or `a` is a proper prefix of
/// `b`.
pub open spec fn lex_lt(a: Seq<u8>, b: Seq<u8>) -> bool
    decreases a.len(),
{
    if a.len() == 0 {
        b.len() > 0
    } else if b.len() == 0 {
        false
    } else if a[0] != b[0] {
        a[0] < b[0]
    } else {
        lex_lt(a.drop_first(), b.drop_first())
    }
}

pub proof fn lemma_lex_irreflexive(a: Seq<u8>)
    ensures
        !lex_lt(a, a),
    decreases a.len(),
{
    if a.len() > 0 {
        lemma_lex_irreflexive(a.drop_first());
    }
}

pub proof fn lemma_lex_total(a: Seq<u8>, b: Seq<u8>)
    ensures
        a == b || lex_lt(a, b) || lex_lt(b, a),
        !(lex_lt(a, b) && lex_lt(b, a)),
    decreases a.len(),
{
    if a.len() > 0 && b.len() > 0 && a[0] == b[0] {
        lemma_lex_total(a.drop_first(), b.drop_first());
        if a.drop_first() == b.drop_first() {
            assert(a =~= seq![a[0]] + a.drop_first());
            assert(b =~= seq![b[0]] + b.drop_first());
        }
    }
}

pub proof fn lemma_lex_transitive(a: Seq<u8>, b: Seq<u8>, c: Seq<u8>)
    requires
        lex_lt(a, b),
        lex_lt(b, c),
    ensures
        lex_lt(a, c),
    decreases a.len(),
{
    if a.len() > 0 && b.len() > 0 && c.len() > 0 && a[0] == b[0] && b[0] == c[0] {
        lemma_lex_transitive(a.drop_first(), b.drop_first(), c.drop_first());
    }
}

/// Where `a` stands relative to `b`: negative before, zero equal, positive
/// after.
pub fn compare_bytes(a: &[u8], b: &[u8]) -> (r: i8)
    ensures
        (r < 0) == lex_lt(a@, b@),
        (r == 0) == (a@ == b@),
        (r > 0) == lex_lt(b@, a@),
{
    proof {
        lemma_lex_total(a@, b@);
        lemma_lex_irreflexive(a@);
    }
    let mut i: usize = 0;
    assert(a@.skip(0) =~= a@);
    assert(b@.skip(0) =~= b@);
    while i < a.len() && i < b.len()
        invariant
            i <= a@.len(),
            i <= b@.len(),
            a@.take(i as int) == b@.take(i as int),
            lex_lt(a@, b@) == lex_lt(a@.skip(i as int), b@.skip(i as int)),
            lex_lt(b@, a@) == lex_lt(b@.skip(i as int), a@.skip(i as int)),
        decreases a@.len() - i,
    {
        if a[i] != b[i] {
            if a[i] < b[i] {
                assert(a@ != b@ && a@[i as int] != b@[i as int]);
                return -1;
            } else {
                assert(a@[i as int] != b@[i as int]);
                return 1;
            }
        }
        assert(a@.skip(i as int).drop_first() =~= a@.skip(i + 1));
        assert(b@.skip(i as int).drop_first() =~= b@.skip(i + 1));
        assert(a@.take(i + 1) =~= a@.take(i as int).push(a@[i as int]));
        assert(b@.take(i + 1) =~= b@.take(i as int).push(b@[i as int]));
        i += 1;
    }
    if a.len() < b.len() {
        assert(a@.skip(i as int).len() == 0);
        assert(a@ != b@);
        -1
    } else if a.len() > b.len() {
        assert(b@.skip(i as int).len() == 0);
        assert(a@ != b@);
        1
    } else {
        assert(a@ =~= a@.take(i as int));
        assert(b@ =~= b@.take(i as int));
        0
    }
}

/// The contents of a list of byte vectors.
pub open spec fn vec_views(v: Seq<Vec<u8>>) -> Seq<Seq<u8>> {
    v.map_values(|x: Vec<u8>| x@)
}

/// Whether `s` is in strictly increasing lexicographic order.
pub open spec fn strictly_sorted(s: Seq<Seq<u8>>) -> bool {
    forall|i: int, j: int| 0 <= i < j < s.len() ==> lex_lt(#[trigger] s[i], #[trigger] s[j])
}

/// The keys the positions `idx` select.
pub open spec fn keys_at(keys: Seq<Seq<u8>>, idx: Seq<usize>) -> Seq<Seq<u8>> {
    idx.map_values(|i: usize| keys[i as int])
}

/// The positions `idx` select keys from `lo` to `hi`, without repeating one,
/// in increasing order, and every key there is among them.
pub open spec fn sorts_range(keys: Seq<Seq<u8>>, lo: int, hi: int, idx: Seq<usize>) -> bool {
    &&& forall|k: int| 0 <= k < idx.len() ==> lo <= #[trigger] idx[k] < hi
    &&& strictly_sorted(keys_at(keys, idx))
    &&& forall|j: int| lo <= j < hi ==> keys_at(keys, idx).contains(#[trigger] keys[j])
}

/// The state of a merge of `a` and `b` after taking `a[..i]` and `b[..j]`
/// into `out`.
spec fn merge_inv(ks: Seq<Seq<u8>>, a: Seq<usize>, b: Seq<usize>, i: int, j: int, out: Seq<usize>, lo: int, hi: int) -> bool {
    &&& 0 <= i <= a.len()
    &&& 0 <= j <= b.len()
    &&& forall|k: int| 0 <= k < out.len() ==> lo <= #[trigger] out[k] < hi
    &&& strictly_sorted(keys_at(ks, out))
    &&& out.len() > 0 ==> forall|k: int| i <= k < a.len() ==> lex_lt(ks[out.last() as int], #[trigger] ks[a[k] as int])
    &&& out.len() > 0 ==> forall|k: int| j <= k < b.len() ==> lex_lt(ks[out.last() as int], #[trigger] ks[b[k] as int])
    &&& forall|k: int| 0 <= k < i ==> keys_at(ks, out).contains(#[trigger] ks[a[k] as int])
    &&& forall|k: int| 0 <= k < j ==> keys_at(ks, out).contains(#[trigger] ks[b[k] as int])
}

proof fn lemma_push_sorted(ks: Seq<Seq<u8>>, out: Seq<usize>, pick: usize)
    requires
        strictly_sorted(keys_at(ks, out)),
        out.len() > 0 ==> lex_lt(ks[out.last() as int], ks[pick as int]),
    ensures
        strictly_sorted(keys_at(ks, out.push(pick))),
{
    let pk = ks[pick as int];
    let o2 = out.push(pick);
    assert(keys_at(ks, o2) =~= keys_at(ks, out).push(pk));
    assert forall|x: int, y: int| 0 <= x < y < o2.len() implies lex_lt(#[trigger] keys_at(ks, o2)[x], #[trigger] keys_at(ks, o2)[y]) by {
        if y == o2.len() - 1 {
            if x < out.len() - 1 {
                assert(lex_lt(keys_at(ks, out)[x], keys_at(ks, out)[out.len() - 1]));
                lemma_lex_transitive(keys_at(ks, out)[x], ks[out.last() as int], pk);
            }
        } else {
            assert(keys_at(ks, o2)[x] == keys_at(ks, out)[x]);
            assert(keys_at(ks, o2)[y] == keys_at(ks, out)[y]);
        }
    }
}

/// What remains of a sorted selection after position `i` lies after `pk`,
/// when `pk` lies before or at its key at `i`.
proof fn lemma_rest_after(ks: Seq<Seq<u8>>, a: Seq<usize>, i: int, i2: int, pk: Seq<u8>)
    requires
        strictly_sorted(keys_at(ks, a)),
        forall|k: int| 0 <= k < a.len() ==> 0 <= #[trigger] a[k] < ks.len(),
        0 <= i <= i2 <= i + 1,
        i2 <= a.len(),
        i < a.len() ==> (pk == ks[a[i] as int] || lex_lt(pk, ks[a[i] as int])),
        i2 == i ==> i < a.len() ==> lex_lt(pk, ks[a[i] as int]),
        i2 == i + 1 ==> pk == ks[a[i] as int],
    ensures
        forall|k: int| i2 <= k < a.len() ==> lex_lt(pk, #[trigger] ks[a[k] as int]),
{
    assert forall|k: int| i2 <= k < a.len() implies lex_lt(pk, #[trigger] ks[a[k] as int]) by {
        if k > i {
            assert(lex_lt(keys_at(ks, a)[i], keys_at(ks, a)[k]));
            if pk != ks[a[i] as int] {
                lemma_lex_transitive(pk, ks[a[i] as int], ks[a[k] as int]);
            }
        }
    }
}

/// Everything taken from a selection is still in the output after a push.
proof fn lemma_taken(ks: Seq<Seq<u8>>, a: Seq<usize>, i: int, i2: int, out: Seq<usize>, pick: usize)
    requires
        0 <= i <= i2 <= i + 1,
        i2 <= a.len(),
        forall|k: int| 0 <= k < a.len() ==> 0 <= #[trigger] a[k] < ks.len(),
        forall|k: int| 0 <= k < i ==> keys_at(ks, out).contains(#[trigger] ks[a[k] as int]),
        i2 == i + 1 ==> ks[pick as int] == ks[a[i] as int],
    ensures
        forall|k: int| 0 <= k < i2 ==> keys_at(ks, out.push(pick)).contains(#[trigger] ks[a[k] as int]),
{
    let o2 = out.push(pick);
    assert(keys_at(ks, o2) =~= keys_at(ks, out).push(ks[pick as int]));
    assert forall|k: int| 0 <= k < i2 implies keys_at(ks, o2).contains(#[trigger] ks[a[k] as int]) by {
        if k < i {
            let m = choose|m: int| 0 <= m < keys_at(ks, out).len() && keys_at(ks, out)[m] == ks[a[k] as int];
            assert(keys_at(ks, o2)[m] == ks[a[k] as int]);
        } else {
            assert(keys_at(ks, o2)[o2.len() - 1] == ks[a[k] as int]);
        }
    }
}

proof fn lemma_merge_step(
    ks: Seq<Seq<u8>>,
    a: Seq<usize>,
    b: Seq<usize>,
    i: int,
    j: int,
    out: Seq<usize>,
    lo: int,
    mid: int,
    hi: int,
    take_a: bool,
    take_b: bool,
)
    requires
        lo <= mid <= hi <= ks.len(),
        sorts_range(ks, lo, mid, a),
        sorts_range(ks, mid, hi, b),
        merge_inv(ks, a, b, i, j, out, lo, hi),
        take_a || take_b,
        take_a ==> i < a.len(),
        take_b ==> j < b.len(),
        take_a && take_b ==> ks[a[i] as int] == ks[b[j] as int],
        take_a && !take_b && j < b.len() ==> lex_lt(ks[a[i] as int], ks[b[j] as int]),
        take_b && !take_a && i < a.len() ==> lex_lt(ks[b[j] as int], ks[a[i] as int]),
    ensures
        merge_inv(
            ks,
            a,
            b,
            if take_a { i + 1 } else { i },
            if take_b { j + 1 } else { j },
            out.push(if take_a { a[i] } else { b[j] }),
            lo,
            hi,
        ),
{
    let pick = if take_a { a[i] } else { b[j] };
    let pk = ks[pick as int];
    let i2 = if take_a { i + 1 } else { i };
    let j2 = if take_b { j + 1 } else { j };
    if out.len() > 0 {
        if take_a {
            assert(lex_lt(ks[out.last() as int], ks[a[i] as int]));
        } else {
            assert(lex_lt(ks[out.last() as int], ks[b[j] as int]));
        }
    }
    lemma_push_sorted(ks, out, pick);
    lemma_rest_after(ks, a, i, i2, pk);
    lemma_rest_after(ks, b, j, j2, pk);
    lemma_taken(ks, a, i, i2, out, pick);
    lemma_taken(ks, b, j, j2, out, pick);
    let o2 = out.push(pick);
    assert(o2.last() == pick);
    assert forall|k: int| 0 <= k < o2.len() implies lo <= #[trigger] o2[k] < hi by {
        if k < out.len() {
            assert(o2[k] == out[k]);
        }
    }
}

/// Merge two sorted selections into one, keeping one position per key.
fn merge(keys: &Vec<Vec<u8>>, a: Vec<usize>, b: Vec<usize>, lo: usize, mid: usize, hi: usize) -> (r: Vec<usize>)
    requires
        lo <= mid <= hi <= keys@.len(),
        sorts_range(vec_views(keys@), lo as int, mid as int, a@),
        sorts_range(vec_views(keys@), mid as int, hi as int, b@),
    ensures
        sorts_range(vec_views(keys@), lo as int, hi as int, r@),
{
    let ghost ks = vec_views(keys@);
    let mut out: Vec<usize> = Vec::new();
    let mut i: usize = 0;
    let mut j: usize = 0;
    assert(keys_at(ks, out@) =~= Seq::<Seq<u8>>::empty());
    while i < a.len() || j < b.len()
        invariant
            ks == vec_views(keys@),
            lo <= mid <= hi <= keys@.len(),
            sorts_range(ks, lo as int, mid as int, a@),
            sorts_range(ks, mid as int, hi as int, b@),
            merge_inv(ks, a@, b@, i as int, j as int, out@, lo as int, hi as int),
        decreases a@.len() + b@.len() - i - j,
    {
        let take_a: bool;
        let take_b: bool;
        if i < a.len() && j < b.len() {
            let c = compare_bytes(keys[a[i]].as_slice(), keys[b[j]].as_slice());
            take_a = c <= 0;
            take_b = c >= 0;
        } else {
            take_a = i < a.len();
            take_b = !take_a;
        }
        let pick = if take_a { a[i] } else { b[j] };
        proof {
            lemma_merge_step(ks, a@, b@, i as int, j as int, out@, lo as int, mid as int, hi as int, take_a, take_b);
        }
        out.push(pick);
        if take_a {
            i += 1;
        }
        if take_b {
            j += 1;
        }
    }
    proof {
        assert forall|x: int| lo <= x < hi implies keys_at(ks, out@).contains(#[trigger] ks[x]) by {
            if x < mid {
                assert(keys_at(ks, a@).contains(ks[x]));
                let k = choose|k: int| 0 <= k < keys_at(ks, a@).len() && keys_at(ks, a@)[k] == ks[x];
                assert(keys_at(ks, out@).contains(ks[a@[k] as int]));
            } else {
                assert(keys_at(ks, b@).contains(ks[x]));
                let k = choose|k: int| 0 <= k < keys_at(ks, b@).len() && keys_at(ks, b@)[k] == ks[x];
                assert(keys_at(ks, out@).contains(ks[b@[k] as int]));
            }
        }
    }
    out
}

fn sort_range(keys: &Vec<Vec<u8>>, lo: usize, hi: usize) -> (r: Vec<usize>)
    requires
        lo <= hi <= keys@.len(),
    ensures
        sorts_range(vec_views(keys@), lo as int, hi as int, r@),
    decreases hi - lo,
{
    let ghost ks = vec_views(keys@);
    if hi - lo <= 1 {
        let mut out: Vec<usize> = Vec::new();
        if hi > lo {
            out.push(lo);
            assert(keys_at(ks, out@)[0] == ks[lo as int]);
        }
        return out;
    }
    let mid = lo + (hi - lo) / 2;
    let a = sort_range(keys, lo, mid);
    let b = sort_range(keys, mid, hi);
    merge(keys, a, b, lo, mid, hi)
}

proof fn lemma_same_members(ks: Seq<Seq<u8>>, idx: Seq<usize>)
    requires
        sorts_range(ks, 0, ks.len() as int, idx),
    ensures
        keys_at(ks, idx).to_set() == ks.to_set(),
{
    assert forall|x: Seq<u8>| keys_at(ks, idx).to_set().contains(x) <==> ks.to_set().contains(x) by {
        if keys_at(ks, idx).to_set().contains(x) {
            let m = choose|m: int| 0 <= m < keys_at(ks, idx).len() && keys_at(ks, idx)[m] == x;
            assert(ks[idx[m] as int] == x);
        }
        if ks.to_set().contains(x) {
            let j = choose|j: int| 0 <= j < ks.len() && ks[j] == x;
            assert(keys_at(ks, idx).contains(ks[j]));
        }
    }
    assert(keys_at(ks, idx).to_set() =~= ks.to_set());
}

/// The distinct members of `items`, in increasing lexicographic order.
pub fn sorted_unique(items: &Vec<Vec<u8>>) -> (r: Vec<Vec<u8>>)
    ensures
        strictly_sorted(vec_views(r@)),
        vec_views(r@).to_set() == vec_views(items@).to_set(),
{
    let ghost ks = vec_views(items@);
    let idx = sort_range(items, 0, items.len());
    let mut out: Vec<Vec<u8>> = Vec::new();
    let mut k: usize = 0;
    while k < idx.len()
        invariant
            ks == vec_views(items@),
            sorts_range(ks, 0, items@.len() as int, idx@),
            k <= idx@.len(),
            vec_views(out@) == keys_at(ks, idx@.take(k as int)),
        decreases idx@.len() - k,
    {
        let item = slice_to_vec(items[idx[k]].as_slice());
        let ghost before = out@;
        out.push(item);
        assert(idx@.take(k + 1) =~= idx@.take(k as int).push(idx@[k as int]));
        assert(keys_at(ks, idx@.take(k + 1)) =~= keys_at(ks, idx@.take(k as int)).push(ks[idx@[k as int] as int]));
        assert(vec_views(out@) =~= vec_views(before).push(item@));
        assert(vec_views(out@) =~= keys_at(ks, idx@.take(k + 1)));
        k += 1;
    }
    assert(idx@.take(k as int) =~= idx@);
    assert(vec_views(out@) == keys_at(ks, idx@));
    proof {
        lemma_same_members(ks, idx@);
    }
    out
}

} // verus!
