//! Deflated copies of loose files, kept in memory under a fixed budget, and
//! the rules that decide which files are offered to the compressor.
use vstd::prelude::*;
use vstd::slice::slice_subrange;
use crate::ascii::{lowercase, lowered};
use crate::grf::{le_bytes, to_le_bytes};
use std::sync::Arc;
use crate::keyed::{bytes_equal, is_last_with_key, lemma_has_last, lemma_last_wins, KeyedIndex};
use crate::paths::{extension, find_extension};
use crate::zlib::{zlib_deflate_best, zlib_deflated_best, zlib_inflated};

verus! {

/// Cap on the bytes of deflated copies held in memory: 256 MiB. Files past it
/// are left uncompressed rather than evicting earlier ones.
pub const CACHE_BUDGET: usize = 268435456;

/// Below this many bytes, framing overhead eats the gain.
pub const MIN_COMPRESSED_SIZE: u64 = 256;

/// The key a loose file's deflated copy is kept under: the mtime and length it
/// had when it was compressed, then its path. A file edited since no longer
/// matches its entry.
pub open spec fn cache_key_of(path: Seq<u8>, mtime: u64, len: u64) -> Seq<u8> {
    le_bytes(mtime) + le_bytes(len) + path
}

/// The key for a loose file with this path, mtime and length.
pub fn cache_key(path: &[u8], mtime: u64, len: u64) -> (r: Vec<u8>)
    ensures
        r@ == cache_key_of(path@, mtime, len),
{
    let m = to_le_bytes(mtime);
    let l = to_le_bytes(len);
    let mut key: Vec<u8> = Vec::new();
    let mut i: usize = 0;
    while i < 8
        invariant
            i <= 8,
            key@ == m@.take(i as int),
        decreases 8 - i,
    {
        key.push(m[i]);
        assert(m@.take(i + 1) =~= m@.take(i as int).push(m@[i as int]));
        i += 1;
    }
    assert(m@.take(8) =~= m@);
    let mut i: usize = 0;
    while i < 8
        invariant
            i <= 8,
            key@ == m@ + l@.take(i as int),
        decreases 8 - i,
    {
        key.push(l[i]);
        assert(l@.take(i + 1) =~= l@.take(i as int).push(l@[i as int]));
        i += 1;
    }
    assert(l@.take(8) =~= l@);
    let mut i: usize = 0;
    while i < path.len()
        invariant
            i <= path@.len(),
            key@ == m@ + l@ + path@.take(i as int),
        decreases path@.len() - i,
    {
        key.push(path[i]);
        assert(path@.take(i + 1) =~= path@.take(i as int).push(path@[i as int]));
        i += 1;
    }
    assert(path@.take(i as int) =~= path@);
    key
}

/// Two numbers with the same little-endian bytes are equal.
proof fn lemma_le_bytes_injective(x: u64, y: u64)
    requires
        le_bytes(x) == le_bytes(y),
    ensures
        x == y,
{
    assert(le_bytes(x)[0] == le_bytes(y)[0]);
    assert(le_bytes(x)[1] == le_bytes(y)[1]);
    assert(le_bytes(x)[2] == le_bytes(y)[2]);
    assert(le_bytes(x)[3] == le_bytes(y)[3]);
    assert(le_bytes(x)[4] == le_bytes(y)[4]);
    assert(le_bytes(x)[5] == le_bytes(y)[5]);
    assert(le_bytes(x)[6] == le_bytes(y)[6]);
    assert(le_bytes(x)[7] == le_bytes(y)[7]);
    let x0 = x % 0x100;
    let x1 = x / 0x100 % 0x100;
    let x2 = x / 0x1_0000 % 0x100;
    let x3 = x / 0x100_0000 % 0x100;
    let x4 = x / 0x1_0000_0000 % 0x100;
    let x5 = x / 0x100_0000_0000 % 0x100;
    let x6 = x / 0x1_0000_0000_0000 % 0x100;
    let x7 = x / 0x100_0000_0000_0000 % 0x100;
    let y0 = y % 0x100;
    let y1 = y / 0x100 % 0x100;
    let y2 = y / 0x1_0000 % 0x100;
    let y3 = y / 0x100_0000 % 0x100;
    let y4 = y / 0x1_0000_0000 % 0x100;
    let y5 = y / 0x100_0000_0000 % 0x100;
    let y6 = y / 0x1_0000_0000_0000 % 0x100;
    let y7 = y / 0x100_0000_0000_0000 % 0x100;
    assert(x0 == y0 && x1 == y1 && x2 == y2 && x3 == y3 && x4 == y4 && x5 == y5 && x6 == y6 && x7 == y7);
    assert(x == y) by (bit_vector)
        requires
            x % 0x100 == y % 0x100,
            x / 0x100 % 0x100 == y / 0x100 % 0x100,
            x / 0x1_0000 % 0x100 == y / 0x1_0000 % 0x100,
            x / 0x100_0000 % 0x100 == y / 0x100_0000 % 0x100,
            x / 0x1_0000_0000 % 0x100 == y / 0x1_0000_0000 % 0x100,
            x / 0x100_0000_0000 % 0x100 == y / 0x100_0000_0000 % 0x100,
            x / 0x1_0000_0000_0000 % 0x100 == y / 0x1_0000_0000_0000 % 0x100,
            x / 0x100_0000_0000_0000 % 0x100 == y / 0x100_0000_0000_0000 % 0x100,
    ;
}

/// The cache key tells files apart by path, mtime and length: two keys are
/// equal only when all three are, so an entry never answers for a file that
/// changed since it was compressed.
pub proof fn law_cache_key_distinguishes(p: Seq<u8>, m: u64, l: u64, q: Seq<u8>, n: u64, k: u64)
    requires
        cache_key_of(p, m, l) == cache_key_of(q, n, k),
    ensures
        p == q && m == n && l == k,
{
    let a = cache_key_of(p, m, l);
    let b = cache_key_of(q, n, k);
    assert(a.subrange(0, 8) =~= le_bytes(m));
    assert(b.subrange(0, 8) =~= le_bytes(n));
    lemma_le_bytes_injective(m, n);
    assert(a.subrange(8, 16) =~= le_bytes(l));
    assert(b.subrange(8, 16) =~= le_bytes(k));
    lemma_le_bytes_injective(l, k);
    assert(a.subrange(16, a.len() as int) =~= p);
    assert(b.subrange(16, b.len() as int) =~= q);
}

/// A deflated copy: the zlib stream, and the contents it was made from.
pub struct DeflatedCopyView {
    pub stream: Seq<u8>,
    pub source: Seq<u8>,
}

/// Whether a copy is worth keeping and serving: its stream inflates back to
/// its source, and is at least a tenth smaller.
pub open spec fn faithful(c: DeflatedCopyView) -> bool {
    &&& zlib_inflated(c.stream) == Some(c.source)
    &&& c.stream.len() * 10 <= c.source.len() * 9
}

/// A loose file's contents deflated into the zlib stream a GRF stores, kept
/// only when that saved a tenth or more.
pub struct DeflatedCopy {
    stream: Vec<u8>,
    source: Ghost<Seq<u8>>,
}

impl View for DeflatedCopy {
    type V = DeflatedCopyView;

    closed spec fn view(&self) -> DeflatedCopyView {
        DeflatedCopyView { stream: self.stream@, source: self.source@ }
    }
}

impl DeflatedCopy {
    #[verifier::type_invariant]
    spec fn inv(self) -> bool {
        faithful(self@)
    }

    /// The zlib stream.
    pub fn stream(&self) -> (r: &[u8])
        ensures
            r@ == self@.stream,
            faithful(self@),
    {
        proof {
            use_type_invariant(self);
        }
        self.stream.as_slice()
    }
}

/// The bytes of all the copies' streams.
pub open spec fn total_len(copies: Seq<DeflatedCopyView>) -> nat
    decreases copies.len(),
{
    if copies.len() == 0 {
        0
    } else {
        total_len(copies.drop_last()) + copies.last().stream.len()
    }
}

/// What a deflate cache holds: the copy each key maps to, every copy stored
/// so far in the order it was stored, the loose file each was stored for (its
/// path, mtime and length), and the budget their streams count against.
pub struct DeflateCacheView {
    pub entries: Map<Seq<u8>, DeflatedCopyView>,
    pub copies: Seq<DeflatedCopyView>,
    pub origins: Seq<(Seq<u8>, u64, u64)>,
    pub budget: nat,
}

/// The key a copy stored for this loose file is found under.
pub open spec fn origin_key(o: (Seq<u8>, u64, u64)) -> Seq<u8> {
    cache_key_of(o.0, o.1, o.2)
}

/// What every deflate cache keeps: its copies' streams fit in the budget,
/// every copy, stored or found, is faithful, and each key the map holds is
/// that of a file a copy was stored for, mapped to that copy.
pub open spec fn cache_sound(c: DeflateCacheView) -> bool {
    &&& total_len(c.copies) <= c.budget
    &&& c.origins.len() == c.copies.len()
    &&& forall|i: int| 0 <= i < c.copies.len() ==> faithful(#[trigger] c.copies[i])
    &&& forall|k: Seq<u8>| #[trigger] c.entries.contains_key(k) ==> faithful(c.entries[k])
    &&& forall|k: Seq<u8>| #[trigger] c.entries.contains_key(k) ==> exists|i: int|
        0 <= i < c.origins.len() && origin_key(#[trigger] c.origins[i]) == k && c.entries[k] == c.copies[i]
}

/// Deflated copies of loose files, found by [`cache_key`]. Copies are only
/// ever added, and only while their streams fit in the budget.
pub struct DeflateCache {
    entries: KeyedIndex<Arc<DeflatedCopy>>,
    bytes: usize,
    budget: usize,
    origins: Ghost<Seq<(Seq<u8>, u64, u64)>>,
}

/// The contents of a list of shared copies.
pub open spec fn copy_views(rs: Seq<(Seq<u8>, Arc<DeflatedCopy>)>) -> Seq<DeflatedCopyView> {
    rs.map_values(|r: (Seq<u8>, Arc<DeflatedCopy>)| r.1@)
}

/// A map of shared copies, each by its contents.
pub open spec fn copy_map(m: Map<Seq<u8>, Arc<DeflatedCopy>>) -> Map<Seq<u8>, DeflatedCopyView> {
    m.map_values(|a: Arc<DeflatedCopy>| a@)
}

impl View for DeflateCache {
    type V = DeflateCacheView;

    closed spec fn view(&self) -> DeflateCacheView {
        DeflateCacheView {
            entries: copy_map(self.entries.map()),
            copies: copy_views(self.entries.entries()),
            origins: self.origins@,
            budget: self.budget as nat,
        }
    }
}

/// Appending a copy adds its stream's length to the total.
proof fn lemma_total_len_push(copies: Seq<DeflatedCopyView>, c: DeflatedCopyView)
    ensures
        total_len(copies.push(c)) == total_len(copies) + c.stream.len(),
{
    assert(copies.push(c).drop_last() =~= copies);
}

/// Storing one more shared copy adds it to the copies and to the map.
proof fn lemma_record_pushed(
    before: Seq<(Seq<u8>, Arc<DeflatedCopy>)>,
    after: Seq<(Seq<u8>, Arc<DeflatedCopy>)>,
    before_map: Map<Seq<u8>, Arc<DeflatedCopy>>,
    after_map: Map<Seq<u8>, Arc<DeflatedCopy>>,
    key: Seq<u8>,
    shared: Arc<DeflatedCopy>,
    cv: DeflatedCopyView,
)
    requires
        after == before.push((key, shared)),
        after_map == before_map.insert(key, shared),
        shared@ == cv,
        faithful(cv),
        forall|i: int| 0 <= i < before.len() ==> faithful(#[trigger] before[i].1@),
    ensures
        copy_views(after) == copy_views(before).push(cv),
        total_len(copy_views(after)) == total_len(copy_views(before)) + cv.stream.len(),
        forall|i: int| 0 <= i < after.len() ==> faithful(#[trigger] after[i].1@),
        copy_map(after_map) == copy_map(before_map).insert(key, cv),
{
    assert(copy_views(after) =~= copy_views(before).push(cv));
    lemma_total_len_push(copy_views(before), cv);
    assert forall|i: int| 0 <= i < after.len() implies faithful(#[trigger] after[i].1@) by {
        if i < before.len() {
            assert(after[i] == before[i]);
        }
    }
    assert(copy_map(after_map) =~= copy_map(before_map).insert(key, cv));
}

impl DeflateCache {
    #[verifier::type_invariant]
    spec fn inv(self) -> bool {
        &&& self.bytes == total_len(copy_views(self.entries.entries()))
        &&& self.bytes <= self.budget
        &&& forall|i: int| 0 <= i < self.entries.entries().len() ==> faithful(#[trigger] self.entries.entries()[i].1@)
        &&& self.origins@.len() == self.entries.entries().len()
        &&& forall|i: int| 0 <= i < self.entries.entries().len() ==> #[trigger] self.entries.entries()[i].0 == origin_key(self.origins@[i])
    }

    /// Every copy the map holds is one that was stored.
    proof fn lemma_entries_faithful(&self)
        requires
            self.inv(),
        ensures
            cache_sound(self@),
    {
        let rs = self.entries.entries();
        assert forall|i: int| 0 <= i < self@.copies.len() implies faithful(#[trigger] self@.copies[i]) by {
            assert(self@.copies[i] == rs[i].1@);
        }
        assert forall|k: Seq<u8>| #[trigger] self@.entries.contains_key(k) implies faithful(self@.entries[k]) by {
            lemma_last_wins(rs, k);
            lemma_has_last(rs, k);
            let i = choose|i: int| is_last_with_key(rs, k, i);
            assert(self.entries.map()[k] == rs[i].1);
        }
        assert forall|k: Seq<u8>| #[trigger] self@.entries.contains_key(k) implies exists|i: int|
            0 <= i < self@.origins.len() && origin_key(#[trigger] self@.origins[i]) == k && self@.entries[k] == self@.copies[i] by {
            lemma_last_wins(rs, k);
            lemma_has_last(rs, k);
            let i = choose|i: int| is_last_with_key(rs, k, i);
            assert(self.entries.map()[k] == rs[i].1);
            assert(rs[i].0 == origin_key(self@.origins[i]));
            assert(self@.copies[i] == rs[i].1@);
        }
    }

    /// An empty cache with a budget of [`CACHE_BUDGET`].
    pub fn new() -> (r: Self)
        ensures
            r@.entries == Map::<Seq<u8>, DeflatedCopyView>::empty(),
            r@.copies == Seq::<DeflatedCopyView>::empty(),
            r@.origins == Seq::<(Seq<u8>, u64, u64)>::empty(),
            r@.budget == CACHE_BUDGET,
            cache_sound(r@),
    {
        Self::with_budget(CACHE_BUDGET)
    }

    /// An empty cache whose copies may take up to `budget` bytes.
    pub fn with_budget(budget: usize) -> (r: Self)
        ensures
            r@.entries == Map::<Seq<u8>, DeflatedCopyView>::empty(),
            r@.copies == Seq::<DeflatedCopyView>::empty(),
            r@.origins == Seq::<(Seq<u8>, u64, u64)>::empty(),
            r@.budget == budget,
            cache_sound(r@),
    {
        let r = DeflateCache { entries: KeyedIndex::new(), bytes: 0, budget, origins: Ghost(Seq::empty()) };
        assert(r@.entries =~= Map::<Seq<u8>, DeflatedCopyView>::empty());
        assert(r@.copies =~= Seq::<DeflatedCopyView>::empty());
        r
    }

    /// The bytes of all the copies' streams; never more than the budget.
    pub fn bytes(&self) -> (r: usize)
        ensures
            r == total_len(self@.copies),
            r <= self@.budget,
            cache_sound(self@),
    {
        proof {
            use_type_invariant(self);
            self.lemma_entries_faithful();
        }
        self.bytes
    }

    /// How many copies were stored.
    pub fn stored(&self) -> (r: usize)
        ensures
            r == self@.copies.len(),
    {
        proof {
            use_type_invariant(self);
        }
        self.entries.num_entries()
    }

    /// Keep `copy` for the loose file at `path` with this mtime and length, if
    /// its stream fits in what is left of the budget. Returns whether it was
    /// kept; a copy that does not fit leaves the cache as it was.
    pub(crate) fn store(&mut self, path: &[u8], mtime: u64, len: u64, copy: DeflatedCopy) -> (r: bool)
        ensures
            r == (total_len(old(self)@.copies) + copy@.stream.len() <= old(self)@.budget),
            r ==> final(self)@.entries == old(self)@.entries.insert(cache_key_of(path@, mtime, len), copy@),
            r ==> final(self)@.copies == old(self)@.copies.push(copy@),
            r ==> final(self)@.origins == old(self)@.origins.push((path@, mtime, len)),
            r ==> final(self)@.budget == old(self)@.budget,
            !r ==> final(self)@ == old(self)@,
            cache_sound(final(self)@),
    {
        proof {
            use_type_invariant(&*self);
            use_type_invariant(&copy);
        }
        let size = copy.stream().len();
        if size > self.budget - self.bytes {
            proof {
                self.lemma_entries_faithful();
            }
            return false;
        }
        let key = cache_key(path, mtime, len);
        let ghost cv = copy@;
        let shared = Arc::new(copy);
        let mut this = DeflateCache::with_budget(self.budget);
        std::mem::swap(&mut this, self);
        proof {
            use_type_invariant(&this);
        }
        let DeflateCache { mut entries, bytes, budget, origins } = this;
        let ghost before = entries.entries();
        let ghost before_map = entries.map();
        entries.insert(key, shared);
        proof {
            lemma_record_pushed(before, entries.entries(), before_map, entries.map(), key@, shared, cv);
        }
        let ghost new_origins = origins@.push((path@, mtime, len));
        proof {
            assert forall|i: int| 0 <= i < entries.entries().len() implies #[trigger] entries.entries()[i].0 == origin_key(new_origins[i]) by {
                if i < before.len() {
                    assert(entries.entries()[i] == before[i]);
                }
            }
        }
        *self = DeflateCache { entries, bytes: bytes + size, budget, origins: Ghost(new_origins) };
        proof {
            self.lemma_entries_faithful();
        }
        true
    }

    /// The copy kept for the loose file at `path` with this mtime and length.
    pub fn get(&self, path: &[u8], mtime: u64, len: u64) -> (r: Option<&Arc<DeflatedCopy>>)
        ensures
            r is Some <==> self@.entries.contains_key(cache_key_of(path@, mtime, len)),
            r matches Some(c) ==> c@ == self@.entries[cache_key_of(path@, mtime, len)],
            cache_sound(self@),
    {
        proof {
            use_type_invariant(self);
            self.lemma_entries_faithful();
        }
        let key = cache_key(path, mtime, len);
        self.entries.get(key.as_slice())
    }
}

/// Extensions of already-compressed payloads, where deflate spends CPU to gain
/// nothing.
pub open spec fn incompressible_extensions() -> Seq<Seq<u8>> {
    seq![
        seq![0x6au8, 0x70u8, 0x67u8],
        seq![0x6au8, 0x70u8, 0x65u8, 0x67u8],
        seq![0x70u8, 0x6eu8, 0x67u8],
        seq![0x67u8, 0x69u8, 0x66u8],
        seq![0x77u8, 0x65u8, 0x62u8, 0x70u8],
        seq![0x6du8, 0x70u8, 0x33u8],
        seq![0x6fu8, 0x67u8, 0x67u8],
        seq![0x77u8, 0x61u8, 0x76u8],
        seq![0x7au8, 0x69u8, 0x70u8],
        seq![0x67u8, 0x7au8],
        seq![0x67u8, 0x72u8, 0x66u8],
        seq![0x72u8, 0x67u8, 0x7au8],
    ]
}

/// Whether a path's extension, folded to lower case, names an
/// already-packed format.
pub open spec fn is_packed(path: Seq<u8>) -> bool {
    extension(path) matches Some(e) && incompressible_extensions().contains(lowered(e))
}

/// Whether a loose file is worth offering to the compressor: not an
/// already-packed format, and big enough for the framing to pay for itself.
/// `len` is the file's length, `None` when it could not be read.
pub open spec fn compressible(path: Seq<u8>, len: Option<u64>) -> bool {
    &&& !is_packed(path)
    &&& len matches Some(n) && n >= MIN_COMPRESSED_SIZE
}

/// Whether a loose file is worth offering to the compressor.
pub fn is_compressible(path: &[u8], len: Option<u64>) -> (r: bool)
    ensures
        r == compressible(path@, len),
{
    match len {
        Some(n) => {
            if n < MIN_COMPRESSED_SIZE {
                return false;
            }
        },
        None => return false,
    }
    let (s, e) = match find_extension(path) {
        Some(range) => range,
        None => return true,
    };
    let low = lowercase(slice_subrange(path, s, e));
    let ext = low.as_slice();
    let list: [[u8; 4]; 12] = [
        [0x6a, 0x70, 0x67, 0],
        [0x6a, 0x70, 0x65, 0x67],
        [0x70, 0x6e, 0x67, 0],
        [0x67, 0x69, 0x66, 0],
        [0x77, 0x65, 0x62, 0x70],
        [0x6d, 0x70, 0x33, 0],
        [0x6f, 0x67, 0x67, 0],
        [0x77, 0x61, 0x76, 0],
        [0x7a, 0x69, 0x70, 0],
        [0x67, 0x7a, 0, 0],
        [0x67, 0x72, 0x66, 0],
        [0x72, 0x67, 0x7a, 0],
    ];
    let lens: [usize; 12] = [3, 4, 3, 3, 4, 3, 3, 3, 3, 2, 3, 3];
    let ghost known = incompressible_extensions();
    assert forall|k: int| 0 <= k < 12 implies #[trigger] list@[k]@.take(lens@[k] as int) == known[k] by {
        assert(list@[k]@.take(lens@[k] as int) =~= known[k]);
    }
    let mut k: usize = 0;
    while k < 12
        invariant
            k <= 12,
            known == incompressible_extensions(),
            s <= e <= path@.len(),
            extension(path@) == Some(path@.subrange(s as int, e as int)),
            len matches Some(n) && n >= MIN_COMPRESSED_SIZE,
            ext@ == lowered(path@.subrange(s as int, e as int)),
            forall|j: int| 0 <= j < 12 ==> #[trigger] list@[j]@.take(lens@[j] as int) == known[j],
            forall|j: int| 0 <= j < 12 ==> lens@[j] <= 4,
            forall|j: int| 0 <= j < k ==> known[j] != ext@,
        decreases 12 - k,
    {
        let candidate = slice_subrange(list[k].as_slice(), 0, lens[k]);
        assert(candidate@ =~= list@[k as int]@.take(lens@[k as int] as int));
        if bytes_equal(ext, candidate) {
            assert(known[k as int] == ext@);
            assert(known.contains(ext@));
            return false;
        }
        k += 1;
    }
    proof {
        if known.contains(ext@) {
            let j = choose|j: int| 0 <= j < known.len() && known[j] == ext@;
            assert(j < 12);
        }
    }
    true
}

/// The deflated copy worth keeping: `deflated` when it shrank the file's
/// `plain_len` bytes by a tenth or more, `None` when it barely shrank.
pub fn keep_if_smaller(plain_len: usize, deflated: Vec<u8>) -> (r: Option<Vec<u8>>)
    ensures
        match r {
            Some(v) => v@ == deflated@ && deflated@.len() * 10 <= plain_len * 9,
            None => deflated@.len() * 10 > plain_len * 9,
        },
{
    if (deflated.len() as u128) * 10 > (plain_len as u128) * 9 {
        None
    } else {
        Some(deflated)
    }
}

/// Compress one loose file's contents with the zlib stream a GRF stores, at
/// the best compression level. `None` when the stream barely shrank the
/// file, in which case sending it as it is costs less than the round trip
/// through zlib.
pub fn deflate_for_cache(plain: &[u8]) -> (r: Option<DeflatedCopy>)
    ensures
        r is Some <==> zlib_deflated_best(plain@).len() * 10 <= plain@.len() * 9,
        r matches Some(c) ==> c@.stream == zlib_deflated_best(plain@) && c@.source == plain@ && faithful(c@),
{
    match zlib_deflate_best(plain) {
        Some(deflated) => match keep_if_smaller(plain.len(), deflated) {
            Some(stream) => Some(DeflatedCopy { stream, source: Ghost(plain@) }),
            None => None,
        },
        None => None,
    }
}

/// A stored copy is what a lookup with the same path, mtime and length
/// finds, and storing it changes what no other lookup finds.
pub proof fn law_stored_copy_found<V>(
    entries: Map<Seq<u8>, V>,
    path: Seq<u8>,
    mtime: u64,
    len: u64,
    copy: V,
    other_path: Seq<u8>,
    other_mtime: u64,
    other_len: u64,
)
    ensures
        entries.insert(cache_key_of(path, mtime, len), copy)[cache_key_of(path, mtime, len)] == copy,
        (other_path, other_mtime, other_len) != (path, mtime, len) ==> {
            let after = entries.insert(cache_key_of(path, mtime, len), copy);
            let key = cache_key_of(other_path, other_mtime, other_len);
            &&& after.contains_key(key) == entries.contains_key(key)
            &&& after.contains_key(key) ==> after[key] == entries[key]
        },
{
    if (other_path, other_mtime, other_len) != (path, mtime, len)
        && cache_key_of(other_path, other_mtime, other_len) == cache_key_of(path, mtime, len) {
        law_cache_key_distinguishes(other_path, other_mtime, other_len, path, mtime, len);
    }
}

} // verus!
