//! A client directory: its archives, in priority order, and the loose files
//! under its served directories. Loose files win over the archives, and
//! among the archives the first one that holds a path wins.
use vstd::prelude::*;
use vstd::slice::slice_to_vec;
use crate::cache::{cache_sound, compressible, faithful, is_compressible, origin_key, total_len, DeflateCache, DeflateCacheView, DeflatedCopy};
use crate::filter::{regex_found, SearchFilter};
use crate::grf::{listed_names, looked_up, normalize, normalized, slice_views, Archive, ArchiveView, Entry, EntryView};
use crate::lex::{sorted_unique, strictly_sorted, vec_views};
use crate::keyed::{bytes_equal, KeyedIndex};
use crate::text::{hex_digits, push_char, push_hex};

verus! {

/// Where a path was found.
pub enum Located<'a> {
    /// A loose file, by its path relative to the client directory.
    Disk(&'a [u8]),
    /// An entry of the archive at this position in priority order.
    Archive(usize, Entry<'a>),
}

pub enum LocatedView {
    Disk(Seq<u8>),
    Archive(usize, EntryView),
}

impl<'a> View for Located<'a> {
    type V = LocatedView;

    open spec fn view(&self) -> LocatedView {
        match self {
            Located::Disk(p) => LocatedView::Disk(p@),
            Located::Archive(i, e) => LocatedView::Archive(*i, e@),
        }
    }
}

pub struct ClientView {
    /// The archives, in priority order.
    pub archives: Seq<ArchiveView>,
    /// The loose files: from the lookup key of each relative path to the path
    /// as indexed last under that key.
    pub files: Map<Seq<u8>, Seq<u8>>,
}

pub struct Client {
    archives: Vec<Archive>,
    files: KeyedIndex<Vec<u8>>,
}

/// The first archive from position `i` on that holds `path`, with the entry
/// it finds.
pub open spec fn first_archive_with(archives: Seq<ArchiveView>, path: Seq<u8>, i: int) -> Option<(usize, EntryView)>
    decreases archives.len() - i,
{
    if i < 0 || i >= archives.len() {
        None
    } else {
        match looked_up(archives[i], path) {
            Some(e) => Some((i as usize, e)),
            None => first_archive_with(archives, path, i + 1),
        }
    }
}

/// Where a path lives: a loose file with its key wins, then the first archive
/// that holds it.
pub open spec fn located(c: ClientView, path: Seq<u8>) -> Option<LocatedView> {
    let key = normalized(path);
    if c.files.contains_key(key) {
        Some(LocatedView::Disk(c.files[key]))
    } else {
        match first_archive_with(c.archives, path, 0) {
            Some((i, e)) => Some(LocatedView::Archive(i, e)),
            None => None,
        }
    }
}

pub open spec fn located_opt_view(l: Option<Located>) -> Option<LocatedView> {
    match l {
        Some(l) => Some(l@),
        None => None,
    }
}

impl View for Client {
    type V = ClientView;

    closed spec fn view(&self) -> ClientView {
        ClientView {
            archives: self.archives@.map_values(|a: Archive| a@),
            files: contents_map(self.files.map()),
        }
    }
}

impl Client {
    /// A client serving the given archives, in priority order, and no loose
    /// file yet.
    pub fn new(archives: Vec<Archive>) -> (r: Client)
        ensures
            r@.archives == archives@.map_values(|a: Archive| a@),
            r@.files == Map::<Seq<u8>, Seq<u8>>::empty(),
    {
        let r = Client { archives, files: KeyedIndex::new() };
        assert(r@.files =~= Map::<Seq<u8>, Seq<u8>>::empty());
        r
    }

    /// Index a loose file by its path relative to the client directory. Returns
    /// the path it shadows, one indexed earlier under the same
    /// case-insensitive key, if any.
    pub fn add_file(&mut self, relative: &[u8]) -> (r: Option<Vec<u8>>)
        ensures
            final(self)@.archives == old(self)@.archives,
            final(self)@.files == old(self)@.files.insert(normalized(relative@), relative@),
            match r {
                Some(p) => old(self)@.files.contains_key(normalized(relative@)) && p@ == old(self)@.files[normalized(relative@)],
                None => !old(self)@.files.contains_key(normalized(relative@)),
            },
    {
        let key = normalize(relative);
        let previous = match self.files.get(key.as_slice()) {
            Some(p) => Some(slice_to_vec(p.as_slice())),
            None => None,
        };
        self.files.insert(key, slice_to_vec(relative));
        assert(self@.files =~= old(self)@.files.insert(normalized(relative@), relative@));
        previous
    }

    /// The relative path of every loose file a lookup can find.
    pub fn loose_files(&self) -> (r: Vec<&Vec<u8>>)
        ensures
            forall|j: int| 0 <= j < r@.len() ==> self@.files.values().contains(#[trigger] r@[j]@),
            forall|p: Seq<u8>| #[trigger] self@.files.values().contains(p) ==> exists|j: int| 0 <= j < r@.len() && r@[j]@ == p,
    {
        let r = self.files.values();
        proof {
            lemma_values_view(self.files.map(), r@);
        }
        r
    }

    /// Offer the cache a deflated copy of the loose file at `path`, made when
    /// the file had this mtime and length. The copy is kept only for a loose
    /// file of this client worth compressing, and only while it fits in the
    /// budget; otherwise the cache stays as it was.
    pub fn store_compressed(&self, cache: &mut DeflateCache, path: &[u8], mtime: u64, len: u64, copy: DeflatedCopy) -> (r: StoreOutcome)
        ensures
            !(is_loose_file(self@, path@) && compressible(path@, Some(len))) ==> r == StoreOutcome::NotCompressible,
            is_loose_file(self@, path@) && compressible(path@, Some(len)) ==> (r == StoreOutcome::Stored <==> total_len(old(cache)@.copies) + copy@.stream.len() <= old(cache)@.budget),
            r != StoreOutcome::Stored ==> final(cache)@ == old(cache)@,
            r == StoreOutcome::Stored ==> {
                &&& final(cache)@.entries == old(cache)@.entries.insert(crate::cache::cache_key_of(path@, mtime, len), copy@)
                &&& final(cache)@.copies == old(cache)@.copies.push(copy@)
                &&& final(cache)@.origins == old(cache)@.origins.push((path@, mtime, len))
                &&& final(cache)@.budget == old(cache)@.budget
            },
            r == StoreOutcome::OverBudget ==> is_loose_file(self@, path@) && compressible(path@, Some(len)),
            filled_from(old(cache)@, self@) ==> filled_from(final(cache)@, self@),
            cache_sound(final(cache)@),
    {
        let ghost c = self@;
        let key = normalize(path);
        let loose = match self.files.get(key.as_slice()) {
            Some(p) => bytes_equal(p.as_slice(), path),
            None => false,
        };
        if !loose || !is_compressible(path, Some(len)) {
            let _ = cache.bytes();
            return StoreOutcome::NotCompressible;
        }
        if cache.store(path, mtime, len, copy) {
            proof {
                assert forall|i: int| #![trigger cache@.origins[i]] filled_from(old(cache)@, c) && 0 <= i < cache@.origins.len() implies {
                    let o = cache@.origins[i];
                    is_loose_file(c, o.0) && compressible(o.0, Some(o.2))
                } by {
                    if i < old(cache)@.origins.len() {
                        assert(cache@.origins[i] == old(cache)@.origins[i]);
                    }
                }
            }
            StoreOutcome::Stored
        } else {
            StoreOutcome::OverBudget
        }
    }

    /// How many archives the client serves.
    pub fn num_archives(&self) -> (r: usize)
        ensures
            r == self@.archives.len(),
    {
        self.archives.len()
    }

    /// The archive at position `i` in priority order.
    pub fn archive(&self, i: usize) -> (r: &Archive)
        requires
            i < self@.archives.len(),
        ensures
            r@ == self@.archives[i as int],
    {
        &self.archives[i]
    }

    /// Find where a path lives, without touching the filesystem: loose files
    /// win over the archives, and the earlier archive in priority order wins
    /// among those.
    pub fn locate(&self, path: &[u8]) -> (r: Option<Located<'_>>)
        ensures
            located_opt_view(r) == located(self@, path@),
    {
        let key = normalize(path);
        match self.files.get(key.as_slice()) {
            Some(full) => {
                return Some(Located::Disk(full.as_slice()));
            },
            None => {},
        }
        assert(!self@.files.contains_key(normalized(path@)));
        let ghost arch = self@.archives;
        let mut i: usize = 0;
        while i < self.archives.len()
            invariant
                arch == self@.archives,
                arch.len() == self.archives@.len(),
                i <= arch.len(),
                first_archive_with(arch, path@, 0) == first_archive_with(arch, path@, i as int),
                !self@.files.contains_key(normalized(path@)),
            decreases arch.len() - i,
        {
            assert(arch[i as int] == self.archives@[i as int]@);
            match self.archives[i].lookup(path) {
                Some(entry) => {
                    return Some(Located::Archive(i, entry));
                },
                None => {},
            }
            i += 1;
        }
        None
    }

    /// Apply a filter to every known file name, in the backslash-separated
    /// form the client uses, and return the matched substrings: each once, in
    /// increasing byte order. This is what the GRF and map viewers call to
    /// list a directory.
    pub fn search(&self, filter: &SearchFilter) -> (r: Vec<Vec<u8>>)
        ensures
            strictly_sorted(vec_views(r@)),
            vec_views(r@).to_set() == found_by(self@, filter@),
    {
        let ghost c = self@;
        let ghost p = filter@;
        let mut all: Vec<Vec<u8>> = Vec::new();
        let ghost mut done: Set<Seq<u8>> = Set::empty();
        assert(vec_views(all@).to_set() =~= matches_in(p, done));
        let mut i: usize = 0;
        while i < self.archives.len()
            invariant
                c == self@,
                p == filter@,
                i <= c.archives.len(),
                c.archives.len() == self.archives@.len(),
                vec_views(all@).to_set() == matches_in(p, done),
                forall|n: Seq<u8>| #[trigger] done.contains(n) <==>
                    exists|a: int| 0 <= a < i && #[trigger] listed_names(c.archives[a]).contains(n),
            decreases c.archives.len() - i,
        {
            let names = self.archives[i].names();
            assert(c.archives[i as int] == self.archives@[i as int]@);
            let ghost listed = listed_names(c.archives[i as int]);
            assert(slice_views(names@).len() == names@.len());
            let mut j: usize = 0;
            while j < names.len()
                invariant
                    c == self@,
                    p == filter@,
                    i < c.archives.len(),
                    listed == listed_names(c.archives[i as int]),
                    slice_views(names@) == listed,
                    j <= names@.len(),
                    listed.len() == names@.len(),
                    vec_views(all@).to_set() == matches_in(p, done),
                    forall|n: Seq<u8>| #[trigger] done.contains(n) <==>
                        (exists|a: int| 0 <= a < i && #[trigger] listed_names(c.archives[a]).contains(n))
                        || exists|k: int| 0 <= k < j && listed[k] == n,
                decreases names@.len() - j,
            {
                let name = names[j];
                assert(listed[j as int] == name@);
                let ghost before = vec_views(all@);
                add_matches(&mut all, filter, name);
                proof {
                    lemma_matches_insert(before, p, done, name@);
                    done = done.insert(name@);
                }
                j += 1;
            }
            proof {
                assert forall|n: Seq<u8>| #[trigger] done.contains(n) <==>
                    exists|a: int| 0 <= a < i + 1 && #[trigger] listed_names(c.archives[a]).contains(n) by {
                    if done.contains(n) {
                        if exists|k: int| 0 <= k < j && listed[k] == n {
                            let k = choose|k: int| 0 <= k < j && listed[k] == n;
                            assert(listed.contains(n));
                        }
                    }
                    if exists|a: int| 0 <= a < i + 1 && #[trigger] listed_names(c.archives[a]).contains(n) {
                        let a = choose|a: int| 0 <= a < i + 1 && #[trigger] listed_names(c.archives[a]).contains(n);
                        if a == i {
                            let k = choose|k: int| 0 <= k < listed.len() && listed[k] == n;
                        }
                    }
                }
            }
            i += 1;
        }
        let ghost archived = done;
        let paths = self.files.values();
        let mut j: usize = 0;
        while j < paths.len()
            invariant
                c == self@,
                p == filter@,
                j <= paths@.len(),
                forall|t: int| 0 <= t < paths@.len() ==> self.files.map().contains_value(*#[trigger] paths@[t]),
                forall|v: Vec<u8>| #[trigger] self.files.map().contains_value(v) ==> exists|t: int| 0 <= t < paths@.len() && *paths@[t] == v,
                vec_views(all@).to_set() == matches_in(p, done),
                forall|n: Seq<u8>| #[trigger] archived.contains(n) <==>
                    exists|a: int| 0 <= a < c.archives.len() && #[trigger] listed_names(c.archives[a]).contains(n),
                forall|n: Seq<u8>| #[trigger] done.contains(n) <==>
                    archived.contains(n) || exists|t: int| 0 <= t < j && backslashed(paths@[t]@) == n,
            decreases paths@.len() - j,
        {
            let name = backslash(paths[j].as_slice());
            let ghost before = vec_views(all@);
            add_matches(&mut all, filter, name.as_slice());
            proof {
                lemma_matches_insert(before, p, done, name@);
                done = done.insert(name@);
            }
            j += 1;
        }
        proof {
            let searched = Set::new(|n: Seq<u8>| is_searched(c, n));
            assert forall|n: Seq<u8>| done.contains(n) <==> searched.contains(n) by {
                if exists|t: int| 0 <= t < j && backslashed(paths@[t]@) == n {
                    let t = choose|t: int| 0 <= t < j && backslashed(paths@[t]@) == n;
                    let v = *paths@[t];
                    assert(self.files.map().contains_value(v));
                    let k = choose|k: Seq<u8>| self.files.map().dom().contains(k) && self.files.map()[k] == v;
                    assert(c.files.contains_key(k));
                    assert(c.files[k] == v@);
                }
                if exists|k: Seq<u8>| #[trigger] c.files.contains_key(k) && backslashed(c.files[k]) == n {
                    let k = choose|k: Seq<u8>| #[trigger] c.files.contains_key(k) && backslashed(c.files[k]) == n;
                    let v = self.files.map()[k];
                    assert(self.files.map().contains_value(v));
                    let t = choose|t: int| 0 <= t < paths@.len() && *paths@[t] == v;
                    assert(backslashed(paths@[t]@) == n);
                }
            }
            assert(done =~= searched);
        }
        sorted_unique(&all)
    }

    /// The entity tag of a located file: for a loose file, its mtime and
    /// length in hex as `disk` gives them (`None` when they could not be read);
    /// for an archive entry, the archive's identity and the entry's.
    pub fn etag(&self, located: &Located, disk: Option<(u64, u64)>) -> (r: Option<String>)
        requires
            located@ matches LocatedView::Archive(i, _) ==> i < self@.archives.len(),
        ensures
            match r {
                Some(s) => etag_text(self@, located@, disk) == Some(s@),
                None => etag_text(self@, located@, disk) is None,
            },
    {
        match located {
            Located::Disk(_) => match disk {
                Some((mtime, len)) => Some(disk_etag(mtime, len)),
                None => None,
            },
            Located::Archive(index, entry) => {
                let archive = &self.archives[*index];
                let mut s = String::new();
                let id = archive.id();
                s.append(id.as_str());
                push_char(&mut s, '-');
                let identity = entry.identity();
                s.append(identity.as_str());
                Some(s)
            },
        }
    }
}

/// Whether `path` is the relative path of one of the client's loose files.
pub open spec fn is_loose_file(c: ClientView, path: Seq<u8>) -> bool {
    c.files.contains_key(normalized(path)) && c.files[normalized(path)] == path
}

/// Whether every copy the cache holds was stored for a loose file of the
/// client worth compressing.
pub open spec fn filled_from(cache: DeflateCacheView, c: ClientView) -> bool {
    forall|i: int| 0 <= i < cache.origins.len() ==> {
        let o = #[trigger] cache.origins[i];
        is_loose_file(c, o.0) && compressible(o.0, Some(o.2))
    }
}

/// What offering a deflated copy to the cache came to.
#[derive(Debug, PartialEq, Eq, Structural)]
pub enum StoreOutcome {
    /// The copy was kept.
    Stored,
    /// The path is not a loose file of the client worth compressing.
    NotCompressible,
    /// The copy does not fit in what is left of the budget.
    OverBudget,
}

/// Every copy a cache filled through a client holds is found under the key
/// of a loose file of that client worth compressing, and inflates back to
/// contents it saves a tenth or more of.
pub proof fn law_cache_fill(cache: DeflateCacheView, c: ClientView, k: Seq<u8>)
    requires
        cache_sound(cache),
        filled_from(cache, c),
        cache.entries.contains_key(k),
    ensures
        exists|path: Seq<u8>, mtime: u64, len: u64| {
            &&& k == crate::cache::cache_key_of(path, mtime, len)
            &&& is_loose_file(c, path)
            &&& compressible(path, Some(len))
        },
        faithful(cache.entries[k]),
{
    let i = choose|i: int| 0 <= i < cache.origins.len() && origin_key(#[trigger] cache.origins[i]) == k && cache.entries[k] == cache.copies[i];
    let o = cache.origins[i];
    assert(k == crate::cache::cache_key_of(o.0, o.1, o.2));
}

/// A loose file's relative path as the client spells it: `/` becomes `\`.
pub open spec fn backslashed(p: Seq<u8>) -> Seq<u8> {
    p.map_values(|b: u8| if b == 0x2f { 0x5cu8 } else { b })
}

/// Whether a search runs over `name`: a name some archive lists, or a loose
/// file's path spelled with backslashes.
pub open spec fn is_searched(c: ClientView, name: Seq<u8>) -> bool {
    ||| exists|i: int| 0 <= i < c.archives.len() && #[trigger] listed_names(c.archives[i]).contains(name)
    ||| exists|k: Seq<u8>| #[trigger] c.files.contains_key(k) && backslashed(c.files[k]) == name
}

/// Every match of `pattern` in one of `names`.
pub open spec fn matches_in(pattern: Seq<char>, names: Set<Seq<u8>>) -> Set<Seq<u8>> {
    Set::new(|m: Seq<u8>| exists|n: Seq<u8>| #[trigger] names.contains(n) && regex_found(pattern, n).contains(m))
}

/// What a search with `pattern` finds: every match of it in a name the
/// search runs over.
pub open spec fn found_by(c: ClientView, pattern: Seq<char>) -> Set<Seq<u8>> {
    matches_in(pattern, Set::new(|n: Seq<u8>| is_searched(c, n)))
}

/// Appending the matches in one more name adds that name to those searched.
proof fn lemma_matches_insert(all: Seq<Seq<u8>>, pattern: Seq<char>, done: Set<Seq<u8>>, name: Seq<u8>)
    requires
        all.to_set() == matches_in(pattern, done),
    ensures
        (all + regex_found(pattern, name)).to_set() == matches_in(pattern, done.insert(name)),
{
    let found = regex_found(pattern, name);
    let both = all + found;
    assert forall|m: Seq<u8>| both.to_set().contains(m) <==> matches_in(pattern, done.insert(name)).contains(m) by {
        if both.to_set().contains(m) {
            let k = choose|k: int| 0 <= k < both.len() && both[k] == m;
            if k < all.len() {
                assert(all[k] == m);
                assert(all.to_set().contains(m));
                let n = choose|n: Seq<u8>| #[trigger] done.contains(n) && regex_found(pattern, n).contains(m);
                assert(done.insert(name).contains(n));
            } else {
                assert(found[k - all.len()] == m);
                assert(found.contains(m));
                assert(done.insert(name).contains(name));
            }
        }
        if matches_in(pattern, done.insert(name)).contains(m) {
            let n = choose|n: Seq<u8>| #[trigger] done.insert(name).contains(n) && regex_found(pattern, n).contains(m);
            if n == name {
                let k = choose|k: int| 0 <= k < found.len() && found[k] == m;
                assert(both[all.len() + k] == m);
            } else {
                assert(done.contains(n));
                assert(matches_in(pattern, done).contains(m));
                assert(all.to_set().contains(m));
                let k = choose|k: int| 0 <= k < all.len() && all[k] == m;
                assert(both[k] == m);
            }
        }
    }
    assert(both.to_set() =~= matches_in(pattern, done.insert(name)));
}

/// The path with each `/` turned into `\`.
fn backslash(p: &[u8]) -> (r: Vec<u8>)
    ensures
        r@ == backslashed(p@),
{
    let mut out: Vec<u8> = Vec::new();
    let mut i: usize = 0;
    while i < p.len()
        invariant
            i <= p.len(),
            out@ == backslashed(p@.take(i as int)),
        decreases p.len() - i,
    {
        let b = if p[i] == 0x2f { 0x5cu8 } else { p[i] };
        out.push(b);
        assert(backslashed(p@.take(i + 1)) =~= backslashed(p@.take(i as int)).push(b));
        i += 1;
    }
    assert(p@.take(i as int) =~= p@);
    out
}

/// Append the matches of `filter` in `name` to `all`.
fn add_matches(all: &mut Vec<Vec<u8>>, filter: &SearchFilter, name: &[u8])
    ensures
        vec_views(final(all)@) == vec_views(old(all)@) + regex_found(filter@, name@),
{
    let mut found = filter.matches(name);
    let ghost before = all@;
    let ghost fv = found@;
    all.append(&mut found);
    assert(vec_views(all@) =~= vec_views(before) + regex_found(filter@, name@)) by {
        assert(all@ == before + fv);
        assert(fv.map_values(|m: Vec<u8>| m@) == regex_found(filter@, name@));
    }
}

/// The entity tag of a located file, given the mtime and length a loose file
/// was found with.
pub open spec fn etag_text(c: ClientView, l: LocatedView, disk: Option<(u64, u64)>) -> Option<Seq<char>> {
    match l {
        LocatedView::Disk(_) => match disk {
            Some((mtime, len)) => Some(disk_etag_text(mtime, len)),
            None => None,
        },
        LocatedView::Archive(i, e) => Some(archive_etag_text(c.archives[i as int].id, e)),
    }
}

/// The entity tag of a loose file: its mtime and length in hex, joined by a
/// dash.
pub open spec fn disk_etag_text(mtime: u64, len: u64) -> Seq<char> {
    hex_digits(mtime as nat) + seq!['-'] + hex_digits(len as nat)
}

/// The entity tag of an archive entry: the archive's identity, a dash, the
/// entry's identity.
pub open spec fn archive_etag_text(id: Seq<char>, e: EntryView) -> Seq<char> {
    id + seq!['-'] + (hex_digits(e.position as nat) + seq!['-'] + hex_digits(e.real_size as nat))
}

/// The entity tag of a loose file with this mtime and length.
pub fn disk_etag(mtime: u64, len: u64) -> (r: String)
    ensures
        r@ == disk_etag_text(mtime, len),
{
    let mut s = String::new();
    push_hex(&mut s, mtime);
    push_char(&mut s, '-');
    push_hex(&mut s, len);
    s
}

/// The first archive from position `i` on that holds `path` is one that holds
/// it, and no archive between `i` and it does.
proof fn lemma_first_archive_with(archives: Seq<ArchiveView>, path: Seq<u8>, i: int, j: int)
    requires
        0 <= i <= j < archives.len(),
        archives.len() <= usize::MAX,
        looked_up(archives[j], path) is Some,
    ensures
        first_archive_with(archives, path, i) matches Some((k, e)) && i <= k <= j
            && looked_up(archives[k as int], path) == Some(e),
    decreases j - i,
{
    if looked_up(archives[i], path) is None {
        lemma_first_archive_with(archives, path, i + 1, j);
    }
}

/// Which archive holds a path does not depend on the path's case or
/// separators.
proof fn lemma_first_archive_normalized(archives: Seq<ArchiveView>, p: Seq<u8>, q: Seq<u8>, i: int)
    requires
        normalized(p) == normalized(q),
    ensures
        first_archive_with(archives, p, i) == first_archive_with(archives, q, i),
    decreases archives.len() - i,
{
    if 0 <= i < archives.len() {
        lemma_first_archive_normalized(archives, p, q, i + 1);
    }
}

/// Lookups ignore ASCII case and accept both `/` and `\` as separators: two
/// paths that differ only so are located at the same place.
pub proof fn law_locate_ignores_case_and_separators(c: ClientView, p: Seq<u8>, q: Seq<u8>)
    requires
        normalized(p) == normalized(q),
    ensures
        located(c, p) == located(c, q),
{
    lemma_first_archive_normalized(c.archives, p, q, 0);
}

/// A loose file wins over every archive.
pub proof fn law_loose_files_win(c: ClientView, path: Seq<u8>)
    requires
        c.files.contains_key(normalized(path)),
    ensures
        located(c, path) == Some(LocatedView::Disk(c.files[normalized(path)])),
{
}

/// Absent a loose file, a path that some archive holds is located in an
/// archive that holds it, and no earlier one in priority order does.
pub proof fn law_earlier_archive_wins(c: ClientView, path: Seq<u8>, j: int)
    requires
        !c.files.contains_key(normalized(path)),
        c.archives.len() <= usize::MAX,
        0 <= j < c.archives.len(),
        looked_up(c.archives[j], path) is Some,
    ensures
        located(c, path) matches Some(LocatedView::Archive(k, e)) && k <= j
            && looked_up(c.archives[k as int], path) == Some(e)
            && forall|m: int| 0 <= m < k ==> looked_up(#[trigger] c.archives[m], path) is None,
{
    lemma_first_archive_with(c.archives, path, 0, j);
    lemma_first_archive_skips(c.archives, path, 0);
}

/// The first archive from position `i` on that holds `path` comes after every
/// archive from `i` that does not.
proof fn lemma_first_archive_skips(archives: Seq<ArchiveView>, path: Seq<u8>, i: int)
    requires
        0 <= i,
        archives.len() <= usize::MAX,
    ensures
        first_archive_with(archives, path, i) matches Some((k, e)) ==>
            forall|m: int| i <= m < k ==> looked_up(#[trigger] archives[m], path) is None,
    decreases archives.len() - i,
{
    if i < archives.len() && looked_up(archives[i], path) is None {
        lemma_first_archive_skips(archives, path, i + 1);
    }
}

/// A map of byte vectors, each taken by its contents.
pub open spec fn contents_map(m: Map<Seq<u8>, Vec<u8>>) -> Map<Seq<u8>, Seq<u8>> {
    m.map_values(|p: Vec<u8>| p@)
}

/// The values of a map of byte vectors, by their contents, are the contents
/// of its values.
proof fn lemma_values_view(m: Map<Seq<u8>, Vec<u8>>, r: Seq<&Vec<u8>>)
    requires
        forall|j: int| 0 <= j < r.len() ==> m.contains_value(*#[trigger] r[j]),
        forall|v: Vec<u8>| #[trigger] m.contains_value(v) ==> exists|j: int| 0 <= j < r.len() && *r[j] == v,
    ensures
        forall|j: int| 0 <= j < r.len() ==> contents_map(m).values().contains(#[trigger] r[j]@),
        forall|p: Seq<u8>| #[trigger] contents_map(m).values().contains(p) ==> exists|j: int| 0 <= j < r.len() && r[j]@ == p,
{
    let mv = contents_map(m);
    assert forall|j: int| 0 <= j < r.len() implies mv.values().contains(#[trigger] r[j]@) by {
        assert(m.contains_value(*r[j]));
        let k = choose|k: Seq<u8>| m.dom().contains(k) && m[k] == *r[j];
        assert(mv.dom().contains(k) && mv[k] == r[j]@);
    }
    assert forall|p: Seq<u8>| #[trigger] mv.values().contains(p) implies exists|j: int| 0 <= j < r.len() && r[j]@ == p by {
        let k = choose|k: Seq<u8>| mv.dom().contains(k) && mv[k] == p;
        assert(m.contains_value(m[k]));
        let j = choose|j: int| 0 <= j < r.len() && *r[j] == m[k];
        assert(r[j]@ == p);
    }
}

/// A loose file just indexed is where a lookup of its path, in any case and
/// with either separator, finds it.
pub proof fn law_added_file_is_located(c: ClientView, relative: Seq<u8>, path: Seq<u8>)
    requires
        normalized(path) == normalized(relative),
    ensures
        located(ClientView { files: c.files.insert(normalized(relative), relative), ..c }, path)
            == Some(LocatedView::Disk(relative)),
{
}

} // verus!
