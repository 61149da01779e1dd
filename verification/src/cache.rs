//! The index cache: parsed records kept by path, fresh as long as the size and
//! the modification time of the file stand; and the assembly of an index from
//! the cache and from the files that have to be parsed.

use vstd::prelude::*;
use crate::desktop::{compute_desktop_id, desktop_id_of, Found, FoundView};
use crate::models::{DesktopEntryIndexed, EntryView, IndexedView, norm_of, ParsedScanResult};
use crate::parser::{parse_desktop_entry, parsed};
use crate::strmap::{lemma_rows_map_distinct, lemma_rows_map_keys, rows_map, StrMap};
use crate::text::{clone_string, lemma_seq_view_push, opt_view, seq_view, str_equal, str_lowercase};

verus! {

/// The version of the cache file that this library reads and writes.
pub const CACHE_VERSION: u32 = 3;

/// The size and the modification time of a file.
#[derive(Debug, Clone, Copy, PartialEq, Eq, Structural)]
pub struct FileMeta {
    pub size: u64,
    pub mtime_sec: u64,
}

/// The record of one file in the cache.
#[derive(Debug, PartialEq, Eq)]
pub struct CachedEntry {
    pub path: String,
    pub size: u64,
    pub mtime_sec: u64,
    pub entry: DesktopEntryIndexed,
}

/// What a [`CachedEntry`] holds.
pub struct CachedView {
    pub path: Seq<char>,
    pub size: u64,
    pub mtime_sec: u64,
    pub entry: IndexedView,
}

impl View for CachedEntry {
    type V = CachedView;

    open spec fn view(&self) -> CachedView {
        CachedView {
            path: self.path@,
            size: self.size,
            mtime_sec: self.mtime_sec,
            entry: self.entry@,
        }
    }
}

impl Clone for CachedEntry {
    fn clone(&self) -> (r: Self)
        ensures
            r@ == self@,
    {
        CachedEntry {
            path: clone_string(&self.path),
            size: self.size,
            mtime_sec: self.mtime_sec,
            entry: self.entry.clone(),
        }
    }
}

/// The record of the file at `path`, parsed as `entry` when it had the given
/// size and modification time.
pub fn cached_entry(path: &str, entry: DesktopEntryIndexed, size: u64, mtime_sec: u64) -> (c:
    CachedEntry)
    ensures
        c@ == (CachedView { path: path@, size, mtime_sec, entry: entry@ }),
{
    CachedEntry { path: path.to_owned(), size, mtime_sec, entry }
}

/// Whether a record stands for a file with the given size and modification
/// time.
pub open spec fn fresh_for(c: CachedView, size: u64, mtime_sec: u64) -> bool {
    c.size == size && c.mtime_sec == mtime_sec
}

/// Freshness: a record matches the file as it is now if and only if neither
/// its size nor its modification time has changed.
pub fn is_fresh(cached: &CachedEntry, size: u64, mtime_sec: u64) -> (b: bool)
    ensures
        b == fresh_for(cached@, size, mtime_sec),
        b == (cached.size == size && cached.mtime_sec == mtime_sec),
{
    cached.size == size && cached.mtime_sec == mtime_sec
}

/// The records of a cache file by path; of two records for one path the later
/// counts.
pub open spec fn records_by_path(entries: Seq<CachedView>) -> Map<Seq<char>, CachedView>
    decreases entries.len(),
{
    if entries.len() == 0 {
        Map::empty()
    } else {
        records_by_path(entries.drop_last()).insert(entries.last().path, entries.last())
    }
}

/// What a cache file is worth for a scan of `scan_roots`: its records where
/// its version is [`CACHE_VERSION`] and its roots are the roots of the scan,
/// in their order; else nothing.
pub open spec fn usable_records(
    version: u32,
    roots: Seq<Seq<char>>,
    entries: Seq<CachedView>,
    scan_roots: Seq<Seq<char>>,
) -> Map<Seq<char>, CachedView> {
    if version == CACHE_VERSION && roots == scan_roots {
        records_by_path(entries)
    } else {
        Map::empty()
    }
}

/// The cache as it was loaded.
pub struct CacheIndex {
    pub by_path: StrMap<CachedEntry>,
    pub needs_save: bool,
}

/// Whether two lists of strings are the same.
pub fn same_strings(a: &[String], b: &[String]) -> (r: bool)
    ensures
        r == (seq_view(a@) == seq_view(b@)),
{
    if a.len() != b.len() {
        assert(seq_view(a@).len() != seq_view(b@).len());
        return false;
    }
    let mut i: usize = 0;
    while i < a.len()
        invariant
            i <= a.len(),
            a.len() == b.len(),
            forall|k: int| 0 <= k < i ==> seq_view(a@)[k] == seq_view(b@)[k],
        decreases a.len() - i,
    {
        if !str_equal(a[i].as_str(), b[i].as_str()) {
            assert(seq_view(a@)[i as int] != seq_view(b@)[i as int]);
            return false;
        }
        i += 1;
    }
    assert(seq_view(a@) =~= seq_view(b@));
    true
}

impl CacheIndex {
    /// The records of the cache, by path.
    pub open spec fn records(&self) -> Map<Seq<char>, CachedView> {
        self.by_path@.map_values(|c: CachedEntry| c@)
    }

    /// The cache without records.
    pub fn empty() -> (c: Self)
        ensures
            c.records() == Map::<Seq<char>, CachedView>::empty(),
            !c.needs_save,
    {
        let c = CacheIndex { by_path: StrMap::new(), needs_save: false };
        assert(c.records() =~= Map::<Seq<char>, CachedView>::empty());
        c
    }

    /// The cache that a cache file stands for in a scan of `scan_roots`.
    pub fn from_file(
        version: u32,
        roots: &[String],
        entries: &Vec<CachedEntry>,
        scan_roots: &[String],
    ) -> (c: Self)
        ensures
            c.records() == usable_records(
                version,
                seq_view(roots@),
                seq_view(entries@),
                seq_view(scan_roots@),
            ),
            !c.needs_save,
    {
        if version != CACHE_VERSION || !same_strings(roots, scan_roots) {
            return CacheIndex::empty();
        }
        let ghost ev = seq_view(entries@);
        let mut by_path: StrMap<CachedEntry> = StrMap::new();
        let mut i: usize = 0;
        assert(by_path@.map_values(|c: CachedEntry| c@) =~= records_by_path(ev.take(0)));
        while i < entries.len()
            invariant
                i <= entries.len(),
                ev == seq_view(entries@),
                by_path@.map_values(|c: CachedEntry| c@) == records_by_path(ev.take(i as int)),
            decreases entries.len() - i,
        {
            let ce = entries[i].clone();
            let ghost before = by_path@;
            by_path.insert(clone_string(&ce.path), ce);
            proof {
                assert(ev.take(i + 1).drop_last() =~= ev.take(i as int));
                assert(ev.take(i + 1).last() == ce@);
                assert(by_path@.map_values(|c: CachedEntry| c@) =~= before.map_values(
                    |c: CachedEntry| c@,
                ).insert(ce@.path, ce@));
            }
            i += 1;
        }
        assert(ev.take(ev.len() as int) =~= ev);
        CacheIndex { by_path, needs_save: false }
    }

    /// The record of `path` where the cache has one that is fresh for `meta`.
    pub fn fresh_record(&self, path: &str, meta: Option<FileMeta>) -> (r: Option<&CachedEntry>)
        ensures
            match r {
                Some(c) => hit(self.records(), path@, meta) == Some(c@),
                None => hit(self.records(), path@, meta) is None,
            },
    {
        match meta {
            None => None,
            Some(m) => match self.by_path.get(path) {
                Some(c) => if is_fresh(c, m.size, m.mtime_sec) {
                    Some(c)
                } else {
                    None
                },
                None => None,
            },
        }
    }

    /// Freshness: whether the file at `path` has to be parsed: always, unless
    /// its size and modification time are known and the cache has a record of
    /// it with that size and that time.
    pub fn needs_parse(&self, path: &str, meta: Option<FileMeta>) -> (b: bool)
        ensures
            b == (hit(self.records(), path@, meta) is None),
            !b <==> (meta is Some && self.records().contains_key(path@) && self.records()[path@].size
                == meta->0.size && self.records()[path@].mtime_sec == meta->0.mtime_sec),
    {
        self.fresh_record(path, meta).is_none()
    }
}

/// The record that stands for the file at `path` as it is now: the one under
/// `path`, where the size and the modification time of the file are known and
/// are those of the record.
pub open spec fn hit(records: Map<Seq<char>, CachedView>, path: Seq<char>, meta: Option<FileMeta>) -> Option<
    CachedView,
> {
    match meta {
        Some(m) => if records.contains_key(path) && fresh_for(records[path], m.size, m.mtime_sec) {
            Some(records[path])
        } else {
            None
        },
        None => None,
    }
}

// ---------------------------------------------------------------------------
// From the files found to the files to look at
// ---------------------------------------------------------------------------

/// A file to look at: its path and the id of its entry.
pub struct Candidate {
    pub path: String,
    pub id: String,
}

/// What a [`Candidate`] holds.
pub struct CandidateView {
    pub path: Seq<char>,
    pub id: Seq<char>,
}

impl View for Candidate {
    type V = CandidateView;

    open spec fn view(&self) -> CandidateView {
        CandidateView { path: self.path@, id: self.id@ }
    }
}

/// Whether one of `list` has the id `id`.
pub open spec fn has_id(list: Seq<CandidateView>, id: Seq<char>) -> bool {
    exists|k: int| 0 <= k < list.len() && (#[trigger] list[k]).id == id
}

/// The files to look at among the first `n` files found: each with its id, and
/// of two with one id the one found first.
pub open spec fn unique_files(found: Seq<FoundView>, n: int) -> Seq<CandidateView>
    decreases n,
{
    if n <= 0 {
        Seq::empty()
    } else {
        let rest = unique_files(found, n - 1);
        let id = desktop_id_of(found[n - 1].root, found[n - 1].path);
        if has_id(rest, id) {
            rest
        } else {
            rest.push(CandidateView { path: found[n - 1].path, id })
        }
    }
}

/// Precedence among roots: no two of the files to look at have one id; each
/// is a file that was found, under the id that its root gives it; and every
/// file found has its id among them.
pub proof fn lemma_unique_files(found: Seq<FoundView>, n: int)
    requires
        n <= found.len(),
    ensures
        forall|i: int, j: int|
            0 <= i < j < unique_files(found, n).len() ==> (#[trigger] unique_files(found, n)[i]).id != (
            #[trigger] unique_files(found, n)[j]).id,
        forall|k: int|
            0 <= k < unique_files(found, n).len() ==> exists|m: int|
                0 <= m < n && (#[trigger] unique_files(found, n)[k]) == (CandidateView {
                    path: (#[trigger] found[m]).path,
                    id: desktop_id_of(found[m].root, found[m].path),
                }),
        forall|m: int|
            0 <= m < n ==> has_id(
                unique_files(found, n),
                desktop_id_of((#[trigger] found[m]).root, found[m].path),
            ),
    decreases n,
{
    if n > 0 {
        lemma_unique_files(found, n - 1);
        let rest = unique_files(found, n - 1);
        let all = unique_files(found, n);
        let id = desktop_id_of(found[n - 1].root, found[n - 1].path);
        assert forall|k: int| 0 <= k < all.len() implies exists|m: int|
            0 <= m < n && (#[trigger] all[k]) == (CandidateView {
                path: (#[trigger] found[m]).path,
                id: desktop_id_of(found[m].root, found[m].path),
            }) by {
            if k < rest.len() {
                assert(all[k] == rest[k]);
                let m = choose|m: int|
                    0 <= m < n - 1 && rest[k] == (CandidateView {
                        path: (#[trigger] found[m]).path,
                        id: desktop_id_of(found[m].root, found[m].path),
                    });
                assert(0 <= m < n);
            } else {
                assert(all[k] == (CandidateView { path: found[n - 1].path, id }));
            }
        }
        assert forall|m: int| 0 <= m < n implies has_id(
            all,
            desktop_id_of((#[trigger] found[m]).root, found[m].path),
        ) by {
            let want = desktop_id_of(found[m].root, found[m].path);
            if m < n - 1 {
                let k = choose|k: int| 0 <= k < rest.len() && (#[trigger] rest[k]).id == want;
                assert(all[k].id == want);
            } else if has_id(rest, id) {
                let k = choose|k: int| 0 <= k < rest.len() && (#[trigger] rest[k]).id == id;
                assert(all[k].id == want);
            } else {
                assert(all[rest.len() as int].id == want);
            }
        }
        assert forall|i: int, j: int| 0 <= i < j < all.len() implies (#[trigger] all[i]).id != (
        #[trigger] all[j]).id by {
            if j < rest.len() {
                assert(all[i] == rest[i] && all[j] == rest[j]);
            } else {
                assert(all[i] == rest[i]);
            }
        }
    }
}

fn id_is_taken(list: &Vec<Candidate>, id: &str) -> (b: bool)
    ensures
        b == has_id(seq_view(list@), id@),
{
    let mut k: usize = 0;
    while k < list.len()
        invariant
            k <= list.len(),
            forall|j: int| 0 <= j < k ==> (#[trigger] seq_view(list@)[j]).id != id@,
        decreases list.len() - k,
    {
        if str_equal(list[k].id.as_str(), id) {
            assert(seq_view(list@)[k as int].id == id@);
            return true;
        }
        k += 1;
    }
    false
}

/// The files to look at among the files found: the id of each is computed
/// from the root it was found under, and where two files have one id the one
/// found first stays.
pub fn select_candidates(found: &Vec<Found>) -> (r: Vec<Candidate>)
    ensures
        seq_view(r@) == unique_files(seq_view(found@), found.len() as int),
{
    let ghost fv = seq_view(found@);
    let mut r: Vec<Candidate> = Vec::new();
    let mut i: usize = 0;
    assert(seq_view(r@) =~= unique_files(fv, 0));
    while i < found.len()
        invariant
            i <= found.len(),
            fv == seq_view(found@),
            seq_view(r@) == unique_files(fv, i as int),
        decreases found.len() - i,
    {
        assert(fv[i as int] == found@[i as int]@);
        let id = compute_desktop_id(found[i].root.as_str(), found[i].path.as_str());
        if !id_is_taken(&r, id.as_str()) {
            let c = Candidate { path: clone_string(&found[i].path), id };
            proof {
                lemma_seq_view_push(r@, c);
            }
            r.push(c);
        }
        i += 1;
    }
    r
}

// ---------------------------------------------------------------------------
// From the files looked at to the index
// ---------------------------------------------------------------------------

/// A file that was looked at: the candidate, its size and modification time
/// where they could be read, and its text where it was read.
pub struct Fetched {
    pub path: String,
    pub id: String,
    pub meta: Option<FileMeta>,
    pub data: Option<String>,
}

/// What a [`Fetched`] holds.
pub struct FetchedView {
    pub path: Seq<char>,
    pub id: Seq<char>,
    pub meta: Option<FileMeta>,
    pub data: Option<Seq<char>>,
}

impl View for Fetched {
    type V = FetchedView;

    open spec fn view(&self) -> FetchedView {
        FetchedView { path: self.path@, id: self.id@, meta: self.meta, data: opt_view(self.data) }
    }
}

/// The indexed form of a record: the record with its haystack and with its id
/// and name in lowercase.
pub open spec fn indexed(out: EntryView) -> IndexedView {
    IndexedView {
        out,
        norm: norm_of(out),
        id_lc: str_lowercase(out.id),
        name_lc: match out.name {
            Some(n) => Some(str_lowercase(n)),
            None => None,
        },
    }
}

/// What a scan has gathered.
pub struct Gathered {
    pub entries: Seq<IndexedView>,
    pub cache: Seq<CachedView>,
    pub reparsed: int,
    pub meta_missing: int,
    pub parse_failed: int,
}

/// What a scan has gathered once one more file was looked at. A file with a
/// fresh record is not parsed: its entry is the one of the record, and the
/// record goes on into the new cache. Any other file is parsed where its text
/// was read, and counted as failed where it was not; what was parsed goes into
/// the new cache where the size and the modification time of the file are
/// known.
pub open spec fn gathered_with(
    g: Gathered,
    f: FetchedView,
    records: Map<Seq<char>, CachedView>,
    prefs: Seq<Seq<char>>,
) -> Gathered {
    match hit(records, f.path, f.meta) {
        Some(c) => Gathered { entries: g.entries.push(c.entry), cache: g.cache.push(c), ..g },
        None => {
            let missing = if f.meta is None {
                g.meta_missing + 1
            } else {
                g.meta_missing
            };
            match f.data {
                None => Gathered {
                    meta_missing: missing,
                    parse_failed: g.parse_failed + 1,
                    ..g
                },
                Some(text) => {
                    let e = indexed(parsed(text, f.id, prefs));
                    match f.meta {
                        Some(m) => Gathered {
                            entries: g.entries.push(e),
                            cache: g.cache.push(
                                CachedView {
                                    path: f.path,
                                    size: m.size,
                                    mtime_sec: m.mtime_sec,
                                    entry: e,
                                },
                            ),
                            reparsed: g.reparsed + 1,
                            ..g
                        },
                        None => Gathered { entries: g.entries.push(e), meta_missing: missing, ..g },
                    }
                },
            }
        },
    }
}

/// What a scan has gathered from the first `n` files looked at.
pub open spec fn gathered(
    files: Seq<FetchedView>,
    records: Map<Seq<char>, CachedView>,
    prefs: Seq<Seq<char>>,
    n: int,
) -> Gathered
    decreases n,
{
    if n <= 0 {
        Gathered {
            entries: Seq::empty(),
            cache: Seq::empty(),
            reparsed: 0,
            meta_missing: 0,
            parse_failed: 0,
        }
    } else {
        gathered_with(gathered(files, records, prefs, n - 1), files[n - 1], records, prefs)
    }
}

/// The new cache has the paths of the old one, all of them and no other.
pub open spec fn same_paths(records: Map<Seq<char>, CachedView>, cache: Seq<CachedView>) -> bool {
    &&& forall|k: int| 0 <= k < cache.len() ==> records.contains_key((#[trigger] cache[k]).path)
    &&& forall|p: Seq<char>|
        records.contains_key(p) ==> exists|k: int| 0 <= k < cache.len() && (#[trigger] cache[k]).path == p
}

/// Whether the new cache has to be written: always where the old one asks for
/// it; else unless nothing was parsed again, the size and time of every file
/// could be read, no file failed, and the paths in the cache are what they
/// were.
pub open spec fn must_save(needs_save: bool, records: Map<Seq<char>, CachedView>, g: Gathered) -> bool {
    needs_save || g.reparsed > 0 || g.meta_missing > 0 || g.parse_failed > 0 || !same_paths(
        records,
        g.cache,
    )
}

/// What a scan comes to: its result, the cache as it is now, and whether that
/// cache has to be written.
pub struct ScanOutcome {
    pub result: ParsedScanResult,
    pub cache: Vec<CachedEntry>,
    pub save: bool,
}

fn cache_has_path(cache: &Vec<CachedEntry>, path: &str) -> (b: bool)
    ensures
        b == exists|k: int| 0 <= k < cache.len() && (#[trigger] seq_view(cache@)[k]).path == path@,
{
    let mut k: usize = 0;
    while k < cache.len()
        invariant
            k <= cache.len(),
            forall|j: int| 0 <= j < k ==> (#[trigger] seq_view(cache@)[j]).path != path@,
        decreases cache.len() - k,
    {
        if str_equal(cache[k].path.as_str(), path) {
            assert(seq_view(cache@)[k as int].path == path@);
            return true;
        }
        k += 1;
    }
    false
}

fn paths_unchanged(old: &CacheIndex, cache: &Vec<CachedEntry>) -> (b: bool)
    ensures
        b == same_paths(old.records(), seq_view(cache@)),
{
    let ghost cv = seq_view(cache@);
    let ghost recs = old.records();
    let mut k: usize = 0;
    while k < cache.len()
        invariant
            k <= cache.len(),
            cv == seq_view(cache@),
            recs == old.records(),
            forall|j: int| 0 <= j < k ==> recs.contains_key((#[trigger] cv[j]).path),
        decreases cache.len() - k,
    {
        if !old.by_path.contains_key(cache[k].path.as_str()) {
            assert(cv[k as int].path == cache@[k as int].path@);
            assert(!recs.contains_key(cv[k as int].path));
            return false;
        }
        assert(cv[k as int].path == cache@[k as int].path@);
        k += 1;
    }
    let rows = old.by_path.rows();
    proof {
        lemma_rows_map_keys(rows@);
        lemma_rows_map_distinct(rows@);
    }
    let mut i: usize = 0;
    while i < rows.len()
        invariant
            i <= rows.len(),
            cv == seq_view(cache@),
            recs == old.records(),
            rows_map(rows@) == old.by_path@,
            forall|j: int|
                0 <= j < i ==> exists|k: int|
                    0 <= k < cv.len() && (#[trigger] cv[k]).path == (#[trigger] rows@[j]).0@,
        decreases rows.len() - i,
    {
        if !cache_has_path(cache, rows[i].0.as_str()) {
            proof {
                lemma_rows_map_keys(rows@);
                let p = rows@[i as int].0@;
                assert(rows_map(rows@).contains_key(p));
                assert(recs.contains_key(p));
            }
            return false;
        }
        i += 1;
    }
    proof {
        lemma_rows_map_keys(rows@);
        assert forall|p: Seq<char>| recs.contains_key(p) implies exists|k: int|
            0 <= k < cv.len() && (#[trigger] cv[k]).path == p by {
            assert(rows_map(rows@).contains_key(p));
            let j = choose|j: int| 0 <= j < rows@.len() && (#[trigger] rows@[j]).0@ == p;
            assert(exists|k: int| 0 <= k < cv.len() && (#[trigger] cv[k]).path == rows@[j].0@);
        }
    }
    true
}

/// Assembles the index of a scan from the files that were looked at, in the
/// order of the scan. With `use_cache`, files with a fresh record in `old`
/// are not parsed again, and the outcome says whether the new cache has to be
/// written; without it every file is parsed and nothing is written.
pub fn assemble_index(
    scan_roots: &[String],
    found_count: usize,
    files: &Vec<Fetched>,
    old: &CacheIndex,
    use_cache: bool,
    locale_prefs: &[String],
) -> (r: ScanOutcome)
    ensures
        ({
            let records = if use_cache {
                old.records()
            } else {
                Map::empty()
            };
            let g = gathered(seq_view(files@), records, seq_view(locale_prefs@), files.len() as int);
            &&& seq_view(r.result.scanned_roots@) == seq_view(scan_roots@)
            &&& r.result.found_count == found_count
            &&& seq_view(r.result.entries@) == g.entries
            &&& r.result.parsed_count == g.entries.len()
            &&& r.result.parse_failed == g.parse_failed
            &&& seq_view(r.cache@) == g.cache
            &&& r.save == (use_cache && must_save(old.needs_save, records, g))
        }),
{
    let ghost fv = seq_view(files@);
    let ghost pv = seq_view(locale_prefs@);
    let none = CacheIndex::empty();
    let source: &CacheIndex = if use_cache {
        old
    } else {
        &none
    };
    let ghost records = source.records();
    let mut entries: Vec<DesktopEntryIndexed> = Vec::new();
    let mut cache: Vec<CachedEntry> = Vec::new();
    let mut reparsed: usize = 0;
    let mut meta_missing: usize = 0;
    let mut parse_failed: usize = 0;
    let mut i: usize = 0;
    assert(seq_view(entries@) =~= gathered(fv, records, pv, 0).entries);
    assert(seq_view(cache@) =~= gathered(fv, records, pv, 0).cache);
    while i < files.len()
        invariant
            i <= files.len(),
            fv == seq_view(files@),
            pv == seq_view(locale_prefs@),
            records == source.records(),
            seq_view(entries@) == gathered(fv, records, pv, i as int).entries,
            seq_view(cache@) == gathered(fv, records, pv, i as int).cache,
            reparsed == gathered(fv, records, pv, i as int).reparsed,
            meta_missing == gathered(fv, records, pv, i as int).meta_missing,
            parse_failed == gathered(fv, records, pv, i as int).parse_failed,
            reparsed <= i,
            meta_missing <= i,
            parse_failed <= i,
        decreases files.len() - i,
    {
        let f = &files[i];
        assert(fv[i as int] == f@);
        match source.fresh_record(f.path.as_str(), f.meta) {
            Some(c) => {
                let e = c.entry.clone();
                let kept = c.clone();
                proof {
                    lemma_seq_view_push(entries@, e);
                    lemma_seq_view_push(cache@, kept);
                }
                entries.push(e);
                cache.push(kept);
            },
            None => {
                if f.meta.is_none() {
                    meta_missing += 1;
                }
                match &f.data {
                    None => {
                        parse_failed += 1;
                    },
                    Some(text) => {
                        let e = parse_desktop_entry(text.as_str(), clone_string(&f.id), locale_prefs);
                        assert(e@ == indexed(parsed(text@, f.id@, pv)));
                        match f.meta {
                            Some(m) => {
                                let kept = cached_entry(
                                    f.path.as_str(),
                                    e.clone(),
                                    m.size,
                                    m.mtime_sec,
                                );
                                proof {
                                    lemma_seq_view_push(entries@, e);
                                    lemma_seq_view_push(cache@, kept);
                                }
                                entries.push(e);
                                cache.push(kept);
                                reparsed += 1;
                            },
                            None => {
                                proof {
                                    lemma_seq_view_push(entries@, e);
                                }
                                entries.push(e);
                            },
                        }
                    },
                }
            },
        }
        i += 1;
    }
    let save = use_cache && (old.needs_save || reparsed > 0 || meta_missing > 0 || parse_failed > 0
        || !paths_unchanged(old, &cache));
    let mut roots: Vec<String> = Vec::new();
    let mut k: usize = 0;
    while k < scan_roots.len()
        invariant
            k <= scan_roots.len(),
            roots.len() == k,
            forall|j: int| 0 <= j < k ==> (#[trigger] roots@[j])@ == scan_roots@[j]@,
        decreases scan_roots.len() - k,
    {
        roots.push(clone_string(&scan_roots[k]));
        k += 1;
    }
    assert(seq_view(roots@) =~= seq_view(scan_roots@));
    let parsed_count = entries.len();
    ScanOutcome {
        result: ParsedScanResult {
            scanned_roots: roots,
            found_count,
            parsed_count,
            parse_failed,
            entries,
        },
        cache,
        save,
    }
}

// ---------------------------------------------------------------------------
// The name of the cache file
// ---------------------------------------------------------------------------

/// One step of the hash: the byte is mixed in, and the whole multiplied.
pub open spec fn mixed(h: u64, b: u8) -> u64 {
    (h ^ (b as u64)).wrapping_mul(0x100000001b3u64)
}

/// The hash `h` after the bytes of `bytes`.
pub open spec fn hashed_bytes(h: u64, bytes: Seq<u8>) -> u64
    decreases bytes.len(),
{
    if bytes.len() == 0 {
        h
    } else {
        mixed(hashed_bytes(h, bytes.drop_last()), bytes.last())
    }
}

/// The hash `h` after the roots `roots`: after the bytes of each root and one
/// byte that no root holds.
pub open spec fn hashed_roots(h: u64, roots: Seq<Seq<char>>) -> u64
    decreases roots.len(),
{
    if roots.len() == 0 {
        h
    } else {
        mixed(
            hashed_bytes(hashed_roots(h, roots.drop_last()), vstd::utf8::encode_utf8(roots.last())),
            0xffu8,
        )
    }
}

/// The hash of an ordered set of roots.
pub open spec fn roots_hash_of(roots: Seq<Seq<char>>) -> u64 {
    hashed_roots(0xcbf29ce484222325u64, roots)
}

/// The name of the cache file of the roots with hash `hash`, in the format
/// `version`: `index-`, the hash in hexadecimal, `.v`, the version, `.bin`.
pub open spec fn cache_file_name_of(hash: u64, version: u32) -> Seq<char> {
    "index-"@ + crate::text::digits_of(hash as nat, 16) + ".v"@ + crate::text::digits_of(
        version as nat,
        10,
    ) + ".bin"@
}

/// The hash of `roots`.
pub fn roots_hash(roots: &[String]) -> (h: u64)
    ensures
        h == roots_hash_of(seq_view(roots@)),
{
    let ghost rv = seq_view(roots@);
    let mut h: u64 = 0xcbf29ce484222325u64;
    let mut i: usize = 0;
    while i < roots.len()
        invariant
            i <= roots.len(),
            rv == seq_view(roots@),
            h == hashed_roots(0xcbf29ce484222325u64, rv.take(i as int)),
        decreases roots.len() - i,
    {
        let bytes = roots[i].as_str().as_bytes();
        let ghost start = h;
        let mut k: usize = 0;
        while k < bytes.len()
            invariant
                k <= bytes.len(),
                h == hashed_bytes(start, bytes@.take(k as int)),
            decreases bytes.len() - k,
        {
            h = (h ^ (bytes[k] as u64)).wrapping_mul(0x100000001b3u64);
            assert(bytes@.take(k + 1).drop_last() =~= bytes@.take(k as int));
            k += 1;
        }
        assert(bytes@.take(bytes@.len() as int) =~= bytes@);
        h = (h ^ 0xffu64).wrapping_mul(0x100000001b3u64);
        proof {
            assert(rv.take(i + 1).drop_last() =~= rv.take(i as int));
            assert(rv.take(i + 1).last() == roots@[i as int]@);
            assert(0xffu8 as u64 == 0xffu64);
        }
        i += 1;
    }
    assert(rv.take(rv.len() as int) =~= rv);
    h
}

/// The name of the cache file of the roots with hash `hash`, in the format
/// `version`.
pub fn cache_file_name(hash: u64, version: u32) -> (name: String)
    ensures
        name@ == cache_file_name_of(hash, version),
{
    let mut name = "index-".to_owned();
    crate::text::push_digits(&mut name, hash, 16);
    name.append(".v");
    crate::text::push_digits(&mut name, version as u64, 10);
    name.append(".bin");
    name
}

/// The path below `cache_dir` of the cache file of `scan_roots` in the format
/// `version`.
pub fn cache_bin_path(scan_roots: &[String], version: u32, cache_dir: &str) -> (path: String)
    ensures
        path@ == crate::desktop::path_joined(
            cache_dir@,
            cache_file_name_of(roots_hash_of(seq_view(scan_roots@)), version),
        ),
{
    let name = cache_file_name(roots_hash(scan_roots), version);
    crate::desktop::join_path(cache_dir, name.as_str())
}

/// The path below `cache_dir` of the cache file of `scan_roots`.
pub fn cache_file_path(scan_roots: &[String], cache_dir: &str) -> (path: String)
    ensures
        path@ == crate::desktop::path_joined(
            cache_dir@,
            cache_file_name_of(roots_hash_of(seq_view(scan_roots@)), CACHE_VERSION),
        ),
{
    cache_bin_path(scan_roots, CACHE_VERSION, cache_dir)
}

// ---------------------------------------------------------------------------
// What holds of every cache
// ---------------------------------------------------------------------------

/// No two records have one path.
pub open spec fn distinct_paths(entries: Seq<CachedView>) -> bool {
    forall|i: int, j: int|
        0 <= i < j < entries.len() ==> (#[trigger] entries[i]).path != (#[trigger] entries[j]).path
}

/// The records of a cache file are found under their paths.
pub proof fn lemma_records_by_path(entries: Seq<CachedView>)
    requires
        distinct_paths(entries),
    ensures
        forall|k: int|
            0 <= k < entries.len() ==> records_by_path(entries).contains_key(
                (#[trigger] entries[k]).path,
            ) && records_by_path(entries)[entries[k].path] == entries[k],
    decreases entries.len(),
{
    if entries.len() > 0 {
        let head = entries.drop_last();
        assert(distinct_paths(head)) by {
            assert forall|i: int, j: int| 0 <= i < j < head.len() implies (#[trigger] head[i]).path != (
            #[trigger] head[j]).path by {
                assert(head[i] == entries[i] && head[j] == entries[j]);
            }
        }
        lemma_records_by_path(head);
        assert forall|k: int| 0 <= k < entries.len() implies records_by_path(entries).contains_key(
            (#[trigger] entries[k]).path,
        ) && records_by_path(entries)[entries[k].path] == entries[k] by {
            if k < entries.len() - 1 {
                assert(head[k] == entries[k]);
                assert(entries[k].path != entries[entries.len() - 1].path);
            }
        }
    }
}

/// Cache round-trip: a record that was written into a cache file is found
/// again, unchanged, by a scan of the same roots in the same order, as long
/// as the file that it stands for has the size and the modification time
/// that it had; and the scan then takes the entry of the record as it is.
pub proof fn lemma_cache_round_trip(
    roots: Seq<Seq<char>>,
    entries: Seq<CachedView>,
    k: int,
    g: Gathered,
    id: Seq<char>,
    data: Option<Seq<char>>,
    prefs: Seq<Seq<char>>,
)
    requires
        distinct_paths(entries),
        0 <= k < entries.len(),
    ensures
        ({
            let records = usable_records(CACHE_VERSION, roots, entries, roots);
            let meta = Some(FileMeta { size: entries[k].size, mtime_sec: entries[k].mtime_sec });
            let file = FetchedView { path: entries[k].path, id, meta, data };
            &&& hit(records, entries[k].path, meta) == Some(entries[k])
            &&& gathered_with(g, file, records, prefs).entries == g.entries.push(entries[k].entry)
            &&& gathered_with(g, file, records, prefs).cache == g.cache.push(entries[k])
            &&& gathered_with(g, file, records, prefs).reparsed == g.reparsed
        }),
{
    lemma_records_by_path(entries);
}

} // verus!
