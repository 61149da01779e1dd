//! Application ids, and what a walk of the applications directories found.

use vstd::prelude::*;
use crate::models::{DesktopEntryIndexed, ScanResult};
use crate::order::prefix;
use crate::parser::{parse_desktop_entry, parsed};
use crate::text::{
    chars_of, clone_string, lemma_seq_view_push, opt_view, range_is, range_is_ignoring_case,
    same_ignoring_ascii_case, seq_view,
};

verus! {

// ---------------------------------------------------------------------------
// What the standard library decides about paths
// ---------------------------------------------------------------------------

/// `path` relative to `base`, where `base` is a prefix of `path` component by
/// component.
pub uninterp spec fn path_relative_to(path: Seq<char>, base: Seq<char>) -> Option<Seq<char>>;

/// The file name of `path` without its extension.
pub uninterp spec fn path_file_stem(path: Seq<char>) -> Option<Seq<char>>;

/// The extension of the file name of `path`.
pub uninterp spec fn path_extension(path: Seq<char>) -> Option<Seq<char>>;

/// `dir` with `name` below it.
pub uninterp spec fn path_joined(dir: Seq<char>, name: Seq<char>) -> Seq<char>;

/// `std::path::Path::join`, named by [`path_joined`].
#[verifier::external_body]
pub(crate) fn join_path(dir: &str, name: &str) -> (r: String)
    ensures
        r@ == path_joined(dir@, name@),
{
    std::path::Path::new(dir).join(name).to_string_lossy().into_owned()
}

/// `std::path::Path::strip_prefix`: the rest of `path` behind `base`, or
/// nothing where `path` does not begin with `base`. The result is the one
/// named [`path_relative_to`].
#[verifier::external_body]
pub(crate) fn relative_to(path: &str, base: &str) -> (r: Option<String>)
    ensures
        opt_view(r) == path_relative_to(path@, base@),
{
    std::path::Path::new(path).strip_prefix(base).ok().map(|p| p.to_string_lossy().into_owned())
}

/// `std::path::Path::file_stem`, named by [`path_file_stem`].
#[verifier::external_body]
pub(crate) fn file_stem(path: &str) -> (r: Option<String>)
    ensures
        opt_view(r) == path_file_stem(path@),
{
    std::path::Path::new(path).file_stem().and_then(|s| s.to_str()).map(|s| s.to_string())
}

/// `std::path::Path::extension`, named by [`path_extension`].
#[verifier::external_body]
pub(crate) fn extension(path: &str) -> (r: Option<String>)
    ensures
        opt_view(r) == path_extension(path@),
{
    std::path::Path::new(path).extension().and_then(|s| s.to_str()).map(|s| s.to_string())
}

// ---------------------------------------------------------------------------
// Ids
// ---------------------------------------------------------------------------

/// `s` ends with `suffix`.
pub open spec fn ends_with(s: Seq<char>, suffix: Seq<char>) -> bool {
    s.len() >= suffix.len() && s.subrange(s.len() - suffix.len(), s.len() as int) == suffix
}

/// `s` with `-` in place of each `/`.
pub open spec fn dashed(s: Seq<char>) -> Seq<char> {
    s.map_values(|c: char| if c == '/' { '-' } else { c })
}

/// The id of the entry file at `rel` below its root: `rel` without the
/// suffix `.desktop`, with `-` in place of each `/`.
pub open spec fn id_of_relative(rel: Seq<char>) -> Seq<char> {
    if ends_with(rel, ".desktop"@) {
        dashed(rel.take(rel.len() - ".desktop"@.len()))
    } else {
        dashed(rel)
    }
}

/// The id of the entry file at `path` found under `root`; where `path` is not
/// under `root`, the whole path counts as relative.
pub open spec fn desktop_id_of(root: Seq<char>, path: Seq<char>) -> Seq<char> {
    match path_relative_to(path, root) {
        Some(rel) => id_of_relative(rel),
        None => id_of_relative(path),
    }
}

/// The id of the entry file at `path`: its id under the first of `roots` that
/// it is under; under none, its file stem, or `unknown` where it has none.
pub open spec fn desktop_id_among(path: Seq<char>, roots: Seq<Seq<char>>, from: int) -> Seq<char>
    decreases roots.len() - from,
{
    if from < 0 || from >= roots.len() {
        match path_file_stem(path) {
            Some(stem) => stem,
            None => "unknown"@,
        }
    } else {
        match path_relative_to(path, roots[from]) {
            Some(rel) => id_of_relative(rel),
            None => desktop_id_among(path, roots, from + 1),
        }
    }
}

/// An id without the suffix `.desktop`, however often it is repeated.
pub open spec fn normal_id(id: Seq<char>) -> Seq<char>
    decreases id.len(),
{
    if ".desktop"@.len() > 0 && ends_with(id, ".desktop"@) {
        normal_id(id.take(id.len() - ".desktop"@.len()))
    } else {
        id
    }
}

/// The id of the entry file at `rel` below its root.
pub fn id_from_relative(rel: &str) -> (id: String)
    ensures
        id@ == id_of_relative(rel@),
{
    let cs = chars_of(rel);
    let suffix = chars_of(".desktop");
    let n = cs.len();
    let hi = if n >= suffix.len() && range_is(&cs, n - suffix.len(), n, ".desktop") {
        n - suffix.len()
    } else {
        n
    };
    let mut id = String::new();
    let mut i: usize = 0;
    let ghost stem = cs@.take(hi as int);
    while i < hi
        invariant
            i <= hi <= cs.len(),
            stem == cs@.take(hi as int),
            id@ == dashed(stem.take(i as int)),
        decreases hi - i,
    {
        let c = cs[i];
        id.push(if c == '/' {
            '-'
        } else {
            c
        });
        assert(dashed(stem.take(i + 1)) =~= dashed(stem.take(i as int)).push(
            if c == '/' {
                '-'
            } else {
                c
            },
        ));
        i += 1;
    }
    assert(stem.take(hi as int) =~= stem);
    assert(cs@.take(n as int) =~= cs@);
    id
}

/// The id of the entry file at `desktop_path`, found under
/// `applications_root`.
pub fn compute_desktop_id(applications_root: &str, desktop_path: &str) -> (id: String)
    ensures
        id@ == desktop_id_of(applications_root@, desktop_path@),
{
    match relative_to(desktop_path, applications_root) {
        Some(rel) => id_from_relative(rel.as_str()),
        None => id_from_relative(desktop_path),
    }
}

/// The id of the entry file at `path`, given the roots that it may be under.
pub fn desktop_file_id_using_roots(path: &str, applications_roots: &[String]) -> (id: String)
    ensures
        id@ == desktop_id_among(path@, seq_view(applications_roots@), 0),
{
    let ghost rv = seq_view(applications_roots@);
    let mut k: usize = 0;
    while k < applications_roots.len()
        invariant
            k <= applications_roots.len(),
            rv == seq_view(applications_roots@),
            desktop_id_among(path@, rv, 0) == desktop_id_among(path@, rv, k as int),
        decreases applications_roots.len() - k,
    {
        assert(rv[k as int] == applications_roots@[k as int]@);
        match relative_to(path, applications_roots[k].as_str()) {
            Some(rel) => {
                return id_from_relative(rel.as_str());
            },
            None => {},
        }
        k += 1;
    }
    match file_stem(path) {
        Some(stem) => stem,
        None => "unknown".to_owned(),
    }
}

/// An id as it is accepted at an interface: without the suffix `.desktop`.
pub fn normalize_desktop_id(id: &str) -> (r: String)
    ensures
        r@ == normal_id(id@),
{
    let cs = chars_of(id);
    let suffix = chars_of(".desktop");
    let k = suffix.len();
    let mut hi: usize = cs.len();
    assert(cs@.take(hi as int) =~= cs@);
    while k > 0 && hi >= k && range_is(&cs, hi - k, hi, ".desktop")
        invariant
            hi <= cs.len(),
            k == ".desktop"@.len(),
            normal_id(cs@) == normal_id(cs@.take(hi as int)),
        decreases hi,
    {
        proof {
            let s = cs@.take(hi as int);
            assert(s.subrange(s.len() - k, s.len() as int) =~= cs@.subrange(hi - k, hi as int));
            assert(s.take(s.len() - k) =~= cs@.take(hi - k));
        }
        hi = hi - k;
    }
    proof {
        let s = cs@.take(hi as int);
        if hi >= k {
            assert(s.subrange(s.len() - k, s.len() as int) =~= cs@.subrange(hi - k, hi as int));
        }
    }
    let r = crate::text::string_of_range(&cs, 0, hi);
    assert(cs@.subrange(0, hi as int) =~= cs@.take(hi as int));
    r
}

/// Parses the text `data` of the entry file at `path`, whose id follows from
/// the roots that it may be under.
pub fn parse_desktop_file_using_roots(
    path: &str,
    data: &str,
    applications_roots: &[String],
    locale_prefs: &[String],
) -> (e: DesktopEntryIndexed)
    ensures
        e.out@ == parsed(
            data@,
            desktop_id_among(path@, seq_view(applications_roots@), 0),
            seq_view(locale_prefs@),
        ),
        e.well_formed(),
{
    let id = desktop_file_id_using_roots(path, applications_roots);
    parse_desktop_entry(data, id, locale_prefs)
}

// ---------------------------------------------------------------------------
// The walk
// ---------------------------------------------------------------------------

/// Whether `path` names an entry file: its extension is `desktop`, in any
/// case.
pub open spec fn names_entry_file(path: Seq<char>) -> bool {
    match path_extension(path) {
        Some(ext) => same_ignoring_ascii_case(ext, "desktop"@),
        None => false,
    }
}

/// Whether `path` names an entry file.
pub fn is_desktop_file(path: &str) -> (b: bool)
    ensures
        b == names_entry_file(path@),
{
    match extension(path) {
        Some(ext) => {
            let cs = chars_of(ext.as_str());
            assert(cs@.subrange(0, cs@.len() as int) =~= cs@);
            range_is_ignoring_case(&cs, 0, cs.len(), "desktop")
        },
        None => false,
    }
}

/// A file that a walk came by: the root that was walked, and the path of the
/// file.
pub struct Found {
    pub root: String,
    pub path: String,
}

/// What a [`Found`] holds.
pub struct FoundView {
    pub root: Seq<char>,
    pub path: Seq<char>,
}

impl View for Found {
    type V = FoundView;

    open spec fn view(&self) -> FoundView {
        FoundView { root: self.root@, path: self.path@ }
    }
}

/// Those of the first `n` files walked that are entry files, in the order of
/// the walk.
pub open spec fn entry_files(walked: Seq<FoundView>, n: int) -> Seq<FoundView>
    decreases n,
{
    if n <= 0 {
        Seq::empty()
    } else if names_entry_file(walked[n - 1].path) {
        entry_files(walked, n - 1).push(walked[n - 1])
    } else {
        entry_files(walked, n - 1)
    }
}

/// The entry files that a scan returns: all that were walked, or the first
/// `limit` of them.
pub open spec fn scanned_files(walked: Seq<FoundView>, limit: Option<usize>) -> Seq<FoundView> {
    match limit {
        Some(l) => prefix(entry_files(walked, walked.len() as int), l as int),
        None => entry_files(walked, walked.len() as int),
    }
}

/// The entry files among the files of a walk: how many there are, and the
/// first `limit` of them (all, without a limit).
pub fn scan_desktop_paths(walked: &Vec<Found>, limit: Option<usize>) -> (r: (usize, Vec<Found>))
    ensures
        r.0 == entry_files(seq_view(walked@), walked.len() as int).len(),
        seq_view(r.1@) == scanned_files(seq_view(walked@), limit),
{
    let ghost wv = seq_view(walked@);
    let mut found_count: usize = 0;
    let mut paths: Vec<Found> = Vec::new();
    let mut i: usize = 0;
    assert(seq_view(paths@) =~= scanned_files(wv.take(0), limit));
    while i < walked.len()
        invariant
            i <= walked.len(),
            wv == seq_view(walked@),
            found_count == entry_files(wv, i as int).len(),
            found_count <= i,
            seq_view(paths@) == (match limit {
                Some(l) => prefix(entry_files(wv, i as int), l as int),
                None => entry_files(wv, i as int),
            }),
        decreases walked.len() - i,
    {
        assert(wv[i as int] == walked@[i as int]@);
        if is_desktop_file(walked[i].path.as_str()) {
            let ghost so_far = entry_files(wv, i as int);
            let room = match limit {
                Some(l) => paths.len() < l,
                None => true,
            };
            if room {
                let f = Found {
                    root: clone_string(&walked[i].root),
                    path: clone_string(&walked[i].path),
                };
                proof {
                    lemma_seq_view_push(paths@, f);
                    assert(f@ == wv[i as int]);
                    if limit is Some {
                        assert(prefix(so_far.push(f@), limit->0 as int) =~= prefix(
                            so_far,
                            limit->0 as int,
                        ).push(f@));
                    }
                }
                paths.push(f);
            } else {
                assert(prefix(so_far.push(wv[i as int]), limit->0 as int) =~= prefix(
                    so_far,
                    limit->0 as int,
                ));
            }
            found_count += 1;
        }
        i += 1;
    }
    (found_count, paths)
}

/// The result of a scan of `scan_roots`, given the files that the walk of
/// those roots came by.
pub fn scan_desktop_files(scan_roots: &[String], walked: &Vec<Found>, limit: Option<usize>) -> (r:
    ScanResult)
    ensures
        seq_view(r.scanned_roots@) == seq_view(scan_roots@),
        r.found_count == entry_files(seq_view(walked@), walked.len() as int).len(),
        seq_view(r.files@) == scanned_files(seq_view(walked@), limit).map_values(
            |f: FoundView| f.path,
        ),
{
    let (found_count, paths) = scan_desktop_paths(walked, limit);
    let mut files: Vec<String> = Vec::new();
    let mut i: usize = 0;
    while i < paths.len()
        invariant
            i <= paths.len(),
            files.len() == i,
            forall|k: int| 0 <= k < i ==> (#[trigger] files@[k])@ == paths@[k].path@,
        decreases paths.len() - i,
    {
        files.push(clone_string(&paths[i].path));
        i += 1;
    }
    assert(seq_view(files@) =~= seq_view(paths@).map_values(|f: FoundView| f.path));
    let mut roots: Vec<String> = Vec::new();
    let mut k: usize = 0;
    while k < scan_roots.len()
        invariant
            k <= scan_roots.len(),
            roots.len() == k,
            forall|j: int| 0 <= j < k ==> (#[trigger] roots@[j])@ == scan_roots@[j]@,
        decreases scan_roots.len() - k,
    {
        roots.push(clone_string(&scan_roots[k]));
        k += 1;
    }
    assert(seq_view(roots@) =~= seq_view(scan_roots@));
    ScanResult { scanned_roots: roots, found_count, files }
}

// ---------------------------------------------------------------------------
// What holds of every id
// ---------------------------------------------------------------------------

/// ID determinism, for files: the entry file `a/b/c.desktop` below its root
/// has the id `a-b-c`, whatever `a`, `b` and `c` are, as long as they hold no
/// `/`.
pub proof fn lemma_id_of_nested_file(a: Seq<char>, b: Seq<char>, c: Seq<char>)
    requires
        !a.contains('/'),
        !b.contains('/'),
        !c.contains('/'),
    ensures
        id_of_relative(a + seq!['/'] + b + seq!['/'] + c + ".desktop"@) == a + seq!['-'] + b
            + seq!['-'] + c,
{
    let stem = a + seq!['/'] + b + seq!['/'] + c;
    let rel = stem + ".desktop"@;
    assert(rel.subrange(rel.len() - ".desktop"@.len(), rel.len() as int) =~= ".desktop"@);
    assert(rel.take(rel.len() - ".desktop"@.len()) =~= stem);
    let want = a + seq!['-'] + b + seq!['-'] + c;
    assert forall|k: int| 0 <= k < stem.len() implies dashed(stem)[k] == want[k] by {
        if k < a.len() {
            assert(a.contains(stem[k]));
        } else if k == a.len() {
        } else if k < a.len() + 1 + b.len() {
            assert(stem[k] == b[k - a.len() - 1]);
            assert(b.contains(stem[k]));
        } else if k == a.len() + 1 + b.len() {
        } else {
            assert(stem[k] == c[k - a.len() - b.len() - 2]);
            assert(c.contains(stem[k]));
        }
    }
    assert(dashed(stem) =~= want);
}

/// An id that was normalized does not end with `.desktop`.
pub proof fn lemma_normal_id_has_no_suffix(id: Seq<char>)
    ensures
        ".desktop"@.len() > 0 ==> !ends_with(normal_id(id), ".desktop"@),
    decreases id.len(),
{
    if ".desktop"@.len() > 0 && ends_with(id, ".desktop"@) {
        lemma_normal_id_has_no_suffix(id.take(id.len() - ".desktop"@.len()));
    }
}

/// ID determinism, at interfaces: to strip `.desktop` from an id that was
/// stripped changes nothing.
pub proof fn lemma_normal_id_idempotent(id: Seq<char>)
    ensures
        normal_id(normal_id(id)) == normal_id(id),
{
    lemma_normal_id_has_no_suffix(id);
}

} // verus!
