use desktop_indexer::cache::{
    assemble_index, cache_file_name, cache_file_path, cached_entry, is_fresh, roots_hash,
    select_candidates, CacheIndex, CachedEntry, Fetched, FileMeta, CACHE_VERSION,
};
use desktop_indexer::desktop::Found;
use desktop_indexer::models::{DesktopEntryIndexed, DesktopEntryOut};

fn strings(words: &[&str]) -> Vec<String> {
    words.iter().map(|w| w.to_string()).collect()
}

fn entry(id: &str, name: &str) -> DesktopEntryIndexed {
    let mut out = DesktopEntryOut::with_id(id.to_string());
    out.name = Some(name.to_string());
    DesktopEntryIndexed::new(out)
}

fn record(path: &str, id: &str, name: &str, size: u64, mtime_sec: u64) -> CachedEntry {
    cached_entry(path, entry(id, name), size, mtime_sec)
}

fn fetched(path: &str, id: &str, meta: Option<(u64, u64)>, data: Option<&str>) -> Fetched {
    Fetched {
        path: path.to_string(),
        id: id.to_string(),
        meta: meta.map(|(size, mtime_sec)| FileMeta { size, mtime_sec }),
        data: data.map(|d| d.to_string()),
    }
}

#[test]
fn record_is_fresh_only_if_size_and_time_both_stand() {
    let c = record("/r/a.desktop", "a", "A", 120, 1700);
    assert!(is_fresh(&c, 120, 1700));
    assert!(!is_fresh(&c, 121, 1700));
    assert!(!is_fresh(&c, 120, 1701));
    assert!(!is_fresh(&c, 0, 0));
}

#[test]
fn cached_entry_keeps_what_it_is_given() {
    let c = cached_entry("/r/a.desktop", entry("a", "A"), 5, 6);
    assert_eq!(c.path, "/r/a.desktop");
    assert_eq!(c.size, 5);
    assert_eq!(c.mtime_sec, 6);
    assert_eq!(c.entry, entry("a", "A"));
}

#[test]
fn empty_cache_has_no_records() {
    let c = CacheIndex::empty();
    assert_eq!(c.by_path.len(), 0);
    assert!(!c.needs_save);
    assert!(c.needs_parse("/r/a.desktop", Some(FileMeta { size: 1, mtime_sec: 1 })));
}

#[test]
fn cache_file_is_used_only_for_its_version_and_roots() {
    let roots = strings(&["/r", "/s"]);
    let records = vec![record("/r/a.desktop", "a", "A", 1, 2), record("/s/b.desktop", "b", "B", 3, 4)];
    let good = CacheIndex::from_file(CACHE_VERSION, &roots, &records, &roots);
    assert_eq!(good.by_path.len(), 2);
    assert_eq!(good.by_path.get("/s/b.desktop"), Some(&records[1]));
    let old = CacheIndex::from_file(CACHE_VERSION - 1, &roots, &records, &roots);
    assert_eq!(old.by_path.len(), 0);
    let swapped = CacheIndex::from_file(CACHE_VERSION, &roots, &records, &strings(&["/s", "/r"]));
    assert_eq!(swapped.by_path.len(), 0);
    let fewer = CacheIndex::from_file(CACHE_VERSION, &roots, &records, &strings(&["/r"]));
    assert_eq!(fewer.by_path.len(), 0);
}

#[test]
fn later_record_of_a_path_replaces_the_earlier() {
    let roots = strings(&["/r"]);
    let records = vec![record("/r/a.desktop", "a", "Old", 1, 2), record("/r/a.desktop", "a", "New", 3, 4)];
    let c = CacheIndex::from_file(CACHE_VERSION, &roots, &records, &roots);
    assert_eq!(c.by_path.len(), 1);
    assert_eq!(c.by_path.get("/r/a.desktop").unwrap().entry.out.name.as_deref(), Some("New"));
}

#[test]
fn changed_size_or_time_asks_for_a_parse() {
    let roots = strings(&["/r"]);
    let records = vec![record("/r/a.desktop", "a", "A", 10, 20)];
    let c = CacheIndex::from_file(CACHE_VERSION, &roots, &records, &roots);
    assert!(!c.needs_parse("/r/a.desktop", Some(FileMeta { size: 10, mtime_sec: 20 })));
    assert!(c.needs_parse("/r/a.desktop", Some(FileMeta { size: 11, mtime_sec: 20 })));
    assert!(c.needs_parse("/r/a.desktop", Some(FileMeta { size: 10, mtime_sec: 21 })));
    assert!(c.needs_parse("/r/a.desktop", None));
    assert!(c.needs_parse("/r/other.desktop", Some(FileMeta { size: 10, mtime_sec: 20 })));
    assert_eq!(c.fresh_record("/r/a.desktop", Some(FileMeta { size: 10, mtime_sec: 20 })), Some(&records[0]));
    assert_eq!(c.fresh_record("/r/a.desktop", Some(FileMeta { size: 9, mtime_sec: 20 })), None);
}

#[test]
fn first_file_with_an_id_wins() {
    let found = vec![
        Found { root: "/home/u/apps".to_string(), path: "/home/u/apps/vlc.desktop".to_string() },
        Found { root: "/usr/share/applications".to_string(), path: "/usr/share/applications/vlc.desktop".to_string() },
        Found { root: "/usr/share/applications".to_string(), path: "/usr/share/applications/kde/vlc.desktop".to_string() },
        Found { root: "/usr/share/applications".to_string(), path: "/usr/share/applications/gimp.desktop".to_string() },
    ];
    let picked = select_candidates(&found);
    let got: Vec<(String, String)> = picked.iter().map(|c| (c.id.clone(), c.path.clone())).collect();
    assert_eq!(
        got,
        vec![
            ("vlc".to_string(), "/home/u/apps/vlc.desktop".to_string()),
            ("kde-vlc".to_string(), "/usr/share/applications/kde/vlc.desktop".to_string()),
            ("gimp".to_string(), "/usr/share/applications/gimp.desktop".to_string()),
        ]
    );
}

#[test]
fn second_scan_of_unchanged_files_writes_nothing() {
    let roots = strings(&["/r"]);
    let files = vec![
        fetched("/r/a.desktop", "a", Some((10, 100)), Some("[Desktop Entry]\nName=A\n")),
        fetched("/r/b.desktop", "b", Some((20, 200)), Some("[Desktop Entry]\nName=B\n")),
    ];
    let first = assemble_index(&roots, 2, &files, &CacheIndex::empty(), true, &[]);
    assert!(first.save);
    assert_eq!(first.cache.len(), 2);
    assert_eq!(first.result.parsed_count, 2);

    let loaded = CacheIndex::from_file(CACHE_VERSION, &roots, &first.cache, &roots);
    let again = vec![
        fetched("/r/a.desktop", "a", Some((10, 100)), None),
        fetched("/r/b.desktop", "b", Some((20, 200)), None),
    ];
    let second = assemble_index(&roots, 2, &again, &loaded, true, &[]);
    assert!(!second.save);
    assert_eq!(second.cache, first.cache);
    assert_eq!(second.result.entries, first.result.entries);
    assert_eq!(second.result.parse_failed, 0);
    assert_eq!(second.result.parsed_count, 2);
}

#[test]
fn records_come_back_from_the_cache_as_they_went_in() {
    let roots = strings(&["/r"]);
    let records = vec![record("/r/a.desktop", "a", "Cached Name", 10, 100)];
    let loaded = CacheIndex::from_file(CACHE_VERSION, &roots, &records, &roots);
    let files = vec![fetched("/r/a.desktop", "a", Some((10, 100)), Some("[Desktop Entry]\nName=On Disk\n"))];
    let out = assemble_index(&roots, 1, &files, &loaded, true, &[]);
    assert_eq!(out.result.entries, vec![entry("a", "Cached Name")]);
    assert_eq!(out.cache, records);
    assert!(!out.save);
}

#[test]
fn changed_file_is_parsed_again_and_the_cache_written() {
    let roots = strings(&["/r"]);
    let records = vec![record("/r/a.desktop", "a", "Old", 10, 100), record("/r/b.desktop", "b", "B", 20, 200)];
    let loaded = CacheIndex::from_file(CACHE_VERSION, &roots, &records, &roots);
    for meta in [(11, 100), (10, 101)] {
        let files = vec![
            fetched("/r/a.desktop", "a", Some(meta), Some("[Desktop Entry]\nName=New\n")),
            fetched("/r/b.desktop", "b", Some((20, 200)), None),
        ];
        let out = assemble_index(&roots, 2, &files, &loaded, true, &[]);
        assert!(out.save);
        assert_eq!(out.result.entries, vec![entry("a", "New"), entry("b", "B")]);
        assert_eq!(out.cache[0], record("/r/a.desktop", "a", "New", meta.0, meta.1));
        assert_eq!(out.cache[1], records[1]);
    }
}

#[test]
fn file_without_metadata_is_parsed_but_not_cached() {
    let roots = strings(&["/r"]);
    let records = vec![record("/r/a.desktop", "a", "Old", 10, 100)];
    let loaded = CacheIndex::from_file(CACHE_VERSION, &roots, &records, &roots);
    let files = vec![fetched("/r/a.desktop", "a", None, Some("[Desktop Entry]\nName=Now\n"))];
    let out = assemble_index(&roots, 1, &files, &loaded, true, &[]);
    assert_eq!(out.result.entries, vec![entry("a", "Now")]);
    assert!(out.cache.is_empty());
    assert!(out.save);
}

#[test]
fn unreadable_file_is_counted_and_skipped() {
    let roots = strings(&["/r"]);
    let files = vec![
        fetched("/r/a.desktop", "a", Some((1, 1)), None),
        fetched("/r/b.desktop", "b", Some((2, 2)), Some("[Desktop Entry]\nName=B\n")),
        fetched("/r/c.desktop", "c", None, None),
    ];
    let out = assemble_index(&roots, 7, &files, &CacheIndex::empty(), true, &[]);
    assert_eq!(out.result.parse_failed, 2);
    assert_eq!(out.result.parsed_count, 1);
    assert_eq!(out.result.found_count, 7);
    assert_eq!(out.result.scanned_roots, roots);
    assert_eq!(out.result.entries, vec![entry("b", "B")]);
    assert_eq!(out.cache.len(), 1);
    assert!(out.save);
}

#[test]
fn file_that_left_the_scan_makes_the_cache_change() {
    let roots = strings(&["/r"]);
    let records = vec![record("/r/a.desktop", "a", "A", 10, 100), record("/r/gone.desktop", "gone", "G", 1, 1)];
    let loaded = CacheIndex::from_file(CACHE_VERSION, &roots, &records, &roots);
    let files = vec![fetched("/r/a.desktop", "a", Some((10, 100)), None)];
    let out = assemble_index(&roots, 1, &files, &loaded, true, &[]);
    assert!(out.save);
    assert_eq!(out.cache, vec![record("/r/a.desktop", "a", "A", 10, 100)]);
}

#[test]
fn scan_without_cache_parses_everything_and_writes_nothing() {
    let roots = strings(&["/r"]);
    let records = vec![record("/r/a.desktop", "a", "Cached", 10, 100)];
    let loaded = CacheIndex::from_file(CACHE_VERSION, &roots, &records, &roots);
    let files = vec![fetched("/r/a.desktop", "a", Some((10, 100)), Some("[Desktop Entry]\nName=Parsed\n"))];
    let out = assemble_index(&roots, 1, &files, &loaded, false, &[]);
    assert!(!out.save);
    assert_eq!(out.result.entries, vec![entry("a", "Parsed")]);
}

#[test]
fn scan_parses_for_the_reader_s_locale() {
    let roots = strings(&["/r"]);
    let files = vec![fetched("/r/a.desktop", "a", Some((1, 1)), Some("[Desktop Entry]\nName=Plain\nName[de]=Deutsch\n"))];
    let out = assemble_index(&roots, 1, &files, &CacheIndex::empty(), true, &strings(&["de_DE", "de"]));
    assert_eq!(out.result.entries[0].out.name.as_deref(), Some("Deutsch"));
}

#[test]
fn cache_file_name_holds_hash_and_version() {
    assert_eq!(cache_file_name(255, 3), "index-ff.v3.bin");
    assert_eq!(cache_file_name(0, 0), "index-0.v0.bin");
    assert_eq!(cache_file_name(0xdead_beef_0123_4567, 12), "index-deadbeef01234567.v12.bin");
    assert_eq!(cache_file_name(u64::MAX, u32::MAX), "index-ffffffffffffffff.v4294967295.bin");
    assert_eq!(cache_file_name(16, 10), "index-10.v10.bin");
}

#[test]
fn roots_hash_depends_on_the_roots_and_their_order() {
    let a = roots_hash(&strings(&["/r", "/s"]));
    assert_eq!(a, roots_hash(&strings(&["/r", "/s"])));
    assert_ne!(a, roots_hash(&strings(&["/s", "/r"])));
    assert_ne!(a, roots_hash(&strings(&["/r/s"])));
    assert_ne!(a, roots_hash(&strings(&["/r"])));
    assert_eq!(roots_hash(&[]), 0xcbf29ce484222325);
    assert_eq!(roots_hash(&strings(&[""])), (0xcbf29ce484222325u64 ^ 0xff).wrapping_mul(0x100000001b3));
}

#[test]
fn cache_file_lies_below_the_cache_directory() {
    let roots = strings(&["/usr/share/applications"]);
    let path = cache_file_path(&roots, "/home/u/.cache/desktop-indexer");
    let name = cache_file_name(roots_hash(&roots), CACHE_VERSION);
    assert_eq!(path, format!("/home/u/.cache/desktop-indexer/{name}"));
    assert!(path.ends_with(".v3.bin"));
}
