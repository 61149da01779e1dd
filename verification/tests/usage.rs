use desktop_indexer::frequency::{
    frequency_path, lookup_usage, unix_seconds_now, FrequencyStore, Usage, FREQ_VERSION,
};
use desktop_indexer::strmap::StrMap;

#[test]
fn unknown_application_has_no_usage() {
    let store = FrequencyStore::new();
    assert_eq!(store.get("firefox"), Usage { freq: 0, last_used: 0 });
    assert_eq!(Usage::default(), Usage { freq: 0, last_used: 0 });
    assert!(!store.is_dirty());
}

#[test]
fn launch_counts_and_stamps() {
    let mut store = FrequencyStore::new();
    assert_eq!(store.increment_at("firefox", 1000), 1);
    assert_eq!(store.increment_at("firefox", 2000), 2);
    assert_eq!(store.increment_at("gimp", 1500), 1);
    assert_eq!(store.get("firefox"), Usage { freq: 2, last_used: 2000 });
    assert_eq!(store.get("gimp"), Usage { freq: 1, last_used: 1500 });
    assert_eq!(store.get("other"), Usage::default());
    assert!(store.is_dirty());
    assert_eq!(store.map().len(), 2);
}

#[test]
fn launch_count_stops_at_its_limit() {
    let mut store = FrequencyStore::from_file(FREQ_VERSION, vec![("a".to_string(), Usage { freq: u32::MAX - 1, last_used: 5 })]);
    assert_eq!(store.increment_at("a", 6), u32::MAX);
    assert_eq!(store.increment_at("a", 7), u32::MAX);
    assert_eq!(store.get("a"), Usage { freq: u32::MAX, last_used: 7 });
}

#[test]
fn launch_now_uses_the_clock() {
    let before = unix_seconds_now();
    let mut store = FrequencyStore::new();
    assert_eq!(store.increment("app"), 1);
    let after = unix_seconds_now();
    let u = store.get("app");
    assert_eq!(u.freq, 1);
    assert!(before <= u.last_used && u.last_used <= after);
    assert!(before > 1_600_000_000);
    assert!(store.is_dirty());
}

#[test]
fn usage_file_of_another_version_counts_as_empty() {
    let rows = vec![("a".to_string(), Usage { freq: 3, last_used: 9 })];
    let same = FrequencyStore::from_file(FREQ_VERSION, rows.clone());
    assert_eq!(same.get("a"), Usage { freq: 3, last_used: 9 });
    assert!(!same.is_dirty());
    let other = FrequencyStore::from_file(FREQ_VERSION + 1, rows);
    assert_eq!(other.get("a"), Usage::default());
    assert_eq!(other.map().len(), 0);
}

#[test]
fn usage_file_with_a_repeated_id_keeps_the_later_row() {
    let rows = vec![
        ("a".to_string(), Usage { freq: 1, last_used: 1 }),
        ("b".to_string(), Usage { freq: 2, last_used: 2 }),
        ("a".to_string(), Usage { freq: 3, last_used: 3 }),
    ];
    let store = FrequencyStore::from_file(FREQ_VERSION, rows);
    assert_eq!(store.get("a"), Usage { freq: 3, last_used: 3 });
    assert_eq!(store.map().len(), 2);
}

#[test]
fn flushing_clears_the_dirty_mark_only() {
    let mut store = FrequencyStore::new();
    store.increment_at("a", 10);
    assert!(store.is_dirty());
    store.mark_flushed();
    assert!(!store.is_dirty());
    assert_eq!(store.get("a"), Usage { freq: 1, last_used: 10 });
    let mut rows: Vec<(String, Usage)> = store.map().rows().iter().map(|(k, v)| (k.clone(), *v)).collect();
    rows.sort_by(|a, b| a.0.cmp(&b.0));
    assert_eq!(rows, vec![("a".to_string(), Usage { freq: 1, last_used: 10 })]);
}

#[test]
fn string_map_inserts_replaces_and_finds() {
    let mut m: StrMap<u32> = StrMap::new();
    assert_eq!(m.len(), 0);
    assert_eq!(m.get("a"), None);
    m.insert("a".to_string(), 1);
    m.insert("b".to_string(), 2);
    m.insert("a".to_string(), 3);
    assert_eq!(m.len(), 2);
    assert_eq!(m.get("a"), Some(&3));
    assert_eq!(m.get("b"), Some(&2));
    assert!(m.contains_key("b"));
    assert!(!m.contains_key("c"));
    assert!(!m.contains_key(""));
}

#[test]
fn usage_is_looked_up_with_a_default() {
    let mut m: StrMap<Usage> = StrMap::new();
    m.insert("a".to_string(), Usage { freq: 4, last_used: 8 });
    assert_eq!(lookup_usage(&m, "a"), Usage { freq: 4, last_used: 8 });
    assert_eq!(lookup_usage(&m, "b"), Usage::default());
}

#[test]
fn usage_file_lies_below_the_data_directory() {
    assert_eq!(
        frequency_path("/home/u/.local/share/desktop-indexer"),
        "/home/u/.local/share/desktop-indexer/frequencies.v2.bin"
    );
    assert_eq!(frequency_path("/data/"), "/data/frequencies.v2.bin");
}
