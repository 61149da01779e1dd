use desktop_indexer::empty_query::EmptyQueryMode;
use desktop_indexer::frequency::Usage;
use desktop_indexer::models::{DesktopEntryIndexed, DesktopEntryOut};
use desktop_indexer::search::{
    find_boundary_match, norm_has_token_prefix, normalize_query, recency_bonus, score_entry,
    search_entries_at, search_entries_with_usage_map_and_empty_mode,
};
use desktop_indexer::strmap::StrMap;

fn entry(id: &str, name: Option<&str>) -> DesktopEntryIndexed {
    let mut out = DesktopEntryOut::with_id(id.to_string());
    out.name = name.map(|n| n.to_string());
    DesktopEntryIndexed::new(out)
}

fn ids(found: &[DesktopEntryOut]) -> Vec<String> {
    found.iter().map(|e| e.id.clone()).collect()
}

fn names(found: &[DesktopEntryOut]) -> Vec<String> {
    found.iter().map(|e| e.name.clone().unwrap_or_default()).collect()
}

fn tokens(words: &[&str]) -> Vec<String> {
    words.iter().map(|w| w.to_string()).collect()
}

#[test]
fn tokens_of_equal_length_come_in_dictionary_order() {
    assert_eq!(normalize_query("  Foo, bar!! "), vec!["bar".to_string(), "foo".to_string()]);
}

#[test]
fn longer_tokens_come_first() {
    assert_eq!(normalize_query("a bbb cc"), tokens(&["bbb", "cc", "a"]));
}

#[test]
fn repeated_tokens_are_kept_once() {
    assert_eq!(normalize_query("foo bar foo FOO"), tokens(&["bar", "foo"]));
}

#[test]
fn tokens_are_lowercased_beyond_ascii() {
    assert_eq!(normalize_query("ÄRGER"), tokens(&["ärger"]));
}

#[test]
fn a_query_of_separators_has_no_tokens() {
    assert!(normalize_query("  --- !!! ").is_empty());
    assert!(normalize_query("").is_empty());
}

#[test]
fn digits_are_part_of_tokens() {
    assert_eq!(normalize_query("gtk4-demo"), tokens(&["demo", "gtk4"]));
}

#[test]
fn token_at_start_or_after_space_matches() {
    assert!(norm_has_token_prefix("foo bar", "foo"));
    assert!(norm_has_token_prefix("foo bar", "bar"));
    assert!(norm_has_token_prefix("foo bar", "ba"));
}

#[test]
fn token_inside_a_word_does_not_match() {
    assert!(!norm_has_token_prefix("foobar", "bar"));
    assert!(!norm_has_token_prefix("foo-bar", "bar"));
    assert!(!norm_has_token_prefix("foo", "foox"));
}

#[test]
fn empty_token_always_matches() {
    assert!(norm_has_token_prefix("anything", ""));
    assert!(norm_has_token_prefix("", ""));
}

#[test]
fn later_boundary_match_is_found_after_an_inner_one() {
    assert!(norm_has_token_prefix("xbar bar", "bar"));
    assert_eq!(find_boundary_match("xbar bar", "bar", &[b' ']), Some(5));
}

#[test]
fn boundary_match_respects_the_given_marks() {
    assert_eq!(find_boundary_match("org.gnome.Nautilus", "gnome", &[b'-', b'_', b'.']), Some(4));
    assert_eq!(find_boundary_match("org.gnome.Nautilus", "gnome", &[b' ']), None);
    assert_eq!(find_boundary_match("my_app-name", "name", &[b'-', b'_', b'.']), Some(7));
    assert_eq!(find_boundary_match("abc", "", &[b' ']), Some(0));
}

#[test]
fn boundary_offsets_are_counted_in_bytes() {
    assert_eq!(find_boundary_match("é bar", "bar", &[b' ']), Some(3));
}

#[test]
fn recency_bonus_steps() {
    let now = 10_000_000u64;
    assert_eq!(recency_bonus(now, now), 10);
    assert_eq!(recency_bonus(now - 3599, now), 10);
    assert_eq!(recency_bonus(now - 3600, now), 7);
    assert_eq!(recency_bonus(now - 86_399, now), 7);
    assert_eq!(recency_bonus(now - 86_400, now), 4);
    assert_eq!(recency_bonus(now - 604_799, now), 4);
    assert_eq!(recency_bonus(now - 604_800, now), 2);
    assert_eq!(recency_bonus(now - 2_591_999, now), 2);
    assert_eq!(recency_bonus(now - 2_592_000, now), 0);
}

#[test]
fn recency_bonus_without_known_times_is_zero() {
    assert_eq!(recency_bonus(0, 1000), 0);
    assert_eq!(recency_bonus(1000, 0), 0);
}

#[test]
fn recency_bonus_of_a_launch_in_the_future() {
    assert_eq!(recency_bonus(2000, 1000), 10);
}

#[test]
fn score_of_a_name_match_at_the_start() {
    let e = entry("browser-lite", Some("Browser Lite"));
    let score = score_entry(&e, &tokens(&["browser"]), Usage::default(), 0);
    assert_eq!(score, 140 + 120 + (30 - 12) + 0 + 0 + 10);
}

#[test]
fn score_of_a_later_boundary_match() {
    let e = entry("zen", Some("Zen Browser"));
    let score = score_entry(&e, &tokens(&["browser"]), Usage::default(), 0);
    assert_eq!(score, (140 - 4) + 120 + (30 - 11) + 10);
}

#[test]
fn score_of_an_inner_match_in_the_name() {
    let e = entry("x", Some("Webbrowser"));
    let score = score_entry(&e, &tokens(&["browser"]), Usage::default(), 0);
    assert_eq!(score, (80 - 3) + 0 + (30 - 10) + 10);
}

#[test]
fn score_from_the_id_alone() {
    let e = entry("org.gnome.Nautilus", None);
    assert_eq!(score_entry(&e, &tokens(&["gnome"]), Usage::default(), 0), (110 - 4) + 10);
    assert_eq!(score_entry(&e, &tokens(&["nome"]), Usage::default(), 0), (60 - 5) + 10);
    assert_eq!(score_entry(&e, &tokens(&["zzz"]), Usage::default(), 0), 10);
}

#[test]
fn score_caps_the_offset_at_eighty() {
    let long = format!("{} browser", "x".repeat(100));
    let e = entry("x", Some(&long));
    let score = score_entry(&e, &tokens(&["browser"]), Usage::default(), 0);
    assert_eq!(score, (140 - 80) + 120 + 0 + 10);
}

#[test]
fn score_takes_the_better_of_name_and_id() {
    let e = entry("browser", Some("The Web Browser"));
    let score = score_entry(&e, &tokens(&["browser"]), Usage::default(), 0);
    assert_eq!(score, (140 - 8) + 120 + (30 - 15) + 10);
}

#[test]
fn score_adds_up_over_tokens() {
    let e = entry("text-editor", Some("Text Editor"));
    let score = score_entry(&e, &tokens(&["editor", "text"]), Usage::default(), 0);
    assert_eq!(score, (140 - 5) + 140 + 120 + (30 - 11) + 10);
}

#[test]
fn score_counts_usage_up_to_twenty_launches() {
    let e = entry("a", Some("A"));
    let base = score_entry(&e, &tokens(&["a"]), Usage::default(), 0);
    let five = score_entry(&e, &tokens(&["a"]), Usage { freq: 5, last_used: 0 }, 0);
    let twenty = score_entry(&e, &tokens(&["a"]), Usage { freq: 20, last_used: 0 }, 0);
    let many = score_entry(&e, &tokens(&["a"]), Usage { freq: 1000, last_used: 0 }, 0);
    assert_eq!(five, base + 10);
    assert_eq!(twenty, base + 40);
    assert_eq!(many, base + 40);
}

#[test]
fn score_counts_recency() {
    let e = entry("a", Some("A"));
    let base = score_entry(&e, &tokens(&["a"]), Usage::default(), 5000);
    let recent = score_entry(&e, &tokens(&["a"]), Usage { freq: 0, last_used: 4000 }, 5000);
    assert_eq!(recent, base + 10);
}

#[test]
fn score_never_falls_with_more_launches() {
    let e = entry("app", Some("App"));
    let mut last = 0;
    for freq in 0..30u32 {
        let s = score_entry(&e, &tokens(&["app"]), Usage { freq, last_used: 0 }, 0);
        assert!(s >= last);
        last = s;
    }
}

#[test]
fn browsers_are_ranked_by_where_the_word_stands() {
    let entries = vec![
        entry("zen", Some("Zen Browser")),
        entry("avahi", Some("Avahi SSH Server Browser")),
        entry("lite", Some("Browser Lite")),
    ];
    let usage: StrMap<Usage> = StrMap::new();
    let found = search_entries_at(&entries, "browser", 3, &usage, EmptyQueryMode::Recency, 0);
    assert_eq!(
        names(&found),
        vec!["Browser Lite".to_string(), "Zen Browser".to_string(), "Avahi SSH Server Browser".to_string()]
    );
}

#[test]
fn search_returns_only_entries_that_hold_every_token() {
    let entries = vec![
        entry("a", Some("Text Editor")),
        entry("b", Some("Text Viewer")),
        entry("c", Some("Hex Editor")),
        entry("d", Some("Context Editor")),
    ];
    let usage: StrMap<Usage> = StrMap::new();
    let found = search_entries_at(&entries, "text editor", 10, &usage, EmptyQueryMode::Recency, 0);
    assert_eq!(ids(&found), vec!["a".to_string()]);
    for e in &found {
        let indexed = DesktopEntryIndexed::new(e.clone());
        for t in normalize_query("text editor") {
            assert!(norm_has_token_prefix(&indexed.norm, &t));
        }
    }
}

#[test]
fn search_keeps_the_best_up_to_the_limit() {
    let entries = vec![
        entry("one", Some("Some Mail Tool")),
        entry("two", Some("Mail")),
        entry("three", Some("My Mail")),
        entry("four", Some("Other")),
    ];
    let usage: StrMap<Usage> = StrMap::new();
    let all = search_entries_at(&entries, "mail", 10, &usage, EmptyQueryMode::Recency, 0);
    assert_eq!(ids(&all), vec!["two".to_string(), "three".to_string(), "one".to_string()]);
    let two = search_entries_at(&entries, "mail", 2, &usage, EmptyQueryMode::Recency, 0);
    assert_eq!(ids(&two), vec!["two".to_string(), "three".to_string()]);
}

#[test]
fn search_selection_is_what_sorting_all_scores_gives() {
    let names_in = ["Mail", "Mail Box", "Web Mail", "Mailer", "The Mail App", "Notes", "X Mail"];
    let entries: Vec<DesktopEntryIndexed> =
        names_in.iter().enumerate().map(|(i, n)| entry(&format!("id{i}"), Some(n))).collect();
    let usage: StrMap<Usage> = StrMap::new();
    let toks = normalize_query("mail");
    let mut scored: Vec<(i32, usize)> = entries
        .iter()
        .enumerate()
        .filter(|(_, e)| toks.iter().all(|t| norm_has_token_prefix(&e.norm, t)))
        .map(|(i, e)| (score_entry(e, &toks, Usage::default(), 0), i))
        .collect();
    scored.sort_by(|a, b| b.cmp(a));
    for limit in 1..8usize {
        let found = search_entries_at(&entries, "mail", limit, &usage, EmptyQueryMode::Recency, 0);
        let want: Vec<String> =
            scored.iter().take(limit).map(|(_, i)| entries[*i].out.id.clone()).collect();
        assert_eq!(ids(&found), want);
    }
}

#[test]
fn equal_scores_put_the_later_entry_first() {
    let entries = vec![entry("a", Some("Same")), entry("b", Some("Same"))];
    let usage: StrMap<Usage> = StrMap::new();
    let found = search_entries_at(&entries, "same", 1, &usage, EmptyQueryMode::Recency, 0);
    assert_eq!(ids(&found), vec!["b".to_string()]);
}

#[test]
fn usage_lifts_an_entry_among_equal_matches() {
    let entries = vec![entry("a", Some("Term One")), entry("b", Some("Term Two"))];
    let mut usage: StrMap<Usage> = StrMap::new();
    usage.insert("a".to_string(), Usage { freq: 3, last_used: 0 });
    let found = search_entries_at(&entries, "term", 2, &usage, EmptyQueryMode::Recency, 0);
    assert_eq!(ids(&found), vec!["a".to_string(), "b".to_string()]);
}

#[test]
fn limit_zero_returns_nothing() {
    let entries = vec![entry("a", Some("A"))];
    let mut usage: StrMap<Usage> = StrMap::new();
    usage.insert("a".to_string(), Usage { freq: 1, last_used: 100 });
    assert!(search_entries_at(&entries, "a", 0, &usage, EmptyQueryMode::Recency, 0).is_empty());
    assert!(search_entries_at(&entries, "", 0, &usage, EmptyQueryMode::Recency, 0).is_empty());
    assert!(
        search_entries_with_usage_map_and_empty_mode(&entries, "a", 0, &usage, EmptyQueryMode::Frequency)
            .is_empty()
    );
}

#[test]
fn empty_query_lists_by_recency() {
    let entries = vec![entry("c", None), entry("b", None), entry("a", None)];
    let mut usage: StrMap<Usage> = StrMap::new();
    usage.insert("a".to_string(), Usage { freq: 1, last_used: 100 });
    usage.insert("b".to_string(), Usage { freq: 5, last_used: 50 });
    usage.insert("c".to_string(), Usage { freq: 0, last_used: 0 });
    let found =
        search_entries_with_usage_map_and_empty_mode(&entries, "", 10, &usage, EmptyQueryMode::Recency);
    assert_eq!(ids(&found), vec!["a".to_string(), "b".to_string()]);
}

#[test]
fn empty_query_lists_by_frequency() {
    let entries = vec![entry("a", None), entry("b", None), entry("c", None), entry("d", None)];
    let mut usage: StrMap<Usage> = StrMap::new();
    usage.insert("a".to_string(), Usage { freq: 1, last_used: 100 });
    usage.insert("b".to_string(), Usage { freq: 5, last_used: 50 });
    usage.insert("c".to_string(), Usage { freq: 0, last_used: 70 });
    let found =
        search_entries_with_usage_map_and_empty_mode(&entries, "  ", 10, &usage, EmptyQueryMode::Frequency);
    assert_eq!(ids(&found), vec!["b".to_string(), "a".to_string()]);
}

#[test]
fn empty_query_breaks_ties_by_the_other_signal_then_name_then_id() {
    let entries = vec![
        entry("z", Some("Same")),
        entry("y", Some("Same")),
        entry("x", Some("Alpha")),
        entry("w", Some("Beta")),
        entry("v", None),
    ];
    let mut usage: StrMap<Usage> = StrMap::new();
    usage.insert("z".to_string(), Usage { freq: 2, last_used: 10 });
    usage.insert("y".to_string(), Usage { freq: 2, last_used: 10 });
    usage.insert("x".to_string(), Usage { freq: 2, last_used: 10 });
    usage.insert("w".to_string(), Usage { freq: 3, last_used: 10 });
    usage.insert("v".to_string(), Usage { freq: 2, last_used: 10 });
    let found =
        search_entries_with_usage_map_and_empty_mode(&entries, "", 10, &usage, EmptyQueryMode::Recency);
    assert_eq!(
        ids(&found),
        vec!["w".to_string(), "v".to_string(), "x".to_string(), "y".to_string(), "z".to_string()]
    );
}

#[test]
fn empty_query_respects_the_limit() {
    let entries = vec![entry("a", None), entry("b", None), entry("c", None)];
    let mut usage: StrMap<Usage> = StrMap::new();
    usage.insert("a".to_string(), Usage { freq: 1, last_used: 1 });
    usage.insert("b".to_string(), Usage { freq: 1, last_used: 3 });
    usage.insert("c".to_string(), Usage { freq: 1, last_used: 2 });
    let found =
        search_entries_with_usage_map_and_empty_mode(&entries, "", 2, &usage, EmptyQueryMode::Recency);
    assert_eq!(ids(&found), vec!["b".to_string(), "c".to_string()]);
}

#[test]
fn empty_query_is_the_same_each_time() {
    let entries = vec![entry("a", Some("A")), entry("b", Some("B")), entry("c", Some("C"))];
    let mut usage: StrMap<Usage> = StrMap::new();
    usage.insert("a".to_string(), Usage { freq: 4, last_used: 9 });
    usage.insert("b".to_string(), Usage { freq: 4, last_used: 9 });
    usage.insert("c".to_string(), Usage { freq: 7, last_used: 1 });
    for mode in [EmptyQueryMode::Recency, EmptyQueryMode::Frequency] {
        let first = ids(&search_entries_with_usage_map_and_empty_mode(&entries, "", 5, &usage, mode));
        let second = ids(&search_entries_with_usage_map_and_empty_mode(&entries, "", 5, &usage, mode));
        assert_eq!(first, second);
        assert_eq!(first.len(), 3);
    }
}

#[test]
fn entries_without_a_usage_row_are_not_listed() {
    let entries = vec![entry("a", None), entry("b", None)];
    let usage: StrMap<Usage> = StrMap::new();
    let found =
        search_entries_with_usage_map_and_empty_mode(&entries, "", 10, &usage, EmptyQueryMode::Recency);
    assert!(found.is_empty());
}

#[test]
fn search_matches_what_the_haystack_holds() {
    let mut out = DesktopEntryOut::with_id("app".to_string());
    out.name = Some("Files".to_string());
    out.keywords = vec!["folder".to_string(), "Manager".to_string()];
    out.comment = Some("Browse the file system".to_string());
    let entries = vec![DesktopEntryIndexed::new(out)];
    let usage: StrMap<Usage> = StrMap::new();
    for q in ["manager", "folder", "browse", "system", "files"] {
        let found = search_entries_at(&entries, q, 5, &usage, EmptyQueryMode::Recency, 0);
        assert_eq!(ids(&found), vec!["app".to_string()]);
    }
    assert!(search_entries_at(&entries, "anager", 5, &usage, EmptyQueryMode::Recency, 0).is_empty());
}

#[test]
fn score_never_falls_as_the_last_launch_comes_closer() {
    let e = entry("app", Some("App"));
    let now = 100_000_000u64;
    let mut last = 0;
    for age in [40_000_000u64, 2_592_000, 2_591_999, 604_800, 604_799, 86_400, 86_399, 3_600, 3_599, 1, 0] {
        let s = score_entry(&e, &tokens(&["app"]), Usage { freq: 3, last_used: now - age }, now);
        assert!(s >= last);
        last = s;
    }
    let never = score_entry(&e, &tokens(&["app"]), Usage { freq: 3, last_used: 0 }, now);
    assert_eq!(last, never + 10);
}

#[test]
fn search_at_the_present_time_finds_the_same_entries() {
    let entries = vec![entry("a", Some("Calc")), entry("b", Some("Calendar")), entry("c", Some("Mail"))];
    let usage: StrMap<Usage> = StrMap::new();
    let found = search_entries_with_usage_map_and_empty_mode(&entries, "cal", 5, &usage, EmptyQueryMode::Recency);
    assert_eq!(ids(&found), vec!["a".to_string(), "b".to_string()]);
}

#[test]
fn score_counts_name_length_and_offsets_in_bytes() {
    let e = entry("x", Some("École"));
    assert_eq!(e.name_lc.as_deref(), Some("école"));
    let score = score_entry(&e, &tokens(&["école"]), Usage::default(), 0);
    assert_eq!(score, 140 + 120 + (30 - 6) + 10);
    let e = entry("x", Some("Él Bar"));
    let score = score_entry(&e, &tokens(&["bar"]), Usage::default(), 0);
    assert_eq!(score, (140 - 4) + 120 + (30 - 7) + 10);
}

#[test]
fn underscore_and_dash_separate_tokens() {
    assert_eq!(normalize_query("foo_bar-baz.qux"), tokens(&["bar", "baz", "foo", "qux"]));
}

#[test]
fn several_spaces_are_boundaries_too() {
    assert!(norm_has_token_prefix("a  b", "b"));
    assert!(norm_has_token_prefix(" b", "b"));
    assert!(!norm_has_token_prefix("a\tb", "b"));
}
