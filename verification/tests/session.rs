use desktop_indexer::empty_query::EmptyQueryMode;
use desktop_indexer::frequency::Usage;
use desktop_indexer::models::{DesktopEntryIndexed, DesktopEntryOut};
use desktop_indexer::search::{filter_candidates, index_range, normalize_query, search_entries_at};
use desktop_indexer::session::{is_refinement, query_key, tokens_contain_all, IndexState};
use desktop_indexer::strmap::StrMap;

fn strings(words: &[&str]) -> Vec<String> {
    words.iter().map(|w| w.to_string()).collect()
}

fn entry(id: &str, name: &str) -> DesktopEntryIndexed {
    let mut out = DesktopEntryOut::with_id(id.to_string());
    out.name = Some(name.to_string());
    DesktopEntryIndexed::new(out)
}

fn ids(found: &[DesktopEntryOut]) -> Vec<String> {
    found.iter().map(|e| e.id.clone()).collect()
}

fn editors() -> Vec<DesktopEntryIndexed> {
    vec![
        entry("gedit", "Text Editor"),
        entry("kate", "Kate Text Editor Advanced"),
        entry("viewer", "Text Viewer"),
        entry("hex", "Hex Editor"),
        entry("term", "Terminal"),
        entry("context", "Context Menu Editor"),
    ]
}

#[test]
fn query_key_trims_collapses_and_lowercases() {
    assert_eq!(query_key("  Text   Editor "), "text editor");
    assert_eq!(query_key("a\t\n b"), "a b");
    assert_eq!(query_key("ÄB-c"), "äb-c");
    assert_eq!(query_key("   "), "");
    assert_eq!(query_key(""), "");
    assert_eq!(query_key("x"), "x");
}

#[test]
fn all_previous_tokens_must_be_among_the_new() {
    assert!(tokens_contain_all(&strings(&["editor", "text"]), &strings(&["text"])));
    assert!(tokens_contain_all(&strings(&["text"]), &strings(&["text"])));
    assert!(!tokens_contain_all(&strings(&["texts"]), &strings(&["text"])));
    assert!(!tokens_contain_all(&strings(&["text"]), &strings(&["editor", "text"])));
    assert!(!tokens_contain_all(&strings(&["text"]), &[]));
    assert!(!tokens_contain_all(&[], &strings(&["text"])));
}

#[test]
fn refinement_by_more_tokens_longer_token_or_longer_key() {
    assert!(is_refinement(&strings(&["text"]), "text", &strings(&["editor", "text"]), "text editor"));
    assert!(is_refinement(&strings(&["v"]), "v", &strings(&["vs"]), "vs"));
    assert!(is_refinement(&strings(&["bar", "foo"]), "foo bar", &strings(&["bart", "foo"]), "foo bart"));
    assert!(!is_refinement(&strings(&["text"]), "text", &strings(&["tex"]), "tex"));
    assert!(!is_refinement(&strings(&["text"]), "text", &strings(&["editor"]), "editor"));
    assert!(!is_refinement(&[], "", &strings(&["text"]), "text"));
    assert!(is_refinement(&strings(&["text"]), "text", &strings(&["text"]), "text"));
    assert!(!is_refinement(&strings(&["a", "b"]), "", &strings(&["ab"]), "ab"));
    assert!(!is_refinement(&strings(&["fo"]), "fo", &strings(&["f", "o"]), "f o"));
}

#[test]
fn refined_query_returns_what_a_fresh_search_returns() {
    let usage: StrMap<Usage> = StrMap::new();
    let mut session = IndexState::new(editors());
    let first = session.search("text", 10, &usage, EmptyQueryMode::Recency, 0);
    assert_eq!(ids(&first), ids(&search_entries_at(&editors(), "text", 10, &usage, EmptyQueryMode::Recency, 0)));
    let after_text: Vec<usize> = session.last_candidates().clone();
    assert_eq!(after_text, vec![0, 1, 2]);

    let second = session.search("text editor", 10, &usage, EmptyQueryMode::Recency, 0);
    let fresh = search_entries_at(&editors(), "text editor", 10, &usage, EmptyQueryMode::Recency, 0);
    assert_eq!(second, fresh);
    assert_eq!(ids(&second), strings(&["gedit", "kate"]));
    let after_both: Vec<usize> = session.last_candidates().clone();
    assert_eq!(after_both, vec![0, 1]);
    assert!(after_both.iter().all(|i| after_text.contains(i)));

    let mut other = IndexState::new(editors());
    assert_eq!(other.search("text editor", 10, &usage, EmptyQueryMode::Recency, 0), second);
    assert_eq!(other.last_candidates(), session.last_candidates());
}

#[test]
fn typing_on_narrows_the_candidates() {
    let usage: StrMap<Usage> = StrMap::new();
    let mut session = IndexState::new(editors());
    let mut last: Vec<usize> = (0..editors().len()).collect();
    for q in ["t", "te", "tex", "text", "text e", "text ed"] {
        let got = session.search(q, 10, &usage, EmptyQueryMode::Recency, 0);
        let fresh = search_entries_at(&editors(), q, 10, &usage, EmptyQueryMode::Recency, 0);
        assert_eq!(got, fresh);
        let now: Vec<usize> = session.last_candidates().clone();
        assert!(now.iter().all(|i| last.contains(i)));
        last = now;
    }
    assert_eq!(last, vec![0, 1]);
}

#[test]
fn unrelated_query_starts_from_the_whole_index() {
    let usage: StrMap<Usage> = StrMap::new();
    let mut session = IndexState::new(editors());
    session.search("text", 10, &usage, EmptyQueryMode::Recency, 0);
    let got = session.search("hex", 10, &usage, EmptyQueryMode::Recency, 0);
    assert_eq!(ids(&got), strings(&["hex"]));
    assert_eq!(session.last_candidates(), &vec![3]);
    let got = session.search("editor", 10, &usage, EmptyQueryMode::Recency, 0);
    assert_eq!(got, search_entries_at(&editors(), "editor", 10, &usage, EmptyQueryMode::Recency, 0));
    assert_eq!(session.last_candidates(), &vec![0, 1, 3, 5]);
}

#[test]
fn query_without_tokens_clears_the_session() {
    let mut usage: StrMap<Usage> = StrMap::new();
    usage.insert("hex".to_string(), Usage { freq: 2, last_used: 50 });
    let mut session = IndexState::new(editors());
    session.search("text", 10, &usage, EmptyQueryMode::Recency, 0);
    let listed = session.search("  ", 10, &usage, EmptyQueryMode::Recency, 0);
    assert_eq!(ids(&listed), strings(&["hex"]));
    assert!(session.last_candidates().is_empty());
    let got = session.search("text editor", 10, &usage, EmptyQueryMode::Recency, 0);
    assert_eq!(ids(&got), strings(&["gedit", "kate"]));
    assert!(session.search("", 0, &usage, EmptyQueryMode::Recency, 0).is_empty());
}

#[test]
fn session_search_respects_limit_and_usage() {
    let mut usage: StrMap<Usage> = StrMap::new();
    usage.insert("kate".to_string(), Usage { freq: 20, last_used: 0 });
    let mut session = IndexState::new(editors());
    let got = session.search("text", 1, &usage, EmptyQueryMode::Recency, 0);
    assert_eq!(got, search_entries_at(&editors(), "text", 1, &usage, EmptyQueryMode::Recency, 0));
    assert_eq!(got.len(), 1);
    assert_eq!(session.last_candidates(), &vec![0, 1, 2]);
    assert!(session.search("text", 0, &usage, EmptyQueryMode::Recency, 0).is_empty());
    assert_eq!(session.entries().len(), 6);
}

#[test]
fn candidates_are_filtered_in_order() {
    let entries = editors();
    let tokens = normalize_query("editor");
    assert_eq!(index_range(4), vec![0, 1, 2, 3]);
    assert!(index_range(0).is_empty());
    assert_eq!(filter_candidates(&entries, &tokens, &index_range(entries.len())), vec![0, 1, 3, 5]);
    assert_eq!(filter_candidates(&entries, &tokens, &vec![5, 2, 0]), vec![5, 0]);
    assert_eq!(filter_candidates(&entries, &[], &vec![4, 2]), vec![4, 2]);
}
