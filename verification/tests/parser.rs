use desktop_indexer::locale::{clean_locale, preferred_locales};
use desktop_indexer::models::{DesktopActionOut, DesktopEntryIndexed, DesktopEntryOut};
use desktop_indexer::parser::parse_desktop_entry;

fn strings(words: &[&str]) -> Vec<String> {
    words.iter().map(|w| w.to_string()).collect()
}

fn parse(data: &str, prefs: &[&str]) -> DesktopEntryIndexed {
    parse_desktop_entry(data, "test".to_string(), &strings(prefs))
}

#[test]
fn firefox_entry_is_parsed_for_a_german_reader() {
    let data = "[Desktop Entry]\nType=Application\nName=Firefox\nName[de]=Feuerfuchs\nExec=firefox %U\nCategories=Network;WebBrowser;\nKeywords=browser;internet;\n";
    let prefs = preferred_locales(None, None, Some("de_DE.UTF-8"));
    let e = parse_desktop_entry(data, "firefox".to_string(), &prefs);
    assert_eq!(e.out.id, "firefox");
    assert_eq!(e.out.name.as_deref(), Some("Feuerfuchs"));
    assert_eq!(e.out.categories, strings(&["Network", "WebBrowser"]));
    assert_eq!(e.out.keywords, strings(&["browser", "internet"]));
    assert_eq!(e.out.exec_.as_deref(), Some("firefox %U"));
    assert_eq!(e.out.type_.as_deref(), Some("Application"));
    assert!(!e.out.terminal);
    assert!(e.norm.contains("feuerfuchs"));
    assert!(e.norm.contains("firefox %u"));
    for word in ["network", "webbrowser", "browser", "internet"] {
        assert!(e.norm.contains(word));
    }
    assert_eq!(e.norm, "firefox feuerfuchs firefox %u network webbrowser browser internet application");
    assert_eq!(e.id_lc, "firefox");
    assert_eq!(e.name_lc.as_deref(), Some("feuerfuchs"));
}

#[test]
fn french_reader_gets_the_french_name() {
    let data = "[Desktop Entry]\nName=Foo\nName[fr]=Fou\n";
    let prefs = preferred_locales(Some("fr_FR.UTF-8"), None, None);
    assert_eq!(prefs, strings(&["fr_FR", "fr"]));
    let e = parse_desktop_entry(data, "foo".to_string(), &prefs);
    assert_eq!(e.out.name.as_deref(), Some("Fou"));
}

#[test]
fn reader_with_the_c_locale_gets_the_plain_name() {
    let data = "[Desktop Entry]\nName=Foo\nName[fr]=Fou\n";
    let prefs = preferred_locales(Some("C"), None, None);
    assert_eq!(prefs, strings(&["C"]));
    let e = parse_desktop_entry(data, "foo".to_string(), &prefs);
    assert_eq!(e.out.name.as_deref(), Some("Foo"));
}

#[test]
fn exact_locale_beats_the_language() {
    let data = "[Desktop Entry]\nName=Plain\nName[pt]=Geral\nName[pt_BR]=Brasil\n";
    assert_eq!(parse(data, &["pt_BR", "pt"]).out.name.as_deref(), Some("Brasil"));
    let swapped = "[Desktop Entry]\nName[pt_BR]=Brasil\nName[pt]=Geral\nName=Plain\n";
    assert_eq!(parse(swapped, &["pt_BR", "pt"]).out.name.as_deref(), Some("Brasil"));
    assert_eq!(parse(data, &["pt_PT", "pt"]).out.name.as_deref(), Some("Geral"));
}

#[test]
fn first_value_of_the_best_locale_stays() {
    let data = "[Desktop Entry]\nName[de]=Eins\nName[de]=Zwei\nName=A\nName=B\n";
    let e = parse(data, &["de"]);
    assert_eq!(e.out.name.as_deref(), Some("Eins"));
    assert_eq!(parse(data, &[]).out.name.as_deref(), Some("B"));
}

#[test]
fn locale_settings_are_taken_in_order() {
    assert_eq!(preferred_locales(Some("de_AT"), Some("fr_FR"), Some("it_IT")), strings(&["de_AT", "de"]));
    assert_eq!(preferred_locales(None, Some("fr_FR"), Some("it_IT")), strings(&["fr_FR", "fr"]));
    assert_eq!(preferred_locales(None, None, Some("it_IT")), strings(&["it_IT", "it"]));
    assert_eq!(preferred_locales(Some("  "), Some(".UTF-8"), Some("nl_NL@euro")), strings(&["nl_NL", "nl"]));
    assert!(preferred_locales(None, None, None).is_empty());
}

#[test]
fn locale_is_cleaned_of_encoding_and_modifier() {
    assert_eq!(clean_locale("fr_FR.UTF-8@euro"), Some("fr_FR".to_string()));
    assert_eq!(clean_locale(" sr@latin "), Some("sr".to_string()));
    assert_eq!(clean_locale("en_US"), Some("en_US".to_string()));
    assert_eq!(clean_locale(""), None);
    assert_eq!(clean_locale("@x"), None);
}

#[test]
fn locale_preferences_are_primary_then_language_parts() {
    assert_eq!(preferred_locales(Some("fr-FR"), None, None), strings(&["fr-FR", "fr"]));
    assert_eq!(preferred_locales(Some("a-b_c"), None, None), strings(&["a-b_c", "a-b", "a"]));
    assert_eq!(preferred_locales(Some("de"), None, None), strings(&["de"]));
    assert_eq!(preferred_locales(Some("_x"), None, None), strings(&["_x"]));
}

#[test]
fn comments_and_blank_lines_are_skipped() {
    let data = "# a comment\n\n   \n[Desktop Entry]\n  # Name=No\nName=Yes\n";
    assert_eq!(parse(data, &[]).out.name.as_deref(), Some("Yes"));
}

#[test]
fn malformed_lines_are_skipped() {
    let data = "[Desktop Entry]\nthis line has no equals sign\n=value without key\n  = \nName=Ok\n[Broken\nIcon=still-entry\n";
    let e = parse(data, &[]);
    assert_eq!(e.out.name.as_deref(), Some("Ok"));
    assert_eq!(e.out.icon.as_deref(), Some("still-entry"));
}

#[test]
fn keys_outside_the_known_groups_are_ignored() {
    let data = "Name=Early\n[Other Group]\nName=Other\nIcon=other\n[Desktop Entry]\nComment=Here\n[X-Extra]\nExec=nope\n";
    let e = parse(data, &[]);
    assert_eq!(e.out.name, None);
    assert_eq!(e.out.icon, None);
    assert_eq!(e.out.exec_, None);
    assert_eq!(e.out.comment.as_deref(), Some("Here"));
}

#[test]
fn unknown_keys_are_ignored() {
    let data = "[Desktop Entry]\nName=Right\nX-Whatever=1\nname=lowercase key\nNames=plural\n";
    assert_eq!(parse(data, &[]).out.name.as_deref(), Some("Right"));
    let data = "[Desktop Entry]\nName =spaced key\n";
    assert_eq!(parse(data, &[]).out.name.as_deref(), Some("spaced key"));
    let data = "[Desktop Entry]\nName [de]=space before the bracket\n";
    assert_eq!(parse(data, &["de"]).out.name, None);
    let data = "[Desktop Entry]\nname=lowercase key\nVersion=1.0\n";
    assert_eq!(parse(data, &[]).out.name, None);
}

#[test]
fn whitespace_around_key_and_value_is_stripped() {
    let data = "  [Desktop Entry]  \n   Name   =   Spaced Out   \n\tExec=\trun --now\t\n";
    let e = parse(data, &[]);
    assert_eq!(e.out.name.as_deref(), Some("Spaced Out"));
    assert_eq!(e.out.exec_.as_deref(), Some("run --now"));
}

#[test]
fn value_may_hold_equals_signs_and_be_empty() {
    let data = "[Desktop Entry]\nExec=env A=1 B=2 run\nComment=\n";
    let e = parse(data, &[]);
    assert_eq!(e.out.exec_.as_deref(), Some("env A=1 B=2 run"));
    assert_eq!(e.out.comment.as_deref(), Some(""));
}

#[test]
fn carriage_returns_end_lines_too() {
    let data = "[Desktop Entry]\r\nName=Win\r\nTerminal=true\r\n";
    let e = parse(data, &[]);
    assert_eq!(e.out.name.as_deref(), Some("Win"));
    assert!(e.out.terminal);
}

#[test]
fn last_line_needs_no_line_end() {
    let data = "[Desktop Entry]\nName=End";
    assert_eq!(parse(data, &[]).out.name.as_deref(), Some("End"));
}

#[test]
fn truth_values_are_read_in_any_case() {
    for (text, want) in [
        ("true", Some(true)),
        ("TRUE", Some(true)),
        ("1", Some(true)),
        ("Yes", Some(true)),
        ("false", Some(false)),
        ("0", Some(false)),
        ("nO", Some(false)),
        ("maybe", None),
        ("", None),
        ("2", None),
    ] {
        let data = format!("[Desktop Entry]\nNoDisplay={text}\nHidden={text}\nStartupNotify={text}\nTerminal={text}\n");
        let e = parse(&data, &[]);
        assert_eq!(e.out.nodisplay, want);
        assert_eq!(e.out.hidden, want);
        assert_eq!(e.out.startup_notify, want);
        assert_eq!(e.out.terminal, want == Some(true));
    }
}

#[test]
fn absent_truth_values_stay_absent() {
    let e = parse("[Desktop Entry]\nName=X\n", &[]);
    assert_eq!(e.out.nodisplay, None);
    assert_eq!(e.out.hidden, None);
    assert_eq!(e.out.startup_notify, None);
    assert!(!e.out.terminal);
}

#[test]
fn lists_are_split_trimmed_and_cleaned_of_empty_items() {
    let data = "[Desktop Entry]\nCategories= A ;; B;C ;\nMimeType=text/plain;image/png\nOnlyShowIn=GNOME;\nNotShowIn=;KDE;;XFCE\nKeywords=;\n";
    let e = parse(data, &[]);
    assert_eq!(e.out.categories, strings(&["A", "B", "C"]));
    assert_eq!(e.out.mime_types, strings(&["text/plain", "image/png"]));
    assert_eq!(e.out.only_show_in, strings(&["GNOME"]));
    assert_eq!(e.out.not_show_in, strings(&["KDE", "XFCE"]));
    assert!(e.out.keywords.is_empty());
}

#[test]
fn keywords_follow_the_locale() {
    let data = "[Desktop Entry]\nKeywords=web;net;\nKeywords[de]=netz;surfen;\n";
    assert_eq!(parse(data, &["de_DE", "de"]).out.keywords, strings(&["netz", "surfen"]));
    assert_eq!(parse(data, &["fr"]).out.keywords, strings(&["web", "net"]));
}

#[test]
fn localized_values_of_plain_keys_are_ignored() {
    let data = "[Desktop Entry]\nIcon=plain\nIcon[de]=deutsch\nExec=run\nExec[de]=lauf\nCategories=A;\nCategories[de]=B;\n";
    let e = parse(data, &["de"]);
    assert_eq!(e.out.icon.as_deref(), Some("plain"));
    assert_eq!(e.out.exec_.as_deref(), Some("run"));
    assert_eq!(e.out.categories, strings(&["A"]));
}

#[test]
fn a_bracket_without_a_locale_is_part_of_the_key() {
    let data = "[Desktop Entry]\nName[]=Empty\nName[de=Open\n";
    assert_eq!(parse(data, &["de"]).out.name, None);
}

#[test]
fn all_plain_fields_are_read() {
    let data = "[Desktop Entry]\nType=Application\nName=N\nGenericName=G\nComment=C\nIcon=I\nExec=E\nTryExec=T\nStartupWMClass=W\n";
    let e = parse(data, &[]);
    assert_eq!(e.out.type_.as_deref(), Some("Application"));
    assert_eq!(e.out.name.as_deref(), Some("N"));
    assert_eq!(e.out.generic_name.as_deref(), Some("G"));
    assert_eq!(e.out.comment.as_deref(), Some("C"));
    assert_eq!(e.out.icon.as_deref(), Some("I"));
    assert_eq!(e.out.exec_.as_deref(), Some("E"));
    assert_eq!(e.out.try_exec.as_deref(), Some("T"));
    assert_eq!(e.out.startup_wm_class.as_deref(), Some("W"));
}

#[test]
fn later_plain_value_replaces_the_earlier() {
    let data = "[Desktop Entry]\nIcon=one\nIcon=two\n[Desktop Entry]\nIcon=three\n";
    assert_eq!(parse(data, &[]).out.icon.as_deref(), Some("three"));
}

#[test]
fn actions_listed_come_first_then_the_others_by_id() {
    let data = "[Desktop Entry]\nName=App\nActions=second;first;missing;\n\
[Desktop Action zeta]\nName=Zeta\n\
[Desktop Action first]\nName=First\nExec=app --first\nIcon=one\n\
[Desktop Action alpha]\nName=Alpha\n\
[Desktop Action second]\nName=Second\nName[de]=Zweite\nExec=app --second\n";
    let e = parse(data, &["de"]);
    let got: Vec<String> = e.out.actions.iter().map(|a| a.id.clone()).collect();
    assert_eq!(got, strings(&["second", "first", "alpha", "zeta"]));
    assert_eq!(
        e.out.actions[0],
        DesktopActionOut {
            id: "second".to_string(),
            name: Some("Zweite".to_string()),
            icon: None,
            exec_: Some("app --second".to_string()),
        }
    );
    assert_eq!(
        e.out.actions[1],
        DesktopActionOut {
            id: "first".to_string(),
            name: Some("First".to_string()),
            icon: Some("one".to_string()),
            exec_: Some("app --first".to_string()),
        }
    );
    assert_eq!(e.out.actions[2].name.as_deref(), Some("Alpha"));
}

#[test]
fn action_group_id_is_trimmed_and_groups_merge() {
    let data = "[Desktop Action  new-window ]\nName=New\n[Desktop Entry]\nName=App\n[Desktop Action new-window]\nExec=app -n\n";
    let e = parse(data, &[]);
    assert_eq!(e.out.actions.len(), 1);
    assert_eq!(e.out.actions[0].id, "new-window");
    assert_eq!(e.out.actions[0].name.as_deref(), Some("New"));
    assert_eq!(e.out.actions[0].exec_.as_deref(), Some("app -n"));
    assert_eq!(e.out.name.as_deref(), Some("App"));
}

#[test]
fn action_keys_do_not_leak_into_the_entry() {
    let data = "[Desktop Entry]\nName=App\n[Desktop Action a]\nName=Act\nIcon=act\nExec=act\nComment=ignored\nIcon[de]=nein\n";
    let e = parse(data, &["de"]);
    assert_eq!(e.out.name.as_deref(), Some("App"));
    assert_eq!(e.out.icon, None);
    assert_eq!(e.out.exec_, None);
    assert_eq!(e.out.comment, None);
    assert_eq!(e.out.actions[0].icon.as_deref(), Some("act"));
}

#[test]
fn entry_without_a_name_is_still_returned() {
    let e = parse("[Desktop Entry]\nExec=run\n", &[]);
    assert_eq!(e.out.name, None);
    assert_eq!(e.name_lc, None);
    assert_eq!(e.out.exec_.as_deref(), Some("run"));
    assert_eq!(e.norm, "test run");
}

#[test]
fn empty_file_gives_an_empty_record() {
    let e = parse("", &[]);
    assert_eq!(e.out, DesktopEntryOut::with_id("test".to_string()));
    assert_eq!(e.norm, "test");
}

#[test]
fn haystack_joins_all_fields_in_order() {
    let data = "[Desktop Entry]\nName=My App\nGenericName=Tool\nComment=Does Things\nExec=myapp --run\nTryExec=myapp\nIcon=my-icon\nCategories=Utility;\nKeywords=kw;\nMimeType=text/x;\nType=Application\nStartupWMClass=MyApp\nActions=act;\n[Desktop Action act]\nName=Do It\nExec=myapp --do\nIcon=act-icon\n";
    let e = parse_desktop_entry(data, "My-App".to_string(), &[]);
    assert_eq!(
        e.norm,
        "my-app my app tool does things myapp --run myapp my-icon utility kw text/x act do it myapp --do act-icon application myapp"
    );
    assert_eq!(e.id_lc, "my-app");
    assert_eq!(e.name_lc.as_deref(), Some("my app"));
}

#[test]
fn haystack_is_lowercase_beyond_ascii() {
    let e = parse("[Desktop Entry]\nName=ÄPFEL Über\n", &[]);
    assert_eq!(e.norm, "test äpfel über");
    assert_eq!(e.name_lc.as_deref(), Some("äpfel über"));
}

#[test]
fn indexing_an_entry_by_hand_gives_the_same_derived_fields() {
    let mut out = DesktopEntryOut::with_id("Org.Example".to_string());
    out.name = Some("Example".to_string());
    out.keywords = strings(&["One", "Two"]);
    let e = DesktopEntryIndexed::new(out);
    assert_eq!(e.norm, "org.example example one two");
    assert_eq!(e.id_lc, "org.example");
    assert_eq!(e.name_lc.as_deref(), Some("example"));
}
