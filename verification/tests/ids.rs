use desktop_indexer::desktop::{
    compute_desktop_id, desktop_file_id_using_roots, id_from_relative, is_desktop_file,
    normalize_desktop_id, parse_desktop_file_using_roots, scan_desktop_files, scan_desktop_paths,
    Found,
};

fn strings(words: &[&str]) -> Vec<String> {
    words.iter().map(|w| w.to_string()).collect()
}

fn found(root: &str, path: &str) -> Found {
    Found { root: root.to_string(), path: path.to_string() }
}

#[test]
fn id_of_a_file_in_a_subdirectory() {
    assert_eq!(
        compute_desktop_id("/usr/share/applications", "/usr/share/applications/kde4/konsole.desktop"),
        "kde4-konsole"
    );
}

#[test]
fn id_of_a_nested_file_joins_the_directories_with_dashes() {
    assert_eq!(compute_desktop_id("/r", "/r/a/b/c.desktop"), "a-b-c");
    assert_eq!(id_from_relative("a/b/c.desktop"), "a-b-c");
    assert_eq!(compute_desktop_id("/some/root/", "/some/root/x/y.desktop"), "x-y");
}

#[test]
fn id_of_a_file_directly_below_its_root() {
    assert_eq!(compute_desktop_id("/usr/share/applications", "/usr/share/applications/firefox.desktop"), "firefox");
}

#[test]
fn id_keeps_what_is_not_the_suffix() {
    assert_eq!(id_from_relative("org.gnome.Files.desktop"), "org.gnome.Files");
    assert_eq!(id_from_relative("notes.txt"), "notes.txt");
    assert_eq!(id_from_relative("UPPER.DESKTOP"), "UPPER.DESKTOP");
    assert_eq!(id_from_relative("twice.desktop.desktop"), "twice.desktop");
    assert_eq!(id_from_relative(".desktop"), "");
}

#[test]
fn id_under_the_first_root_that_holds_the_file() {
    let roots = strings(&["/home/u/.local/share/applications", "/usr/share", "/usr/share/applications"]);
    assert_eq!(
        desktop_file_id_using_roots("/usr/share/applications/vlc.desktop", &roots),
        "applications-vlc"
    );
    let roots = strings(&["/usr/share/applications", "/usr/share"]);
    assert_eq!(desktop_file_id_using_roots("/usr/share/applications/vlc.desktop", &roots), "vlc");
}

#[test]
fn a_root_must_match_whole_components() {
    let roots = strings(&["/usr/share/app"]);
    assert_eq!(desktop_file_id_using_roots("/usr/share/applications/vlc.desktop", &roots), "vlc");
}

#[test]
fn id_of_a_file_outside_all_roots_is_its_stem() {
    let roots = strings(&["/usr/share/applications"]);
    assert_eq!(desktop_file_id_using_roots("/tmp/x/demo.desktop", &roots), "demo");
    assert_eq!(desktop_file_id_using_roots("/tmp/x/archive.tar.gz", &roots), "archive.tar");
    assert_eq!(desktop_file_id_using_roots("/", &roots), "unknown");
    assert_eq!(desktop_file_id_using_roots("plain.desktop", &[]), "plain");
}

#[test]
fn stripping_the_suffix_twice_changes_nothing() {
    for id in ["firefox", "firefox.desktop", "a.desktop.desktop", ".desktop", "", "desktop", "x.desktopx"] {
        let once = normalize_desktop_id(id);
        assert_eq!(normalize_desktop_id(&once), once);
    }
    assert_eq!(normalize_desktop_id("firefox.desktop"), "firefox");
    assert_eq!(normalize_desktop_id("a.desktop.desktop"), "a");
    assert_eq!(normalize_desktop_id("firefox"), "firefox");
    assert_eq!(normalize_desktop_id("x.desktopx"), "x.desktopx");
}

#[test]
fn entry_files_are_known_by_their_extension_in_any_case() {
    assert!(is_desktop_file("/a/b/app.desktop"));
    assert!(is_desktop_file("/a/b/APP.DESKTOP"));
    assert!(is_desktop_file("app.DeskTop"));
    assert!(!is_desktop_file("/a/b/app.desktop.bak"));
    assert!(!is_desktop_file("/a/b/desktop"));
    assert!(!is_desktop_file("/a/b/.desktop"));
    assert!(!is_desktop_file("/a/b/app.desktops"));
    assert!(!is_desktop_file(""));
}

#[test]
fn scan_counts_every_entry_file_but_returns_up_to_the_limit() {
    let walked = vec![
        found("/r", "/r/a.desktop"),
        found("/r", "/r/readme.txt"),
        found("/r", "/r/b.desktop"),
        found("/s", "/s/c.DESKTOP"),
        found("/s", "/s/d.desktop"),
    ];
    let (count, kept) = scan_desktop_paths(&walked, Some(2));
    assert_eq!(count, 4);
    let paths: Vec<String> = kept.iter().map(|f| f.path.clone()).collect();
    assert_eq!(paths, strings(&["/r/a.desktop", "/r/b.desktop"]));
    let (count, kept) = scan_desktop_paths(&walked, None);
    assert_eq!(count, 4);
    assert_eq!(kept.len(), 4);
    assert_eq!(kept[2].root, "/s");
    let (count, kept) = scan_desktop_paths(&walked, Some(0));
    assert_eq!(count, 4);
    assert!(kept.is_empty());
    let (count, kept) = scan_desktop_paths(&walked, Some(100));
    assert_eq!(count, 4);
    assert_eq!(kept.len(), 4);
}

#[test]
fn scan_result_lists_roots_and_files() {
    let walked = vec![found("/r", "/r/a.desktop"), found("/r", "/r/x.png"), found("/s", "/s/b.desktop")];
    let roots = strings(&["/r", "/missing", "/s"]);
    let result = scan_desktop_files(&roots, &walked, Some(1));
    assert_eq!(result.scanned_roots, roots);
    assert_eq!(result.found_count, 2);
    assert_eq!(result.files, strings(&["/r/a.desktop"]));
    let result = scan_desktop_files(&roots, &walked, None);
    assert_eq!(result.files, strings(&["/r/a.desktop", "/s/b.desktop"]));
}

#[test]
fn a_file_is_parsed_under_the_id_that_its_roots_give() {
    let roots = strings(&["/usr/share/applications"]);
    let e = parse_desktop_file_using_roots(
        "/usr/share/applications/kde4/konsole.desktop",
        "[Desktop Entry]\nName=Konsole\n",
        &roots,
        &[],
    );
    assert_eq!(e.out.id, "kde4-konsole");
    assert_eq!(e.out.name.as_deref(), Some("Konsole"));
    assert_eq!(e.norm, "kde4-konsole konsole");
}
