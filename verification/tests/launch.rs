use desktop_indexer::launch::{
    clean_words, exec_to_argv, is_field_code_token, launch_command, pick_terminal, plan_launch,
    strip_field_codes, LaunchError, LaunchPlan, Terminal,
};
use desktop_indexer::models::{DesktopActionOut, DesktopEntryIndexed, DesktopEntryOut};

fn strings(words: &[&str]) -> Vec<String> {
    words.iter().map(|w| w.to_string()).collect()
}

fn app(id: &str, exec_line: Option<&str>, terminal: bool) -> DesktopEntryIndexed {
    let mut out = DesktopEntryOut::with_id(id.to_string());
    out.exec_ = exec_line.map(|e| e.to_string());
    out.terminal = terminal;
    out.actions = vec![
        DesktopActionOut { id: "new-window".to_string(), name: None, icon: None, exec_: Some(format!("{id} --new-window")) },
        DesktopActionOut { id: "broken".to_string(), name: None, icon: None, exec_: None },
    ];
    DesktopEntryIndexed::new(out)
}

fn plan(id: &str, exec_line: Option<&str>, terminal: bool) -> LaunchPlan {
    LaunchPlan { id: id.to_string(), try_launcher: true, terminal, exec_line: exec_line.map(|e| e.to_string()) }
}

#[test]
fn first_terminal_that_is_there_is_picked() {
    assert_eq!(pick_terminal(true, true, true, true), Some(Terminal::Foot));
    assert_eq!(pick_terminal(false, true, true, true), Some(Terminal::Kitty));
    assert_eq!(pick_terminal(false, false, true, true), Some(Terminal::Alacritty));
    assert_eq!(pick_terminal(false, false, false, true), Some(Terminal::WezTerm));
    assert_eq!(pick_terminal(false, false, false, false), None);
    assert_eq!(pick_terminal(true, false, false, true), Some(Terminal::Foot));
}

#[test]
fn field_codes_are_known() {
    for code in ["%f", "%F", "%u", "%U", "%d", "%D", "%n", "%N", "%i", "%c", "%k", "%v", "%m"] {
        assert!(is_field_code_token(code));
    }
    for other in ["%x", "%", "%%", "%ff", "f", "", "u%", "%I", "%C"] {
        assert!(!is_field_code_token(other));
    }
}

#[test]
fn percent_pairs_are_stripped() {
    assert_eq!(strip_field_codes("--foo=%u"), "--foo=");
    assert_eq!(strip_field_codes("a%fb%Uc"), "abc");
    assert_eq!(strip_field_codes("100%"), "100%");
    assert_eq!(strip_field_codes("%%x"), "x");
    assert_eq!(strip_field_codes("plain"), "plain");
    assert_eq!(strip_field_codes(""), "");
    assert_eq!(strip_field_codes("%é!"), "!");
}

#[test]
fn command_line_is_split_as_a_shell_does() {
    assert_eq!(exec_to_argv("firefox %U"), strings(&["firefox"]));
    assert_eq!(exec_to_argv("env A=1 \"my app\" --flag 'x y'"), strings(&["env", "A=1", "my app", "--flag", "x y"]));
    assert_eq!(exec_to_argv("app --open=%f --title \"%c\" %i"), strings(&["app", "--open=", "--title"]));
    assert_eq!(exec_to_argv("   "), Vec::<String>::new());
    assert_eq!(exec_to_argv("%U"), Vec::<String>::new());
    assert_eq!(exec_to_argv("a\\ b"), strings(&["a b"]));
}

#[test]
fn command_line_with_an_open_quote_has_no_arguments() {
    assert!(exec_to_argv("app \"unterminated").is_empty());
    assert!(exec_to_argv("app 'x").is_empty());
}

#[test]
fn words_are_cleaned_of_codes_and_empty_rests() {
    assert_eq!(clean_words(&strings(&["a", "%u", "b%fc", "%x", "", "100%"])), strings(&["a", "bc", "100%"]));
}

#[test]
fn launch_of_an_unknown_id_is_refused() {
    let entries = vec![app("firefox", Some("firefox %U"), false)];
    let err = plan_launch(&entries, "chrome.desktop", &None).unwrap_err();
    assert_eq!(err, LaunchError::UnknownId { id: "chrome".to_string() });
    assert_eq!(err.message(), "Unknown desktop-id: chrome");
}

#[test]
fn launch_of_an_unknown_action_is_refused() {
    let entries = vec![app("firefox", Some("firefox %U"), false)];
    let err = plan_launch(&entries, "firefox", &Some("private".to_string())).unwrap_err();
    assert_eq!(err, LaunchError::UnknownAction { action: "private".to_string(), id: "firefox".to_string() });
    assert_eq!(err.message(), "Unknown action 'private' for id=firefox");
}

#[test]
fn launch_accepts_the_id_with_or_without_suffix() {
    let entries = vec![app("gimp", Some("gimp"), false), app("firefox", Some("firefox %U"), false)];
    let want = LaunchPlan {
        id: "firefox".to_string(),
        try_launcher: true,
        terminal: false,
        exec_line: Some("firefox %U".to_string()),
    };
    assert_eq!(plan_launch(&entries, "firefox", &None), Ok(plan("firefox", Some("firefox %U"), false)));
    assert_eq!(plan_launch(&entries, "firefox.desktop", &None).as_ref(), Ok(&want));
    assert_eq!(plan_launch(&entries, "firefox.desktop.desktop", &None).as_ref(), Ok(&want));
    assert!(plan_launch(&entries, "Firefox", &None).is_err());
}

#[test]
fn action_overrides_the_command_line() {
    let entries = vec![app("firefox", Some("firefox %U"), true)];
    let got = plan_launch(&entries, "firefox", &Some("new-window".to_string())).unwrap();
    assert_eq!(
        got,
        LaunchPlan {
            id: "firefox".to_string(),
            try_launcher: false,
            terminal: true,
            exec_line: Some("firefox --new-window".to_string()),
        }
    );
    let got = plan_launch(&entries, "firefox", &Some("broken".to_string())).unwrap();
    assert_eq!(got.exec_line, None);
    assert!(!got.try_launcher);
}

#[test]
fn first_entry_with_the_id_is_launched() {
    let entries = vec![app("dup", Some("first"), false), app("dup", Some("second"), false)];
    assert_eq!(plan_launch(&entries, "dup", &None).unwrap().exec_line.as_deref(), Some("first"));
}

#[test]
fn plain_application_runs_its_arguments() {
    let got = launch_command(&plan("firefox", Some("firefox --new %U"), false), None);
    assert_eq!(got, Ok(strings(&["firefox", "--new"])));
    let got = launch_command(&plan("firefox", Some("firefox"), false), Some(Terminal::Kitty));
    assert_eq!(got, Ok(strings(&["firefox"])));
}

#[test]
fn terminal_application_runs_inside_the_terminal() {
    let p = plan("htop", Some("htop -d 5"), true);
    assert_eq!(launch_command(&p, Some(Terminal::Foot)), Ok(strings(&["foot", "-e", "htop", "-d", "5"])));
    assert_eq!(launch_command(&p, Some(Terminal::Kitty)), Ok(strings(&["kitty", "htop", "-d", "5"])));
    assert_eq!(launch_command(&p, Some(Terminal::Alacritty)), Ok(strings(&["alacritty", "-e", "htop", "-d", "5"])));
    assert_eq!(launch_command(&p, Some(Terminal::WezTerm)), Ok(strings(&["wezterm", "start", "--", "htop", "-d", "5"])));
}

#[test]
fn launch_errors_say_what_is_missing() {
    let err = launch_command(&plan("htop", None, true), Some(Terminal::Foot)).unwrap_err();
    assert_eq!(err, LaunchError::TerminalWithoutExec { id: "htop".to_string() });
    assert_eq!(err.message(), "Terminal app but no Exec= for id=htop");

    let err = launch_command(&plan("app", None, false), None).unwrap_err();
    assert_eq!(err, LaunchError::NoExec { id: "app".to_string() });
    assert_eq!(err.message(), "Launch failed and no Exec= for id=app");

    let err = launch_command(&plan("app", Some("%U"), false), None).unwrap_err();
    assert_eq!(err, LaunchError::EmptyExec { id: "app".to_string(), exec_line: "%U".to_string() });
    assert_eq!(err.message(), "Exec parsed empty for id=app (Exec=%U)");

    let err = launch_command(&plan("htop", Some("\"open"), true), Some(Terminal::Foot)).unwrap_err();
    assert_eq!(err.message(), "Exec parsed empty for id=htop (Exec=\"open)");

    let err = launch_command(&plan("htop", Some("htop"), true), None).unwrap_err();
    assert_eq!(err, LaunchError::NoTerminal);
    assert_eq!(
        err.message(),
        "gtk-launch failed and no known terminal found for Terminal=true app. Install one of: foot, kitty, alacritty, wezterm"
    );
}
