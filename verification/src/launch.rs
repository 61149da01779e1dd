//! From an entry to the command that launches it.

use vstd::prelude::*;
use crate::desktop::{normal_id, normalize_desktop_id};
use crate::models::{ActionView, DesktopActionOut, DesktopEntryIndexed, IndexedView};
use crate::text::{
    chars_of, clone_opt, clone_string, first_match, lemma_first_match_is, lemma_first_match_none,
    lemma_seq_view_push, opt_view, seq_view, str_equal,
};

verus! {

/// The terminal emulators that a terminal application can be run in.
#[derive(Debug, Clone, Copy, PartialEq, Eq, Structural)]
pub enum Terminal {
    Foot,
    Kitty,
    Alacritty,
    WezTerm,
}

/// The first terminal emulator that is there, in the order foot, kitty,
/// alacritty, wezterm.
pub fn pick_terminal(foot: bool, kitty: bool, alacritty: bool, wezterm: bool) -> (r: Option<
    Terminal,
>)
    ensures
        r == if foot {
            Some(Terminal::Foot)
        } else if kitty {
            Some(Terminal::Kitty)
        } else if alacritty {
            Some(Terminal::Alacritty)
        } else if wezterm {
            Some(Terminal::WezTerm)
        } else {
            None::<Terminal>
        },
{
    if foot {
        Some(Terminal::Foot)
    } else if kitty {
        Some(Terminal::Kitty)
    } else if alacritty {
        Some(Terminal::Alacritty)
    } else if wezterm {
        Some(Terminal::WezTerm)
    } else {
        None
    }
}

// ---------------------------------------------------------------------------
// The command line of an entry
// ---------------------------------------------------------------------------

/// The words of a command line as a shell would split it; nothing where the
/// line is not well formed.
pub uninterp spec fn shell_words(line: Seq<char>) -> Option<Seq<Seq<char>>>;

/// `shlex::split`: the words of `line`, split and unquoted as a POSIX shell
/// does, or nothing where a quote or an escape is left open. The result is the
/// one named [`shell_words`].
#[verifier::external_body]
pub(crate) fn split_words(line: &str) -> (r: Option<Vec<String>>)
    ensures
        match r {
            Some(words) => shell_words(line@) == Some(seq_view(words@)),
            None => shell_words(line@) is None,
        },
{
    shlex::split(line)
}

/// Whether `c` is the letter of a field code.
pub open spec fn is_code_letter(c: char) -> bool {
    c == 'f' || c == 'F' || c == 'u' || c == 'U' || c == 'd' || c == 'D' || c == 'n' || c == 'N'
        || c == 'i' || c == 'c' || c == 'k' || c == 'v' || c == 'm'
}

/// Whether `t` is a field code: `%` and one of the letters
/// `f F u U d D n N i c k v m`.
pub open spec fn is_field_code(t: Seq<char>) -> bool {
    t.len() == 2 && t[0] == '%' && is_code_letter(t[1])
}

/// `s[i..]` without its `%` pairs: each `%` goes together with the character
/// behind it; a `%` at the very end stays.
pub open spec fn stripped_from(s: Seq<char>, i: int) -> Seq<char>
    decreases s.len() - i,
{
    if i >= s.len() || i < 0 {
        Seq::empty()
    } else if s[i] == '%' && i + 1 < s.len() {
        stripped_from(s, i + 2)
    } else {
        seq![s[i]] + stripped_from(s, i + 1)
    }
}

/// What is left of a word of a command line: nothing of a field code; of a
/// word with a `%` in it the word without its `%` pairs; any other word as it
/// is.
pub open spec fn cleaned_word(t: Seq<char>) -> Seq<char> {
    if is_field_code(t) {
        Seq::empty()
    } else if t.contains('%') {
        stripped_from(t, 0)
    } else {
        t
    }
}

/// The arguments that `words` stand for: each word cleaned, without the words
/// of which nothing is left.
pub open spec fn cleaned_words(words: Seq<Seq<char>>) -> Seq<Seq<char>>
    decreases words.len(),
{
    if words.len() == 0 {
        Seq::empty()
    } else {
        let rest = cleaned_words(words.drop_last());
        let w = cleaned_word(words.last());
        if w.len() > 0 {
            rest.push(w)
        } else {
            rest
        }
    }
}

/// The arguments of a command line: its words cleaned; nothing where the
/// line cannot be split.
pub open spec fn argv_of(line: Seq<char>) -> Seq<Seq<char>> {
    match shell_words(line) {
        Some(words) => cleaned_words(words),
        None => Seq::empty(),
    }
}

/// Whether `t` is a field code.
pub fn is_field_code_token(t: &str) -> (b: bool)
    ensures
        b == is_field_code(t@),
{
    let cs = chars_of(t);
    if cs.len() != 2 || cs[0] != '%' {
        return false;
    }
    let c = cs[1];
    c == 'f' || c == 'F' || c == 'u' || c == 'U' || c == 'd' || c == 'D' || c == 'n' || c == 'N'
        || c == 'i' || c == 'c' || c == 'k' || c == 'v' || c == 'm'
}

/// `s` without its `%` pairs.
pub fn strip_field_codes(s: &str) -> (r: String)
    ensures
        r@ == stripped_from(s@, 0),
{
    let cs = chars_of(s);
    let mut out = String::new();
    let mut i: usize = 0;
    assert(out@ + stripped_from(cs@, 0) =~= stripped_from(cs@, 0));
    while i < cs.len()
        invariant
            i <= cs.len(),
            stripped_from(cs@, 0) == out@ + stripped_from(cs@, i as int),
        decreases cs.len() - i,
    {
        if cs[i] == '%' && i + 1 < cs.len() {
            i += 2;
        } else {
            let ghost before = out@;
            out.push(cs[i]);
            assert(before + (seq![cs@[i as int]] + stripped_from(cs@, i + 1)) =~= out@
                + stripped_from(cs@, i + 1));
            i += 1;
        }
    }
    assert(out@ + Seq::<char>::empty() =~= out@);
    out
}

fn has_percent(s: &str) -> (b: bool)
    ensures
        b == s@.contains('%'),
{
    let cs = chars_of(s);
    let mut i: usize = 0;
    while i < cs.len()
        invariant
            i <= cs.len(),
            cs@ == s@,
            forall|k: int| 0 <= k < i ==> cs@[k] != '%',
        decreases cs.len() - i,
    {
        if cs[i] == '%' {
            assert(s@[i as int] == '%');
            return true;
        }
        i += 1;
    }
    false
}

/// The arguments that the words of a command line stand for.
pub fn clean_words(words: &Vec<String>) -> (r: Vec<String>)
    ensures
        seq_view(r@) == cleaned_words(seq_view(words@)),
{
    let ghost wv = seq_view(words@);
    let mut r: Vec<String> = Vec::new();
    let mut i: usize = 0;
    assert(seq_view(r@) =~= cleaned_words(wv.take(0)));
    while i < words.len()
        invariant
            i <= words.len(),
            wv == seq_view(words@),
            seq_view(r@) == cleaned_words(wv.take(i as int)),
        decreases words.len() - i,
    {
        let t = words[i].as_str();
        assert(wv.take(i + 1).drop_last() =~= wv.take(i as int));
        assert(wv.take(i + 1).last() == t@);
        let w: Option<String> = if is_field_code_token(t) {
            None
        } else if has_percent(t) {
            Some(strip_field_codes(t))
        } else {
            Some(t.to_owned())
        };
        match w {
            Some(x) => {
                if !x.as_str().is_empty() {
                    proof {
                        lemma_seq_view_push(r@, x);
                    }
                    r.push(x);
                }
            },
            None => {},
        }
        i += 1;
    }
    assert(wv.take(wv.len() as int) =~= wv);
    r
}

/// The arguments of the command line `exec_line`, without field codes.
pub fn exec_to_argv(exec_line: &str) -> (r: Vec<String>)
    ensures
        seq_view(r@) == argv_of(exec_line@),
{
    match split_words(exec_line) {
        Some(words) => clean_words(&words),
        None => {
            let r: Vec<String> = Vec::new();
            assert(seq_view(r@) =~= Seq::<Seq<char>>::empty());
            r
        },
    }
}

// ---------------------------------------------------------------------------
// What to launch
// ---------------------------------------------------------------------------

/// Why nothing can be launched.
#[derive(Debug, PartialEq, Eq)]
pub enum LaunchError {
    /// No entry has the id.
    UnknownId { id: String },
    /// The entry has no such action.
    UnknownAction { action: String, id: String },
    /// The entry is a terminal application without a command line.
    TerminalWithoutExec { id: String },
    /// The entry has no command line.
    NoExec { id: String },
    /// The command line has no arguments.
    EmptyExec { id: String, exec_line: String },
    /// The entry is a terminal application and no terminal emulator is there.
    NoTerminal,
}

/// What a [`LaunchError`] holds.
pub enum LaunchErrorView {
    UnknownId { id: Seq<char> },
    UnknownAction { action: Seq<char>, id: Seq<char> },
    TerminalWithoutExec { id: Seq<char> },
    NoExec { id: Seq<char> },
    EmptyExec { id: Seq<char>, exec_line: Seq<char> },
    NoTerminal,
}

impl View for LaunchError {
    type V = LaunchErrorView;

    open spec fn view(&self) -> LaunchErrorView {
        match self {
            LaunchError::UnknownId { id } => LaunchErrorView::UnknownId { id: id@ },
            LaunchError::UnknownAction { action, id } => LaunchErrorView::UnknownAction {
                action: action@,
                id: id@,
            },
            LaunchError::TerminalWithoutExec { id } => LaunchErrorView::TerminalWithoutExec {
                id: id@,
            },
            LaunchError::NoExec { id } => LaunchErrorView::NoExec { id: id@ },
            LaunchError::EmptyExec { id, exec_line } => LaunchErrorView::EmptyExec {
                id: id@,
                exec_line: exec_line@,
            },
            LaunchError::NoTerminal => LaunchErrorView::NoTerminal,
        }
    }
}

/// The message of an error, as it is sent and printed.
pub open spec fn message_of(e: LaunchErrorView) -> Seq<char> {
    match e {
        LaunchErrorView::UnknownId { id } => "Unknown desktop-id: "@ + id,
        LaunchErrorView::UnknownAction { action, id } => "Unknown action '"@ + action
            + "' for id="@ + id,
        LaunchErrorView::TerminalWithoutExec { id } => "Terminal app but no Exec= for id="@ + id,
        LaunchErrorView::NoExec { id } => "Launch failed and no Exec= for id="@ + id,
        LaunchErrorView::EmptyExec { id, exec_line } => "Exec parsed empty for id="@ + id
            + " (Exec="@ + exec_line + ")"@,
        LaunchErrorView::NoTerminal =>
            "gtk-launch failed and no known terminal found for Terminal=true app. Install one of: foot, kitty, alacritty, wezterm"@,
    }
}

impl LaunchError {
    /// The message of the error.
    pub fn message(&self) -> (m: String)
        ensures
            m@ == message_of(self@),
    {
        match self {
            LaunchError::UnknownId { id } => "Unknown desktop-id: ".to_owned().concat(id.as_str()),
            LaunchError::UnknownAction { action, id } => "Unknown action '".to_owned().concat(
                action.as_str(),
            ).concat("' for id=").concat(id.as_str()),
            LaunchError::TerminalWithoutExec { id } => "Terminal app but no Exec= for id=".to_owned().concat(
                id.as_str(),
            ),
            LaunchError::NoExec { id } => "Launch failed and no Exec= for id=".to_owned().concat(
                id.as_str(),
            ),
            LaunchError::EmptyExec { id, exec_line } => "Exec parsed empty for id=".to_owned().concat(
                id.as_str(),
            ).concat(" (Exec=").concat(exec_line.as_str()).concat(")"),
            LaunchError::NoTerminal =>
                "gtk-launch failed and no known terminal found for Terminal=true app. Install one of: foot, kitty, alacritty, wezterm".to_owned(),
        }
    }
}

/// What was asked to be launched, as far as the index says.
#[derive(Debug, PartialEq, Eq)]
pub struct LaunchPlan {
    /// The id of the entry, without the suffix `.desktop`.
    pub id: String,
    /// Whether the desktop's own launcher is to be tried first: it is, unless
    /// an action was asked for.
    pub try_launcher: bool,
    /// Whether the entry runs in a terminal.
    pub terminal: bool,
    /// The command line of the entry, or of the action that was asked for.
    pub exec_line: Option<String>,
}

/// What a [`LaunchPlan`] holds.
pub struct LaunchPlanView {
    pub id: Seq<char>,
    pub try_launcher: bool,
    pub terminal: bool,
    pub exec_line: Option<Seq<char>>,
}

impl View for LaunchPlan {
    type V = LaunchPlanView;

    open spec fn view(&self) -> LaunchPlanView {
        LaunchPlanView {
            id: self.id@,
            try_launcher: self.try_launcher,
            terminal: self.terminal,
            exec_line: opt_view(self.exec_line),
        }
    }
}

/// The index of the first entry with the id `id`.
pub open spec fn entry_pos(entries: Seq<IndexedView>, id: Seq<char>) -> Option<int> {
    first_match(|k: int| entries[k].out.id == id, 0, entries.len() as int)
}

/// The index of the first action with the id `id`.
pub open spec fn action_pos(actions: Seq<ActionView>, id: Seq<char>) -> Option<int> {
    first_match(|k: int| actions[k].id == id, 0, actions.len() as int)
}

/// What a request to launch `desktop_id`, with or without an action, comes
/// to: the id is taken without the suffix `.desktop`; the entry is the first
/// with that id; an action that is asked for must be one of the entry, and
/// its command line then stands for that of the entry.
pub open spec fn planned(
    entries: Seq<IndexedView>,
    desktop_id: Seq<char>,
    action: Option<Seq<char>>,
) -> Result<LaunchPlanView, LaunchErrorView> {
    let id = normal_id(desktop_id);
    match entry_pos(entries, id) {
        None => Err(LaunchErrorView::UnknownId { id }),
        Some(k) => {
            let e = entries[k].out;
            match action {
                None => Ok(
                    LaunchPlanView {
                        id,
                        try_launcher: true,
                        terminal: e.terminal,
                        exec_line: e.exec_,
                    },
                ),
                Some(a) => match action_pos(e.actions, a) {
                    None => Err(LaunchErrorView::UnknownAction { action: a, id }),
                    Some(j) => Ok(
                        LaunchPlanView {
                            id,
                            try_launcher: false,
                            terminal: e.terminal,
                            exec_line: e.actions[j].exec_,
                        },
                    ),
                },
            }
        },
    }
}

/// The index of the first entry with the id `id`.
pub fn find_entry(entries: &[DesktopEntryIndexed], id: &str) -> (r: Option<usize>)
    ensures
        match r {
            Some(k) => k < entries.len() && entry_pos(seq_view(entries@), id@) == Some(k as int),
            None => entry_pos(seq_view(entries@), id@) is None,
        },
{
    let ghost ev = seq_view(entries@);
    let ghost pred = |k: int| ev[k].out.id == id@;
    let mut k: usize = 0;
    while k < entries.len()
        invariant
            k <= entries.len(),
            ev == seq_view(entries@),
            pred == (|k: int| ev[k].out.id == id@),
            forall|j: int| 0 <= j < k ==> !#[trigger] pred(j),
        decreases entries.len() - k,
    {
        if str_equal(entries[k].out.id.as_str(), id) {
            proof {
                assert(pred(k as int));
                lemma_first_match_is(pred, 0, ev.len() as int, k as int);
            }
            return Some(k);
        }
        assert(!pred(k as int));
        k += 1;
    }
    proof {
        lemma_first_match_none(pred, 0, ev.len() as int);
    }
    None
}

fn find_action(actions: &Vec<DesktopActionOut>, id: &str) -> (r: Option<usize>)
    ensures
        match r {
            Some(k) => k < actions.len() && action_pos(seq_view(actions@), id@) == Some(k as int),
            None => action_pos(seq_view(actions@), id@) is None,
        },
{
    let ghost av = seq_view(actions@);
    let ghost pred = |k: int| av[k].id == id@;
    let mut k: usize = 0;
    while k < actions.len()
        invariant
            k <= actions.len(),
            av == seq_view(actions@),
            pred == (|k: int| av[k].id == id@),
            forall|j: int| 0 <= j < k ==> !#[trigger] pred(j),
        decreases actions.len() - k,
    {
        if str_equal(actions[k].id.as_str(), id) {
            proof {
                assert(pred(k as int));
                lemma_first_match_is(pred, 0, av.len() as int, k as int);
            }
            return Some(k);
        }
        assert(!pred(k as int));
        k += 1;
    }
    proof {
        lemma_first_match_none(pred, 0, av.len() as int);
    }
    None
}

/// Plans the launch of `desktop_id`, with or without an action.
pub fn plan_launch(entries: &[DesktopEntryIndexed], desktop_id: &str, action: &Option<String>) -> (r:
    Result<LaunchPlan, LaunchError>)
    ensures
        match r {
            Ok(p) => planned(seq_view(entries@), desktop_id@, opt_view(*action)) == Ok::<
                LaunchPlanView,
                LaunchErrorView,
            >(p@),
            Err(e) => planned(seq_view(entries@), desktop_id@, opt_view(*action)) == Err::<
                LaunchPlanView,
                LaunchErrorView,
            >(e@),
        },
{
    let id = normalize_desktop_id(desktop_id);
    match find_entry(entries, id.as_str()) {
        None => Err(LaunchError::UnknownId { id }),
        Some(k) => {
            let e = &entries[k].out;
            assert(seq_view(entries@)[k as int].out == e@);
            match action {
                None => Ok(
                    LaunchPlan {
                        id,
                        try_launcher: true,
                        terminal: e.terminal,
                        exec_line: clone_opt(&e.exec_),
                    },
                ),
                Some(a) => match find_action(&e.actions, a.as_str()) {
                    None => Err(LaunchError::UnknownAction { action: clone_string(a), id }),
                    Some(j) => {
                        assert(seq_view(e.actions@)[j as int] == e.actions@[j as int]@);
                        Ok(
                            LaunchPlan {
                                id,
                                try_launcher: false,
                                terminal: e.terminal,
                                exec_line: clone_opt(&e.actions[j].exec_),
                            },
                        )
                    },
                },
            }
        },
    }
}

/// The words that start a command in a terminal emulator.
pub open spec fn terminal_prefix(t: Terminal) -> Seq<Seq<char>> {
    match t {
        Terminal::Foot => seq!["foot"@, "-e"@],
        Terminal::Kitty => seq!["kitty"@],
        Terminal::Alacritty => seq!["alacritty"@, "-e"@],
        Terminal::WezTerm => seq!["wezterm"@, "start"@, "--"@],
    }
}

/// The command that launches what was planned where the desktop's own
/// launcher did not: the arguments of the command line, behind the words of
/// the terminal emulator for a terminal application.
pub open spec fn command_of(plan: LaunchPlanView, terminal: Option<Terminal>) -> Result<
    Seq<Seq<char>>,
    LaunchErrorView,
> {
    match plan.exec_line {
        None => if plan.terminal {
            Err(LaunchErrorView::TerminalWithoutExec { id: plan.id })
        } else {
            Err(LaunchErrorView::NoExec { id: plan.id })
        },
        Some(line) => if argv_of(line).len() == 0 {
            Err(LaunchErrorView::EmptyExec { id: plan.id, exec_line: line })
        } else if !plan.terminal {
            Ok(argv_of(line))
        } else {
            match terminal {
                None => Err(LaunchErrorView::NoTerminal),
                Some(t) => Ok(terminal_prefix(t) + argv_of(line)),
            }
        },
    }
}

fn terminal_words(t: Terminal) -> (r: Vec<String>)
    ensures
        seq_view(r@) == terminal_prefix(t),
{
    let mut r: Vec<String> = Vec::new();
    match t {
        Terminal::Foot => {
            r.push("foot".to_owned());
            r.push("-e".to_owned());
        },
        Terminal::Kitty => {
            r.push("kitty".to_owned());
        },
        Terminal::Alacritty => {
            r.push("alacritty".to_owned());
            r.push("-e".to_owned());
        },
        Terminal::WezTerm => {
            r.push("wezterm".to_owned());
            r.push("start".to_owned());
            r.push("--".to_owned());
        },
    }
    assert(seq_view(r@) =~= terminal_prefix(t));
    r
}

/// The command, program first, that launches what was planned where the
/// desktop's own launcher did not; `terminal` is the terminal emulator that is
/// there, if one is.
pub fn launch_command(plan: &LaunchPlan, terminal: Option<Terminal>) -> (r: Result<
    Vec<String>,
    LaunchError,
>)
    ensures
        match r {
            Ok(words) => command_of(plan@, terminal) == Ok::<Seq<Seq<char>>, LaunchErrorView>(
                seq_view(words@),
            ),
            Err(e) => command_of(plan@, terminal) == Err::<Seq<Seq<char>>, LaunchErrorView>(e@),
        },
{
    match &plan.exec_line {
        None => {
            if plan.terminal {
                Err(LaunchError::TerminalWithoutExec { id: clone_string(&plan.id) })
            } else {
                Err(LaunchError::NoExec { id: clone_string(&plan.id) })
            }
        },
        Some(line) => {
            let argv = exec_to_argv(line.as_str());
            if argv.len() == 0 {
                Err(
                    LaunchError::EmptyExec {
                        id: clone_string(&plan.id),
                        exec_line: clone_string(line),
                    },
                )
            } else if !plan.terminal {
                Ok(argv)
            } else {
                match terminal {
                    None => Err(LaunchError::NoTerminal),
                    Some(t) => {
                        let mut words = terminal_words(t);
                        let ghost head = seq_view(words@);
                        let mut i: usize = 0;
                        assert(head + seq_view(argv@).take(0) =~= head);
                        while i < argv.len()
                            invariant
                                i <= argv.len(),
                                seq_view(words@) == head + seq_view(argv@).take(i as int),
                            decreases argv.len() - i,
                        {
                            let w = clone_string(&argv[i]);
                            proof {
                                lemma_seq_view_push(words@, w);
                                assert(head + seq_view(argv@).take(i + 1) =~= (head + seq_view(
                                    argv@,
                                ).take(i as int)).push(w@));
                            }
                            words.push(w);
                            i += 1;
                        }
                        assert(seq_view(argv@).take(argv@.len() as int) =~= seq_view(argv@));
                        Ok(words)
                    },
                }
            }
        },
    }
}

} // verus!
