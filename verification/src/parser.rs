//! The parser of entry files: from the text of a file to the record of an
//! application.
//!
//! A file is read line by line. A line is a comment, a group header, or a key
//! with a value; anything else is passed over. Keys count in the group
//! `Desktop Entry` and in the groups `Desktop Action <id>`.

use vstd::prelude::*;
use vstd::utf8::encode_utf8;
use crate::locale::{
    char_pos, find_char, lemma_char_pos_bounds, list_contains, Localized, localized_set,
    LocalizedView, resolved, unset,
};
use crate::models::{ActionView, DesktopActionOut, DesktopEntryIndexed, DesktopEntryOut, EntryView};
use crate::order::{place, ranked, Ranked};
use crate::text::{
    bytes_before, chars_of, clone_opt, clone_string, first_match, lemma_encode_injective,
    lemma_first_match_is, lemma_first_match_none, lemma_lex_irreflexive_from, lemma_lex_total_from,
    lemma_lex_transitive_from, lemma_seq_view_push, lex_lt, opt_view, range_is,
    range_is_ignoring_case, same_ignoring_ascii_case, seq_view, str_equal, string_of_range,
    trim_range, trimmed_range,
};

verus! {

// ---------------------------------------------------------------------------
// Values
// ---------------------------------------------------------------------------

/// The truth value that `v` spells, whatever its case: `true`, `1` and `yes`
/// are true, `false`, `0` and `no` are false, and nothing else is a truth
/// value.
pub open spec fn bool_of(v: Seq<char>) -> Option<bool> {
    if same_ignoring_ascii_case(v, "true"@) || same_ignoring_ascii_case(v, "1"@)
        || same_ignoring_ascii_case(v, "yes"@) {
        Some(true)
    } else if same_ignoring_ascii_case(v, "false"@) || same_ignoring_ascii_case(v, "0"@)
        || same_ignoring_ascii_case(v, "no"@) {
        Some(false)
    } else {
        None
    }
}

/// The items of the list `s[i..]`: what stands between its semicolons,
/// trimmed, without the empty items.
pub open spec fn items_from(s: Seq<char>, i: int) -> Seq<Seq<char>>
    decreases s.len() - i,
{
    if i > s.len() || i < 0 {
        Seq::empty()
    } else {
        let j = char_pos(s, i, s.len() as int, ';');
        let item = trimmed_range(s, i, j);
        let head = if item.len() > 0 {
            seq![item]
        } else {
            Seq::empty()
        };
        if j >= s.len() {
            head
        } else {
            proof {
                lemma_char_pos_bounds(s, i, s.len() as int, ';');
            }
            head + items_from(s, j + 1)
        }
    }
}

/// The items of a list value.
pub open spec fn list_of(s: Seq<char>) -> Seq<Seq<char>> {
    items_from(s, 0)
}

/// The truth value that `v` spells.
pub fn parse_bool(v: &Vec<char>) -> (r: Option<bool>)
    ensures
        r == bool_of(v@),
{
    let n = v.len();
    assert(v@.subrange(0, n as int) =~= v@);
    if range_is_ignoring_case(v, 0, n, "true") || range_is_ignoring_case(v, 0, n, "1")
        || range_is_ignoring_case(v, 0, n, "yes") {
        Some(true)
    } else if range_is_ignoring_case(v, 0, n, "false") || range_is_ignoring_case(v, 0, n, "0")
        || range_is_ignoring_case(v, 0, n, "no") {
        Some(false)
    } else {
        None
    }
}

/// The items of the list value `v`.
pub fn split_list(v: &Vec<char>) -> (r: Vec<String>)
    ensures
        seq_view(r@) == list_of(v@),
{
    let mut r: Vec<String> = Vec::new();
    let mut i: usize = 0;
    assert(seq_view(r@) + items_from(v@, 0) =~= items_from(v@, 0));
    loop
        invariant_except_break
            i <= v.len(),
            list_of(v@) == seq_view(r@) + items_from(v@, i as int),
        ensures
            seq_view(r@) == list_of(v@),
        decreases v.len() - i,
    {
        let j = find_char(v, i, v.len(), ';');
        let (a, b) = trim_range(v, i, j);
        let ghost before = seq_view(r@);
        let ghost item = trimmed_range(v@, i as int, j as int);
        if b > a {
            let s = string_of_range(v, a, b);
            proof {
                lemma_seq_view_push(r@, s);
            }
            r.push(s);
            assert(seq_view(r@) =~= before + seq![item]);
        } else {
            assert(seq_view(r@) =~= before + Seq::<Seq<char>>::empty());
        }
        if j >= v.len() {
            break ;
        }
        proof {
            let head = if item.len() > 0 {
                seq![item]
            } else {
                Seq::empty()
            };
            assert(before + (head + items_from(v@, j + 1)) =~= (before + head) + items_from(
                v@,
                j + 1,
            ));
        }
        i = j + 1;
    }
    r
}

// ---------------------------------------------------------------------------
// Keys
// ---------------------------------------------------------------------------

/// The keys that count.
#[derive(Debug, Clone, Copy, PartialEq, Eq, Structural)]
pub enum Key {
    Name,
    GenericName,
    Comment,
    Icon,
    Exec,
    TryExec,
    Terminal,
    Categories,
    Keywords,
    MimeType,
    Actions,
    Type,
    StartupWmClass,
    StartupNotify,
    NoDisplay,
    Hidden,
    OnlyShowIn,
    NotShowIn,
    Unknown,
}

/// The key that `k` spells.
pub open spec fn key_of(k: Seq<char>) -> Key {
    if k == "Name"@ {
        Key::Name
    } else if k == "GenericName"@ {
        Key::GenericName
    } else if k == "Comment"@ {
        Key::Comment
    } else if k == "Icon"@ {
        Key::Icon
    } else if k == "Exec"@ {
        Key::Exec
    } else if k == "TryExec"@ {
        Key::TryExec
    } else if k == "Terminal"@ {
        Key::Terminal
    } else if k == "Categories"@ {
        Key::Categories
    } else if k == "Keywords"@ {
        Key::Keywords
    } else if k == "MimeType"@ {
        Key::MimeType
    } else if k == "Actions"@ {
        Key::Actions
    } else if k == "Type"@ {
        Key::Type
    } else if k == "StartupWMClass"@ {
        Key::StartupWmClass
    } else if k == "StartupNotify"@ {
        Key::StartupNotify
    } else if k == "NoDisplay"@ {
        Key::NoDisplay
    } else if k == "Hidden"@ {
        Key::Hidden
    } else if k == "OnlyShowIn"@ {
        Key::OnlyShowIn
    } else if k == "NotShowIn"@ {
        Key::NotShowIn
    } else {
        Key::Unknown
    }
}

/// The key that `k[0..hi]` spells.
pub fn classify_key(k: &Vec<char>, hi: usize) -> (r: Key)
    requires
        hi <= k.len(),
    ensures
        r == key_of(k@.subrange(0, hi as int)),
{
    if range_is(k, 0, hi, "Name") {
        Key::Name
    } else if range_is(k, 0, hi, "GenericName") {
        Key::GenericName
    } else if range_is(k, 0, hi, "Comment") {
        Key::Comment
    } else if range_is(k, 0, hi, "Icon") {
        Key::Icon
    } else if range_is(k, 0, hi, "Exec") {
        Key::Exec
    } else if range_is(k, 0, hi, "TryExec") {
        Key::TryExec
    } else if range_is(k, 0, hi, "Terminal") {
        Key::Terminal
    } else if range_is(k, 0, hi, "Categories") {
        Key::Categories
    } else if range_is(k, 0, hi, "Keywords") {
        Key::Keywords
    } else if range_is(k, 0, hi, "MimeType") {
        Key::MimeType
    } else if range_is(k, 0, hi, "Actions") {
        Key::Actions
    } else if range_is(k, 0, hi, "Type") {
        Key::Type
    } else if range_is(k, 0, hi, "StartupWMClass") {
        Key::StartupWmClass
    } else if range_is(k, 0, hi, "StartupNotify") {
        Key::StartupNotify
    } else if range_is(k, 0, hi, "NoDisplay") {
        Key::NoDisplay
    } else if range_is(k, 0, hi, "Hidden") {
        Key::Hidden
    } else if range_is(k, 0, hi, "OnlyShowIn") {
        Key::OnlyShowIn
    } else if range_is(k, 0, hi, "NotShowIn") {
        Key::NotShowIn
    } else {
        Key::Unknown
    }
}

/// Where the key proper ends in a raw key: before its `[` where the raw key
/// is a key with a locale in brackets, else at its end.
pub open spec fn key_end(raw: Seq<char>) -> int {
    let b = char_pos(raw, 0, raw.len() as int, '[');
    if b + 2 < raw.len() && raw.last() == ']' {
        b
    } else {
        raw.len() as int
    }
}

/// The locale of a raw key: what stands in the brackets that end it, where
/// something does.
pub open spec fn key_locale(raw: Seq<char>) -> Option<Seq<char>> {
    let b = char_pos(raw, 0, raw.len() as int, '[');
    if b + 2 < raw.len() && raw.last() == ']' {
        Some(raw.subrange(b + 1, raw.len() - 1))
    } else {
        None
    }
}

// ---------------------------------------------------------------------------
// The state of the parser
// ---------------------------------------------------------------------------

/// The group that the lines read belong to.
pub enum Section {
    Outside,
    Entry,
    Action(String),
    Other,
}

/// What a [`Section`] holds.
pub enum SectionView {
    Outside,
    Entry,
    Action(Seq<char>),
    Other,
}

impl View for Section {
    type V = SectionView;

    open spec fn view(&self) -> SectionView {
        match self {
            Section::Outside => SectionView::Outside,
            Section::Entry => SectionView::Entry,
            Section::Action(id) => SectionView::Action(id@),
            Section::Other => SectionView::Other,
        }
    }
}

/// What was read of one action group.
pub struct Group {
    pub id: String,
    pub name: Localized,
    pub icon: Option<String>,
    pub exec_: Option<String>,
}

/// What a [`Group`] holds.
pub struct GroupView {
    pub id: Seq<char>,
    pub name: LocalizedView,
    pub icon: Option<Seq<char>>,
    pub exec_: Option<Seq<char>>,
}

impl View for Group {
    type V = GroupView;

    open spec fn view(&self) -> GroupView {
        GroupView {
            id: self.id@,
            name: self.name@,
            icon: opt_view(self.icon),
            exec_: opt_view(self.exec_),
        }
    }
}

/// What was read of a file so far.
pub struct ParseState {
    pub section: Section,
    pub name: Localized,
    pub generic_name: Localized,
    pub comment: Localized,
    pub keywords: Localized,
    pub icon: Option<String>,
    pub exec_: Option<String>,
    pub try_exec: Option<String>,
    pub type_: Option<String>,
    pub startup_wm_class: Option<String>,
    pub terminal: bool,
    pub startup_notify: Option<bool>,
    pub nodisplay: Option<bool>,
    pub hidden: Option<bool>,
    pub categories: Vec<String>,
    pub mime_types: Vec<String>,
    pub actions_list: Vec<String>,
    pub only_show_in: Vec<String>,
    pub not_show_in: Vec<String>,
    pub groups: Vec<Group>,
}

/// What a [`ParseState`] holds.
pub struct ParseStateView {
    pub section: SectionView,
    pub name: LocalizedView,
    pub generic_name: LocalizedView,
    pub comment: LocalizedView,
    pub keywords: LocalizedView,
    pub icon: Option<Seq<char>>,
    pub exec_: Option<Seq<char>>,
    pub try_exec: Option<Seq<char>>,
    pub type_: Option<Seq<char>>,
    pub startup_wm_class: Option<Seq<char>>,
    pub terminal: bool,
    pub startup_notify: Option<bool>,
    pub nodisplay: Option<bool>,
    pub hidden: Option<bool>,
    pub categories: Seq<Seq<char>>,
    pub mime_types: Seq<Seq<char>>,
    pub actions_list: Seq<Seq<char>>,
    pub only_show_in: Seq<Seq<char>>,
    pub not_show_in: Seq<Seq<char>>,
    pub groups: Seq<GroupView>,
}

impl View for ParseState {
    type V = ParseStateView;

    open spec fn view(&self) -> ParseStateView {
        ParseStateView {
            section: self.section@,
            name: self.name@,
            generic_name: self.generic_name@,
            comment: self.comment@,
            keywords: self.keywords@,
            icon: opt_view(self.icon),
            exec_: opt_view(self.exec_),
            try_exec: opt_view(self.try_exec),
            type_: opt_view(self.type_),
            startup_wm_class: opt_view(self.startup_wm_class),
            terminal: self.terminal,
            startup_notify: self.startup_notify,
            nodisplay: self.nodisplay,
            hidden: self.hidden,
            categories: seq_view(self.categories@),
            mime_types: seq_view(self.mime_types@),
            actions_list: seq_view(self.actions_list@),
            only_show_in: seq_view(self.only_show_in@),
            not_show_in: seq_view(self.not_show_in@),
            groups: seq_view(self.groups@),
        }
    }
}

/// The state before the first line.
pub open spec fn initial_state() -> ParseStateView {
    ParseStateView {
        section: SectionView::Outside,
        name: unset(),
        generic_name: unset(),
        comment: unset(),
        keywords: unset(),
        icon: None,
        exec_: None,
        try_exec: None,
        type_: None,
        startup_wm_class: None,
        terminal: false,
        startup_notify: None,
        nodisplay: None,
        hidden: None,
        categories: Seq::empty(),
        mime_types: Seq::empty(),
        actions_list: Seq::empty(),
        only_show_in: Seq::empty(),
        not_show_in: Seq::empty(),
        groups: Seq::empty(),
    }
}

/// An action group of which nothing was read but its header.
pub open spec fn empty_group(id: Seq<char>) -> GroupView {
    GroupView { id, name: unset(), icon: None, exec_: None }
}

/// The index of the group `id`.
pub open spec fn group_pos(groups: Seq<GroupView>, id: Seq<char>) -> Option<int> {
    first_match(|k: int| groups[k].id == id, 0, groups.len() as int)
}

/// `groups` with a group `id`: as it is where it has one, else with an empty
/// one at its end.
pub open spec fn with_group(groups: Seq<GroupView>, id: Seq<char>) -> Seq<GroupView> {
    if group_pos(groups, id) is Some {
        groups
    } else {
        groups.push(empty_group(id))
    }
}

/// A group after one more line of it: `Name` is a localized field, `Icon` and
/// `Exec` count without a locale, other keys do not count.
pub open spec fn group_set(
    g: GroupView,
    key: Key,
    locale: Option<Seq<char>>,
    value: Seq<char>,
    prefs: Seq<Seq<char>>,
) -> GroupView {
    match key {
        Key::Name => GroupView { name: localized_set(g.name, locale, value, prefs), ..g },
        Key::Icon => if locale is None {
            GroupView { icon: Some(value), ..g }
        } else {
            g
        },
        Key::Exec => if locale is None {
            GroupView { exec_: Some(value), ..g }
        } else {
            g
        },
        _ => g,
    }
}

/// The groups after one more line of the group `id`.
pub open spec fn groups_set(
    groups: Seq<GroupView>,
    id: Seq<char>,
    key: Key,
    locale: Option<Seq<char>>,
    value: Seq<char>,
    prefs: Seq<Seq<char>>,
) -> Seq<GroupView> {
    match group_pos(groups, id) {
        Some(k) => groups.update(k, group_set(groups[k], key, locale, value, prefs)),
        None => groups.push(group_set(empty_group(id), key, locale, value, prefs)),
    }
}

/// The state after one more line of the group `Desktop Entry`: the four
/// localized fields take the line in; every other key counts without a locale
/// only, and its last value stands.
pub open spec fn entry_set(
    st: ParseStateView,
    key: Key,
    locale: Option<Seq<char>>,
    value: Seq<char>,
    prefs: Seq<Seq<char>>,
) -> ParseStateView {
    match key {
        Key::Name => ParseStateView { name: localized_set(st.name, locale, value, prefs), ..st },
        Key::GenericName => ParseStateView {
            generic_name: localized_set(st.generic_name, locale, value, prefs),
            ..st
        },
        Key::Comment => ParseStateView {
            comment: localized_set(st.comment, locale, value, prefs),
            ..st
        },
        Key::Keywords => ParseStateView {
            keywords: localized_set(st.keywords, locale, value, prefs),
            ..st
        },
        Key::Unknown => st,
        _ => if locale is Some {
            st
        } else {
            match key {
                Key::Icon => ParseStateView { icon: Some(value), ..st },
                Key::Exec => ParseStateView { exec_: Some(value), ..st },
                Key::TryExec => ParseStateView { try_exec: Some(value), ..st },
                Key::Type => ParseStateView { type_: Some(value), ..st },
                Key::StartupWmClass => ParseStateView { startup_wm_class: Some(value), ..st },
                Key::Terminal => ParseStateView { terminal: bool_of(value) == Some(true), ..st },
                Key::StartupNotify => ParseStateView { startup_notify: bool_of(value), ..st },
                Key::NoDisplay => ParseStateView { nodisplay: bool_of(value), ..st },
                Key::Hidden => ParseStateView { hidden: bool_of(value), ..st },
                Key::Categories => ParseStateView { categories: list_of(value), ..st },
                Key::MimeType => ParseStateView { mime_types: list_of(value), ..st },
                Key::Actions => ParseStateView { actions_list: list_of(value), ..st },
                Key::OnlyShowIn => ParseStateView { only_show_in: list_of(value), ..st },
                Key::NotShowIn => ParseStateView { not_show_in: list_of(value), ..st },
                _ => st,
            }
        },
    }
}

/// The group that a header line opens: `[Desktop Entry]` the entry,
/// `[Desktop Action <id>]` the action `<id>`, any other header a group that
/// does not count.
pub open spec fn section_of(line: Seq<char>) -> SectionView {
    let p = "[Desktop Action "@;
    if line == "[Desktop Entry]"@ {
        SectionView::Entry
    } else if line.len() > p.len() && line.subrange(0, p.len() as int) == p {
        SectionView::Action(trimmed_range(line, p.len() as int, line.len() - 1))
    } else {
        SectionView::Other
    }
}

/// The state after one more line, given trimmed. Empty lines and comments
/// change nothing; a header opens a group; a key with a value counts in the
/// group that is open; a line without `=` or without a key changes nothing.
pub open spec fn step(st: ParseStateView, line: Seq<char>, prefs: Seq<Seq<char>>) -> ParseStateView {
    if line.len() == 0 || line[0] == '#' {
        st
    } else if line[0] == '[' && line.last() == ']' {
        match section_of(line) {
            SectionView::Action(id) => ParseStateView {
                section: SectionView::Action(id),
                groups: with_group(st.groups, id),
                ..st
            },
            other => ParseStateView { section: other, ..st },
        }
    } else {
        let eq = char_pos(line, 0, line.len() as int, '=');
        let raw = trimmed_range(line, 0, eq);
        if eq >= line.len() || raw.len() == 0 {
            st
        } else {
            let value = trimmed_range(line, eq + 1, line.len() as int);
            let key = key_of(raw.subrange(0, key_end(raw)));
            match st.section {
                SectionView::Entry => entry_set(st, key, key_locale(raw), value, prefs),
                SectionView::Action(id) => ParseStateView {
                    groups: groups_set(st.groups, id, key, key_locale(raw), value, prefs),
                    ..st
                },
                _ => st,
            }
        }
    }
}

/// The line `data[i..j]` without a carriage return at its end and without
/// the white space at its two ends.
pub open spec fn line_text(data: Seq<char>, i: int, j: int) -> Seq<char> {
    if j > i && data[j - 1] == '\r' {
        trimmed_range(data, i, j - 1)
    } else {
        trimmed_range(data, i, j)
    }
}

/// The state after the lines of `data[i..]`, read from the state `st`.
pub open spec fn parse_from(data: Seq<char>, i: int, st: ParseStateView, prefs: Seq<Seq<char>>) -> ParseStateView
    decreases data.len() - i,
{
    if i > data.len() || i < 0 {
        st
    } else {
        let j = char_pos(data, i, data.len() as int, '\n');
        let next = step(st, line_text(data, i, j), prefs);
        if j >= data.len() {
            next
        } else {
            proof {
                lemma_char_pos_bounds(data, i, data.len() as int, '\n');
            }
            parse_from(data, j + 1, next, prefs)
        }
    }
}

// ---------------------------------------------------------------------------
// Actions
// ---------------------------------------------------------------------------

/// The action that a group stands for.
pub open spec fn action_of(g: GroupView) -> ActionView {
    ActionView { id: g.id, name: resolved(g.name), icon: g.icon, exec_: g.exec_ }
}

/// The actions of those of `ids`, in their order, that have a group.
pub open spec fn actions_for(groups: Seq<GroupView>, ids: Seq<Seq<char>>) -> Seq<ActionView>
    decreases ids.len(),
{
    if ids.len() == 0 {
        Seq::empty()
    } else {
        let rest = actions_for(groups, ids.drop_last());
        match group_pos(groups, ids.last()) {
            Some(k) => rest.push(action_of(groups[k])),
            None => rest,
        }
    }
}

/// The ids of the first `n` groups that `listed` does not name.
pub open spec fn unlisted_ids(groups: Seq<GroupView>, listed: Seq<Seq<char>>, n: int) -> Seq<Seq<char>>
    decreases n,
{
    if n <= 0 {
        Seq::empty()
    } else {
        let rest = unlisted_ids(groups, listed, n - 1);
        if listed.contains(groups[n - 1].id) {
            rest
        } else {
            rest.push(groups[n - 1].id)
        }
    }
}

/// An action id, ordered as in the dictionary.
pub struct ActionId(pub String);

impl View for ActionId {
    type V = Seq<char>;

    open spec fn view(&self) -> Seq<char> {
        self.0@
    }
}

impl Ranked for ActionId {
    open spec fn precedes(a: Seq<char>, b: Seq<char>) -> bool {
        lex_lt(encode_utf8(a), encode_utf8(b))
    }

    fn ranks_before(&self, other: &Self) -> (b: bool) {
        bytes_before(self.0.as_str().as_bytes(), other.0.as_str().as_bytes())
    }

    proof fn lemma_transitive(a: Seq<char>, b: Seq<char>, c: Seq<char>) {
        lemma_lex_transitive_from(encode_utf8(a), encode_utf8(b), encode_utf8(c), 0);
    }

    proof fn lemma_irreflexive(a: Seq<char>) {
        lemma_lex_irreflexive_from(encode_utf8(a), 0);
    }

    proof fn lemma_total(a: Seq<char>, b: Seq<char>) {
        lemma_lex_total_from(encode_utf8(a), encode_utf8(b), 0);
        lemma_encode_injective(a, b);
    }
}

/// The actions of an entry: first those that `Actions` names, in the order in
/// which it names them, as far as they have a group; then those of the other
/// groups, in the order of their ids in the dictionary.
pub open spec fn actions_of(groups: Seq<GroupView>, listed: Seq<Seq<char>>) -> Seq<ActionView> {
    actions_for(groups, listed) + actions_for(
        groups,
        ranked::<ActionId>(unlisted_ids(groups, listed, groups.len() as int)),
    )
}

/// The record that the state at the end of a file stands for.
pub open spec fn finished(st: ParseStateView, id: Seq<char>) -> EntryView {
    EntryView {
        id,
        name: resolved(st.name),
        generic_name: resolved(st.generic_name),
        comment: resolved(st.comment),
        icon: st.icon,
        exec_: st.exec_,
        try_exec: st.try_exec,
        terminal: st.terminal,
        categories: st.categories,
        keywords: match resolved(st.keywords) {
            Some(s) => list_of(s),
            None => Seq::empty(),
        },
        mime_types: st.mime_types,
        actions: actions_of(st.groups, st.actions_list),
        type_: st.type_,
        startup_wm_class: st.startup_wm_class,
        startup_notify: st.startup_notify,
        nodisplay: st.nodisplay,
        hidden: st.hidden,
        only_show_in: st.only_show_in,
        not_show_in: st.not_show_in,
    }
}

/// The record of the entry file with text `data`, under the id `id`, for a
/// reader with the locale preferences `prefs`.
pub open spec fn parsed(data: Seq<char>, id: Seq<char>, prefs: Seq<Seq<char>>) -> EntryView {
    finished(parse_from(data, 0, initial_state(), prefs), id)
}

// ---------------------------------------------------------------------------
// Reading
// ---------------------------------------------------------------------------

/// A copy of `cs[lo..hi]`.
pub fn copy_range(cs: &Vec<char>, lo: usize, hi: usize) -> (r: Vec<char>)
    requires
        lo <= hi <= cs.len(),
    ensures
        r@ == cs@.subrange(lo as int, hi as int),
{
    let mut r: Vec<char> = Vec::new();
    let mut i: usize = lo;
    while i < hi
        invariant
            lo <= i <= hi <= cs.len(),
            r@ == cs@.subrange(lo as int, i as int),
        decreases hi - i,
    {
        r.push(cs[i]);
        assert(cs@.subrange(lo as int, i + 1) =~= cs@.subrange(lo as int, i as int).push(
            cs@[i as int],
        ));
        i += 1;
    }
    r
}

/// The index of the group `id`.
pub fn group_position(groups: &Vec<Group>, id: &str) -> (r: Option<usize>)
    ensures
        match r {
            Some(k) => k < groups.len() && group_pos(seq_view(groups@), id@) == Some(k as int),
            None => group_pos(seq_view(groups@), id@) is None,
        },
{
    let ghost gv = seq_view(groups@);
    let ghost pred = |k: int| gv[k].id == id@;
    let mut k: usize = 0;
    while k < groups.len()
        invariant
            k <= groups.len(),
            gv == seq_view(groups@),
            pred == (|k: int| gv[k].id == id@),
            forall|j: int| 0 <= j < k ==> !#[trigger] pred(j),
        decreases groups.len() - k,
    {
        if str_equal(groups[k].id.as_str(), id) {
            proof {
                assert(pred(k as int));
                lemma_first_match_is(pred, 0, gv.len() as int, k as int);
            }
            return Some(k);
        }
        assert(!pred(k as int));
        k += 1;
    }
    proof {
        lemma_first_match_none(pred, 0, gv.len() as int);
    }
    None
}

fn set_in_group(
    g: &mut Group,
    key: Key,
    locale: &Option<String>,
    value: &Vec<char>,
    prefs: &[String],
)
    ensures
        final(g)@ == group_set(old(g)@, key, opt_view(*locale), value@, seq_view(prefs@)),
{
    match key {
        Key::Name => {
            g.name.set(locale, crate::text::string_of(value), prefs);
        },
        Key::Icon => {
            if locale.is_none() {
                g.icon = Some(crate::text::string_of(value));
            }
        },
        Key::Exec => {
            if locale.is_none() {
                g.exec_ = Some(crate::text::string_of(value));
            }
        },
        _ => {},
    }
}

fn set_in_groups(
    groups: &mut Vec<Group>,
    id: &str,
    key: Key,
    locale: &Option<String>,
    value: &Vec<char>,
    prefs: &[String],
)
    ensures
        seq_view(final(groups)@) == groups_set(
            seq_view(old(groups)@),
            id@,
            key,
            opt_view(*locale),
            value@,
            seq_view(prefs@),
        ),
{
    let ghost before = seq_view(groups@);
    match group_position(groups, id) {
        Some(k) => {
            let mut g = groups.remove(k);
            assert(g@ == before[k as int]);
            set_in_group(&mut g, key, locale, value, prefs);
            let ghost after = g@;
            groups.insert(k, g);
            assert(seq_view(groups@) =~= before.update(k as int, after));
        },
        None => {
            let mut g = Group { id: id.to_owned(), name: Localized::new(), icon: None, exec_: None };
            assert(g@ == empty_group(id@));
            set_in_group(&mut g, key, locale, value, prefs);
            proof {
                lemma_seq_view_push(groups@, g);
            }
            groups.push(g);
        },
    }
}

impl ParseState {
    /// The state before the first line.
    pub fn new() -> (st: Self)
        ensures
            st@ == initial_state(),
    {
        let st = ParseState {
            section: Section::Outside,
            name: Localized::new(),
            generic_name: Localized::new(),
            comment: Localized::new(),
            keywords: Localized::new(),
            icon: None,
            exec_: None,
            try_exec: None,
            type_: None,
            startup_wm_class: None,
            terminal: false,
            startup_notify: None,
            nodisplay: None,
            hidden: None,
            categories: Vec::new(),
            mime_types: Vec::new(),
            actions_list: Vec::new(),
            only_show_in: Vec::new(),
            not_show_in: Vec::new(),
            groups: Vec::new(),
        };
        assert(st@.categories =~= Seq::<Seq<char>>::empty());
        assert(st@.mime_types =~= Seq::<Seq<char>>::empty());
        assert(st@.actions_list =~= Seq::<Seq<char>>::empty());
        assert(st@.only_show_in =~= Seq::<Seq<char>>::empty());
        assert(st@.not_show_in =~= Seq::<Seq<char>>::empty());
        assert(st@.groups =~= Seq::<GroupView>::empty());
        st
    }

    /// Takes in a key of the group `Desktop Entry`.
    fn set_in_entry(&mut self, key: Key, locale: &Option<String>, value: &Vec<char>, prefs: &[String])
        ensures
            final(self)@ == entry_set(old(self)@, key, opt_view(*locale), value@, seq_view(prefs@)),
    {
        match key {
            Key::Name => {
                self.name.set(locale, crate::text::string_of(value), prefs);
            },
            Key::GenericName => {
                self.generic_name.set(locale, crate::text::string_of(value), prefs);
            },
            Key::Comment => {
                self.comment.set(locale, crate::text::string_of(value), prefs);
            },
            Key::Keywords => {
                self.keywords.set(locale, crate::text::string_of(value), prefs);
            },
            Key::Unknown => {},
            _ => {
                if locale.is_none() {
                    match key {
                        Key::Icon => {
                            self.icon = Some(crate::text::string_of(value));
                        },
                        Key::Exec => {
                            self.exec_ = Some(crate::text::string_of(value));
                        },
                        Key::TryExec => {
                            self.try_exec = Some(crate::text::string_of(value));
                        },
                        Key::Type => {
                            self.type_ = Some(crate::text::string_of(value));
                        },
                        Key::StartupWmClass => {
                            self.startup_wm_class = Some(crate::text::string_of(value));
                        },
                        Key::Terminal => {
                            self.terminal =
                            match parse_bool(value) {
                                Some(b) => b,
                                None => false,
                            };
                        },
                        Key::StartupNotify => {
                            self.startup_notify = parse_bool(value);
                        },
                        Key::NoDisplay => {
                            self.nodisplay = parse_bool(value);
                        },
                        Key::Hidden => {
                            self.hidden = parse_bool(value);
                        },
                        Key::Categories => {
                            self.categories = split_list(value);
                        },
                        Key::MimeType => {
                            self.mime_types = split_list(value);
                        },
                        Key::Actions => {
                            self.actions_list = split_list(value);
                        },
                        Key::OnlyShowIn => {
                            self.only_show_in = split_list(value);
                        },
                        Key::NotShowIn => {
                            self.not_show_in = split_list(value);
                        },
                        _ => {},
                    }
                }
            },
        }
    }

    /// Opens the group that the header `line` names.
    fn open_group(&mut self, line: &Vec<char>)
        requires
            line.len() > 0,
        ensures
            final(self)@ == (match section_of(line@) {
                SectionView::Action(id) => ParseStateView {
                    section: SectionView::Action(id),
                    groups: with_group(old(self)@.groups, id),
                    ..old(self)@
                },
                other => ParseStateView { section: other, ..old(self)@ },
            }),
    {
        let n = line.len();
        assert(line@.subrange(0, n as int) =~= line@);
        let p = chars_of("[Desktop Action ");
        if range_is(line, 0, n, "[Desktop Entry]") {
            self.section = Section::Entry;
        } else if n > p.len() && range_is(line, 0, p.len(), "[Desktop Action ") {
            let (a, b) = trim_range(line, p.len(), n - 1);
            let id = string_of_range(line, a, b);
            if group_position(&self.groups, id.as_str()).is_none() {
                let g = Group {
                    id: clone_string(&id),
                    name: Localized::new(),
                    icon: None,
                    exec_: None,
                };
                proof {
                    lemma_seq_view_push(self.groups@, g);
                }
                self.groups.push(g);
            }
            self.section = Section::Action(id);
        } else {
            self.section = Section::Other;
        }
    }

    /// Takes in one line, given trimmed.
    pub fn read_line(&mut self, line: &Vec<char>, prefs: &[String])
        ensures
            final(self)@ == step(old(self)@, line@, seq_view(prefs@)),
    {
        let n = line.len();
        if n == 0 || line[0] == '#' {
            return ;
        }
        if line[0] == '[' && line[n - 1] == ']' {
            self.open_group(line);
            return ;
        }
        let eq = find_char(line, 0, n, '=');
        let (ra, rb) = trim_range(line, 0, eq);
        if eq >= n || rb == ra {
            return ;
        }
        let raw = copy_range(line, ra, rb);
        let (va, vb) = trim_range(line, eq + 1, n);
        let value = copy_range(line, va, vb);
        let m = raw.len();
        let b = find_char(&raw, 0, m, '[');
        let bracketed = m >= 3 && b < m - 2 && raw[m - 1] == ']';
        let key_hi = if bracketed {
            b
        } else {
            m
        };
        let locale = if bracketed {
            Some(string_of_range(&raw, b + 1, m - 1))
        } else {
            None
        };
        let key = classify_key(&raw, key_hi);
        let in_action: Option<String> = match &self.section {
            Section::Action(id) => Some(clone_string(id)),
            _ => None,
        };
        let in_entry = match &self.section {
            Section::Entry => true,
            _ => false,
        };
        if in_entry {
            self.set_in_entry(key, &locale, &value, prefs);
        } else {
            match in_action {
                Some(id) => {
                    set_in_groups(&mut self.groups, id.as_str(), key, &locale, &value, prefs);
                },
                None => {},
            }
        }
    }
}

fn action_from(g: &Group) -> (a: DesktopActionOut)
    ensures
        a@ == action_of(g@),
{
    DesktopActionOut {
        id: clone_string(&g.id),
        name: g.name.resolve(),
        icon: clone_opt(&g.icon),
        exec_: clone_opt(&g.exec_),
    }
}

fn push_actions_for(out: &mut Vec<DesktopActionOut>, groups: &Vec<Group>, ids: &Vec<String>)
    ensures
        seq_view(final(out)@) == seq_view(old(out)@) + actions_for(
            seq_view(groups@),
            seq_view(ids@),
        ),
{
    let ghost start = seq_view(out@);
    let ghost gv = seq_view(groups@);
    let ghost iv = seq_view(ids@);
    let mut i: usize = 0;
    assert(start + actions_for(gv, iv.take(0)) =~= start);
    while i < ids.len()
        invariant
            i <= ids.len(),
            gv == seq_view(groups@),
            iv == seq_view(ids@),
            seq_view(out@) == start + actions_for(gv, iv.take(i as int)),
        decreases ids.len() - i,
    {
        let ghost so_far = actions_for(gv, iv.take(i as int));
        assert(iv.take(i + 1).drop_last() =~= iv.take(i as int));
        assert(iv.take(i + 1).last() == ids@[i as int]@);
        match group_position(groups, ids[i].as_str()) {
            Some(k) => {
                let a = action_from(&groups[k]);
                proof {
                    lemma_seq_view_push(out@, a);
                    assert(gv[k as int] == groups@[k as int]@);
                    assert(start + so_far.push(a@) =~= (start + so_far).push(a@));
                }
                out.push(a);
            },
            None => {},
        }
        i += 1;
    }
    assert(iv.take(iv.len() as int) =~= iv);
}

/// The actions of an entry with the groups `groups` and the list `listed`.
pub fn collect_actions(groups: &Vec<Group>, listed: &Vec<String>) -> (out: Vec<DesktopActionOut>)
    ensures
        seq_view(out@) == actions_of(seq_view(groups@), seq_view(listed@)),
{
    let ghost gv = seq_view(groups@);
    let ghost lv = seq_view(listed@);
    let mut out: Vec<DesktopActionOut> = Vec::new();
    assert(seq_view(out@) =~= Seq::<ActionView>::empty());
    push_actions_for(&mut out, groups, listed);
    assert(seq_view(out@) =~= actions_for(gv, lv));
    let mut rest: Vec<ActionId> = Vec::new();
    let mut k: usize = 0;
    assert(seq_view(rest@) =~= ranked::<ActionId>(unlisted_ids(gv, lv, 0)));
    while k < groups.len()
        invariant
            k <= groups.len(),
            gv == seq_view(groups@),
            lv == seq_view(listed@),
            seq_view(rest@) == ranked::<ActionId>(unlisted_ids(gv, lv, k as int)),
        decreases groups.len() - k,
    {
        assert(gv[k as int] == groups@[k as int]@);
        if !list_contains(listed, groups[k].id.as_str()) {
            let x = ActionId(clone_string(&groups[k].id));
            proof {
                let so_far = unlisted_ids(gv, lv, k as int);
                assert(so_far.push(x@).drop_last() =~= so_far);
            }
            place(&mut rest, x);
        }
        k += 1;
    }
    let mut ids: Vec<String> = Vec::new();
    let mut j: usize = 0;
    while j < rest.len()
        invariant
            j <= rest.len(),
            ids.len() == j,
            forall|m: int| 0 <= m < j ==> (#[trigger] ids@[m])@ == rest@[m]@,
        decreases rest.len() - j,
    {
        ids.push(clone_string(&rest[j].0));
        j += 1;
    }
    assert(seq_view(ids@) =~= seq_view(rest@));
    push_actions_for(&mut out, groups, &ids);
    out
}

/// The record that `st` stands for, under the id `id`.
pub fn finish(st: ParseState, id: String) -> (out: DesktopEntryOut)
    ensures
        out@ == finished(st@, id@),
{
    let keywords = match st.keywords.resolve() {
        Some(s) => {
            let cs = chars_of(s.as_str());
            split_list(&cs)
        },
        None => {
            let v: Vec<String> = Vec::new();
            assert(seq_view(v@) =~= Seq::<Seq<char>>::empty());
            v
        },
    };
    let actions = collect_actions(&st.groups, &st.actions_list);
    DesktopEntryOut {
        id,
        name: st.name.resolve(),
        generic_name: st.generic_name.resolve(),
        comment: st.comment.resolve(),
        icon: st.icon,
        exec_: st.exec_,
        try_exec: st.try_exec,
        terminal: st.terminal,
        categories: st.categories,
        keywords,
        mime_types: st.mime_types,
        actions,
        type_: st.type_,
        startup_wm_class: st.startup_wm_class,
        startup_notify: st.startup_notify,
        nodisplay: st.nodisplay,
        hidden: st.hidden,
        only_show_in: st.only_show_in,
        not_show_in: st.not_show_in,
    }
}

/// Parses the text of an entry file. The record that comes back is the one
/// that [`parsed`] describes, indexed for the search.
pub fn parse_desktop_entry(data: &str, id: String, locale_prefs: &[String]) -> (e:
    DesktopEntryIndexed)
    ensures
        e.out@ == parsed(data@, id@, seq_view(locale_prefs@)),
        e.well_formed(),
{
    let cs = chars_of(data);
    let n = cs.len();
    let ghost pv = seq_view(locale_prefs@);
    let mut st = ParseState::new();
    let mut i: usize = 0;
    loop
        invariant_except_break
            i <= n,
            n == cs.len(),
            cs@ == data@,
            pv == seq_view(locale_prefs@),
            parse_from(cs@, 0, initial_state(), pv) == parse_from(cs@, i as int, st@, pv),
        ensures
            st@ == parse_from(data@, 0, initial_state(), pv),
        decreases n - i,
    {
        let j = find_char(&cs, i, n, '\n');
        let hi = if j > i && cs[j - 1] == '\r' {
            j - 1
        } else {
            j
        };
        let (a, b) = trim_range(&cs, i, hi);
        let line = copy_range(&cs, a, b);
        assert(line@ == line_text(cs@, i as int, j as int));
        st.read_line(&line, locale_prefs);
        if j >= n {
            break ;
        }
        i = j + 1;
    }
    DesktopEntryIndexed::new(finish(st, id))
}

} // verus!
