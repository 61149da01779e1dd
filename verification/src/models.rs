//! The records that the index holds and hands out, and their views.

use vstd::prelude::*;
use crate::text::{
    clone_opt, clone_string, clone_strings, lemma_seq_view_push, lower_each, lowercase_of_str,
    opt_view, push_lowered, seq_view, str_lowercase,
};

verus! {

/// One action of an entry.
#[derive(Debug, PartialEq, Eq)]
pub struct DesktopActionOut {
    pub id: String,
    pub name: Option<String>,
    pub icon: Option<String>,
    pub exec_: Option<String>,
}

/// What a [`DesktopActionOut`] holds.
pub struct ActionView {
    pub id: Seq<char>,
    pub name: Option<Seq<char>>,
    pub icon: Option<Seq<char>>,
    pub exec_: Option<Seq<char>>,
}

impl View for DesktopActionOut {
    type V = ActionView;

    open spec fn view(&self) -> ActionView {
        ActionView {
            id: self.id@,
            name: opt_view(self.name),
            icon: opt_view(self.icon),
            exec_: opt_view(self.exec_),
        }
    }
}

impl Clone for DesktopActionOut {
    fn clone(&self) -> (r: Self)
        ensures
            r@ == self@,
    {
        DesktopActionOut {
            id: clone_string(&self.id),
            name: clone_opt(&self.name),
            icon: clone_opt(&self.icon),
            exec_: clone_opt(&self.exec_),
        }
    }
}

/// One application entry, as clients see it.
#[derive(Debug, PartialEq, Eq)]
pub struct DesktopEntryOut {
    pub id: String,
    pub name: Option<String>,
    pub generic_name: Option<String>,
    pub comment: Option<String>,
    pub icon: Option<String>,
    pub exec_: Option<String>,
    pub try_exec: Option<String>,
    pub terminal: bool,
    pub categories: Vec<String>,
    pub keywords: Vec<String>,
    pub mime_types: Vec<String>,
    pub actions: Vec<DesktopActionOut>,
    pub type_: Option<String>,
    pub startup_wm_class: Option<String>,
    pub startup_notify: Option<bool>,
    pub nodisplay: Option<bool>,
    pub hidden: Option<bool>,
    pub only_show_in: Vec<String>,
    pub not_show_in: Vec<String>,
}

/// What a [`DesktopEntryOut`] holds.
pub struct EntryView {
    pub id: Seq<char>,
    pub name: Option<Seq<char>>,
    pub generic_name: Option<Seq<char>>,
    pub comment: Option<Seq<char>>,
    pub icon: Option<Seq<char>>,
    pub exec_: Option<Seq<char>>,
    pub try_exec: Option<Seq<char>>,
    pub terminal: bool,
    pub categories: Seq<Seq<char>>,
    pub keywords: Seq<Seq<char>>,
    pub mime_types: Seq<Seq<char>>,
    pub actions: Seq<ActionView>,
    pub type_: Option<Seq<char>>,
    pub startup_wm_class: Option<Seq<char>>,
    pub startup_notify: Option<bool>,
    pub nodisplay: Option<bool>,
    pub hidden: Option<bool>,
    pub only_show_in: Seq<Seq<char>>,
    pub not_show_in: Seq<Seq<char>>,
}

impl View for DesktopEntryOut {
    type V = EntryView;

    open spec fn view(&self) -> EntryView {
        EntryView {
            id: self.id@,
            name: opt_view(self.name),
            generic_name: opt_view(self.generic_name),
            comment: opt_view(self.comment),
            icon: opt_view(self.icon),
            exec_: opt_view(self.exec_),
            try_exec: opt_view(self.try_exec),
            terminal: self.terminal,
            categories: seq_view(self.categories@),
            keywords: seq_view(self.keywords@),
            mime_types: seq_view(self.mime_types@),
            actions: seq_view(self.actions@),
            type_: opt_view(self.type_),
            startup_wm_class: opt_view(self.startup_wm_class),
            startup_notify: self.startup_notify,
            nodisplay: self.nodisplay,
            hidden: self.hidden,
            only_show_in: seq_view(self.only_show_in@),
            not_show_in: seq_view(self.not_show_in@),
        }
    }
}

/// The record with the id `id` and nothing else: no name, no text, no list.
pub open spec fn bare_entry(id: Seq<char>) -> EntryView {
    EntryView {
        id,
        name: None,
        generic_name: None,
        comment: None,
        icon: None,
        exec_: None,
        try_exec: None,
        terminal: false,
        categories: Seq::empty(),
        keywords: Seq::empty(),
        mime_types: Seq::empty(),
        actions: Seq::empty(),
        type_: None,
        startup_wm_class: None,
        startup_notify: None,
        nodisplay: None,
        hidden: None,
        only_show_in: Seq::empty(),
        not_show_in: Seq::empty(),
    }
}

impl DesktopEntryOut {
    /// The record with the id `id` and nothing else.
    pub fn with_id(id: String) -> (e: Self)
        ensures
            e@ == bare_entry(id@),
    {
        let e = DesktopEntryOut {
            id,
            name: None,
            generic_name: None,
            comment: None,
            icon: None,
            exec_: None,
            try_exec: None,
            terminal: false,
            categories: Vec::new(),
            keywords: Vec::new(),
            mime_types: Vec::new(),
            actions: Vec::new(),
            type_: None,
            startup_wm_class: None,
            startup_notify: None,
            nodisplay: None,
            hidden: None,
            only_show_in: Vec::new(),
            not_show_in: Vec::new(),
        };
        assert(e@.categories =~= Seq::<Seq<char>>::empty());
        assert(e@.keywords =~= Seq::<Seq<char>>::empty());
        assert(e@.mime_types =~= Seq::<Seq<char>>::empty());
        assert(e@.actions =~= Seq::<ActionView>::empty());
        assert(e@.only_show_in =~= Seq::<Seq<char>>::empty());
        assert(e@.not_show_in =~= Seq::<Seq<char>>::empty());
        e
    }
}

/// A copy of a list of actions.
pub fn clone_actions(v: &Vec<DesktopActionOut>) -> (r: Vec<DesktopActionOut>)
    ensures
        seq_view(r@) == seq_view(v@),
{
    let mut r: Vec<DesktopActionOut> = Vec::new();
    let mut i: usize = 0;
    while i < v.len()
        invariant
            i <= v.len(),
            seq_view(r@) == seq_view(v@).take(i as int),
        decreases v.len() - i,
    {
        let a = v[i].clone();
        proof {
            lemma_seq_view_push(r@, a);
        }
        r.push(a);
        assert(seq_view(v@).take(i + 1) =~= seq_view(v@).take(i as int).push(v@[i as int]@));
        i += 1;
    }
    assert(seq_view(v@).take(v@.len() as int) =~= seq_view(v@));
    r
}

impl Clone for DesktopEntryOut {
    fn clone(&self) -> (r: Self)
        ensures
            r@ == self@,
    {
        DesktopEntryOut {
            id: clone_string(&self.id),
            name: clone_opt(&self.name),
            generic_name: clone_opt(&self.generic_name),
            comment: clone_opt(&self.comment),
            icon: clone_opt(&self.icon),
            exec_: clone_opt(&self.exec_),
            try_exec: clone_opt(&self.try_exec),
            terminal: self.terminal,
            categories: clone_strings(&self.categories),
            keywords: clone_strings(&self.keywords),
            mime_types: clone_strings(&self.mime_types),
            actions: clone_actions(&self.actions),
            type_: clone_opt(&self.type_),
            startup_wm_class: clone_opt(&self.startup_wm_class),
            startup_notify: self.startup_notify,
            nodisplay: self.nodisplay,
            hidden: self.hidden,
            only_show_in: clone_strings(&self.only_show_in),
            not_show_in: clone_strings(&self.not_show_in),
        }
    }
}

/// The files that a scan found.
#[derive(Debug, PartialEq, Eq)]
pub struct ScanResult {
    pub scanned_roots: Vec<String>,
    pub found_count: usize,
    pub files: Vec<String>,
}

/// The entries that a scan found and parsed.
#[derive(Debug, PartialEq, Eq)]
pub struct ParsedScanResult {
    pub scanned_roots: Vec<String>,
    pub found_count: usize,
    pub parsed_count: usize,
    pub parse_failed: usize,
    pub entries: Vec<DesktopEntryIndexed>,
}

/// An entry together with the lowercase text that queries are matched against.
#[derive(Debug, PartialEq, Eq)]
pub struct DesktopEntryIndexed {
    pub out: DesktopEntryOut,
    pub norm: String,
    pub id_lc: String,
    pub name_lc: Option<String>,
}

/// What a [`DesktopEntryIndexed`] holds.
pub struct IndexedView {
    pub out: EntryView,
    pub norm: Seq<char>,
    pub id_lc: Seq<char>,
    pub name_lc: Option<Seq<char>>,
}

impl View for DesktopEntryIndexed {
    type V = IndexedView;

    open spec fn view(&self) -> IndexedView {
        IndexedView {
            out: self.out@,
            norm: self.norm@,
            id_lc: self.id_lc@,
            name_lc: opt_view(self.name_lc),
        }
    }
}

impl Clone for DesktopEntryIndexed {
    fn clone(&self) -> (r: Self)
        ensures
            r@ == self@,
    {
        DesktopEntryIndexed {
            out: self.out.clone(),
            norm: clone_string(&self.norm),
            id_lc: clone_string(&self.id_lc),
            name_lc: clone_opt(&self.name_lc),
        }
    }
}

// ---------------------------------------------------------------------------
// The haystack
// ---------------------------------------------------------------------------

/// `dst` with one more field: nothing for an absent field; else a space, unless
/// `dst` is empty, and the field in lowercase.
pub open spec fn norm_pushed(dst: Seq<char>, v: Option<Seq<char>>) -> Seq<char> {
    match v {
        None => dst,
        Some(x) => (if dst.len() > 0 {
            dst.push(' ')
        } else {
            dst
        }) + lower_each(x),
    }
}

/// `dst` with each of `items` as one more field.
pub open spec fn norm_pushed_all(dst: Seq<char>, items: Seq<Seq<char>>) -> Seq<char>
    decreases items.len(),
{
    if items.len() == 0 {
        dst
    } else {
        norm_pushed(norm_pushed_all(dst, items.drop_last()), Some(items.last()))
    }
}

/// `dst` with the fields of one action: id, name, exec, icon.
pub open spec fn norm_pushed_action(dst: Seq<char>, a: ActionView) -> Seq<char> {
    norm_pushed(norm_pushed(norm_pushed(norm_pushed(dst, Some(a.id)), a.name), a.exec_), a.icon)
}

/// `dst` with the fields of each of `actions`.
pub open spec fn norm_pushed_actions(dst: Seq<char>, actions: Seq<ActionView>) -> Seq<char>
    decreases actions.len(),
{
    if actions.len() == 0 {
        dst
    } else {
        norm_pushed_action(norm_pushed_actions(dst, actions.drop_last()), actions.last())
    }
}

/// The haystack of an entry: its textual fields in lowercase, separated by
/// single spaces, in this order: id, name, generic name, comment, exec,
/// try-exec, icon, the categories, the keywords, the MIME types, the fields of
/// each action, type, window class.
pub open spec fn norm_of(e: EntryView) -> Seq<char> {
    let head = norm_pushed(
        norm_pushed(
            norm_pushed(
                norm_pushed(
                    norm_pushed(
                        norm_pushed(norm_pushed(Seq::empty(), Some(e.id)), e.name),
                        e.generic_name,
                    ),
                    e.comment,
                ),
                e.exec_,
            ),
            e.try_exec,
        ),
        e.icon,
    );
    let lists = norm_pushed_all(
        norm_pushed_all(norm_pushed_all(head, e.categories), e.keywords),
        e.mime_types,
    );
    norm_pushed(norm_pushed(norm_pushed_actions(lists, e.actions), e.type_), e.startup_wm_class)
}

/// Adds one field to the haystack under construction.
pub fn push_norm(dst: &mut String, v: &Option<String>)
    ensures
        final(dst)@ == norm_pushed(old(dst)@, opt_view(*v)),
{
    match v {
        None => {},
        Some(x) => {
            push_norm_str(dst, x.as_str());
        },
    }
}

/// Adds one field that is present to the haystack under construction.
pub fn push_norm_str(dst: &mut String, x: &str)
    ensures
        final(dst)@ == norm_pushed(old(dst)@, Some(x@)),
{
    if !dst.as_str().is_empty() {
        dst.push(' ');
    }
    push_lowered(dst, x);
}

fn push_norm_all(dst: &mut String, items: &Vec<String>)
    ensures
        final(dst)@ == norm_pushed_all(old(dst)@, seq_view(items@)),
{
    let ghost start = dst@;
    let ghost all = seq_view(items@);
    let mut i: usize = 0;
    while i < items.len()
        invariant
            i <= items.len(),
            all == seq_view(items@),
            dst@ == norm_pushed_all(start, all.take(i as int)),
        decreases items.len() - i,
    {
        push_norm_str(dst, items[i].as_str());
        assert(all.take(i + 1).drop_last() =~= all.take(i as int));
        i += 1;
    }
    assert(all.take(all.len() as int) =~= all);
}

fn push_norm_actions(dst: &mut String, actions: &Vec<DesktopActionOut>)
    ensures
        final(dst)@ == norm_pushed_actions(old(dst)@, seq_view(actions@)),
{
    let ghost start = dst@;
    let ghost all = seq_view(actions@);
    let mut i: usize = 0;
    while i < actions.len()
        invariant
            i <= actions.len(),
            all == seq_view(actions@),
            dst@ == norm_pushed_actions(start, all.take(i as int)),
        decreases actions.len() - i,
    {
        let a = &actions[i];
        push_norm_str(dst, a.id.as_str());
        push_norm(dst, &a.name);
        push_norm(dst, &a.exec_);
        push_norm(dst, &a.icon);
        assert(all.take(i + 1).drop_last() =~= all.take(i as int));
        i += 1;
    }
    assert(all.take(all.len() as int) =~= all);
}

/// The haystack of `out`.
pub fn make_norm(out: &DesktopEntryOut) -> (s: String)
    ensures
        s@ == norm_of(out@),
{
    let mut s = String::new();
    push_norm_str(&mut s, out.id.as_str());
    push_norm(&mut s, &out.name);
    push_norm(&mut s, &out.generic_name);
    push_norm(&mut s, &out.comment);
    push_norm(&mut s, &out.exec_);
    push_norm(&mut s, &out.try_exec);
    push_norm(&mut s, &out.icon);
    push_norm_all(&mut s, &out.categories);
    push_norm_all(&mut s, &out.keywords);
    push_norm_all(&mut s, &out.mime_types);
    push_norm_actions(&mut s, &out.actions);
    push_norm(&mut s, &out.type_);
    push_norm(&mut s, &out.startup_wm_class);
    s
}

impl DesktopEntryIndexed {
    /// The derived fields are those of the entry: the haystack is
    /// [`norm_of`] the entry, `id_lc` and `name_lc` are the lowercase forms of
    /// its id and name.
    pub open spec fn well_formed(&self) -> bool {
        &&& self.norm@ == norm_of(self.out@)
        &&& self.id_lc@ == str_lowercase(self.out.id@)
        &&& opt_view(self.name_lc) == match opt_view(self.out.name) {
            Some(n) => Some(str_lowercase(n)),
            None => None,
        }
    }

    /// Indexes an entry: computes its haystack and the lowercase forms of its
    /// id and name.
    pub fn new(out: DesktopEntryOut) -> (e: Self)
        ensures
            e.out@ == out@,
            e.well_formed(),
    {
        let id_lc = lowercase_of_str(out.id.as_str());
        let name_lc = match &out.name {
            Some(n) => Some(lowercase_of_str(n.as_str())),
            None => None,
        };
        let norm = make_norm(&out);
        DesktopEntryIndexed { out, norm, id_lc, name_lc }
    }
}

} // verus!
