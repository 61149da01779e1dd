//! Locale preferences and the fields that they choose among.

use vstd::prelude::*;
use crate::text::{
    chars_of, clone_opt, clone_string, first_match, lemma_first_match_is, lemma_first_match_none,
    lemma_seq_view_push, opt_view, seq_view, str_equal, string_of_range, trim_range,
};

verus! {

/// The index of the first `c` in `s[lo..hi]`, or `hi`.
pub open spec fn char_pos(s: Seq<char>, lo: int, hi: int, c: char) -> int
    decreases hi - lo,
{
    if lo >= hi {
        hi
    } else if s[lo] == c {
        lo
    } else {
        char_pos(s, lo + 1, hi, c)
    }
}

/// The index that [`char_pos`] gives lies in the range that was searched, or
/// at its end.
pub proof fn lemma_char_pos_bounds(s: Seq<char>, lo: int, hi: int, c: char)
    requires
        lo <= hi,
    ensures
        lo <= char_pos(s, lo, hi, c) <= hi,
    decreases hi - lo,
{
    if lo < hi && s[lo] != c {
        lemma_char_pos_bounds(s, lo + 1, hi, c);
    }
}

/// The index of the first `c` in `cs[lo..hi]`, or `hi`.
pub fn find_char(cs: &Vec<char>, lo: usize, hi: usize, c: char) -> (r: usize)
    requires
        lo <= hi <= cs.len(),
    ensures
        r == char_pos(cs@, lo as int, hi as int, c),
        lo <= r <= hi,
{
    let mut i: usize = lo;
    while i < hi && cs[i] != c
        invariant
            lo <= i <= hi <= cs.len(),
            char_pos(cs@, lo as int, hi as int, c) == char_pos(cs@, i as int, hi as int, c),
        decreases hi - i,
    {
        i += 1;
    }
    i
}

// ---------------------------------------------------------------------------
// Preferences
// ---------------------------------------------------------------------------

/// A raw locale without its encoding and modifier: trimmed, and cut before the
/// first `.` and before the first `@`. Nothing where nothing is left.
pub open spec fn clean_locale_of(raw: Seq<char>) -> Option<Seq<char>> {
    let lo = crate::text::skip_space(raw, 0, raw.len() as int);
    let hi = crate::text::drop_space(raw, lo, raw.len() as int);
    let dot = char_pos(raw, lo, hi, '.');
    let at = char_pos(raw, lo, dot, '@');
    if at > lo {
        Some(raw.subrange(lo, at))
    } else {
        None
    }
}

/// The cleaned locale of the first of the three settings that has one.
pub open spec fn primary_locale_of(
    lc_all: Option<Seq<char>>,
    lc_messages: Option<Seq<char>>,
    lang: Option<Seq<char>>,
) -> Option<Seq<char>> {
    if lc_all is Some && clean_locale_of(lc_all->0) is Some {
        clean_locale_of(lc_all->0)
    } else if lc_messages is Some && clean_locale_of(lc_messages->0) is Some {
        clean_locale_of(lc_messages->0)
    } else if lang is Some {
        clean_locale_of(lang->0)
    } else {
        None
    }
}

/// The part of `loc` before its first `sep`, where there is a `sep` and
/// something before it.
pub open spec fn language_before(loc: Seq<char>, sep: char) -> Option<Seq<char>> {
    let p = char_pos(loc, 0, loc.len() as int, sep);
    if 0 < p < loc.len() {
        Some(loc.subrange(0, p))
    } else {
        None
    }
}

/// `list` with `item` at its end, unless `item` is absent or in it already.
pub open spec fn with_new(list: Seq<Seq<char>>, item: Option<Seq<char>>) -> Seq<Seq<char>> {
    match item {
        Some(x) => if list.contains(x) {
            list
        } else {
            list.push(x)
        },
        None => list,
    }
}

/// The locales that a localized value may be written for, the preferred first:
/// the primary locale, its language before `_`, its language before `-`, each
/// once.
pub open spec fn preferences_of(primary: Option<Seq<char>>) -> Seq<Seq<char>> {
    match primary {
        None => Seq::empty(),
        Some(loc) => with_new(
            with_new(seq![loc], language_before(loc, '_')),
            language_before(loc, '-'),
        ),
    }
}

/// Cleans a raw locale.
pub fn clean_locale(raw: &str) -> (r: Option<String>)
    ensures
        opt_view(r) == clean_locale_of(raw@),
{
    let cs = chars_of(raw);
    let (lo, hi) = trim_range(&cs, 0, cs.len());
    let dot = find_char(&cs, lo, hi, '.');
    let at = find_char(&cs, lo, dot, '@');
    if at > lo {
        Some(string_of_range(&cs, lo, at))
    } else {
        None
    }
}

fn language_of(loc: &str, sep: char) -> (r: Option<String>)
    ensures
        opt_view(r) == language_before(loc@, sep),
{
    let cs = chars_of(loc);
    let p = find_char(&cs, 0, cs.len(), sep);
    if 0 < p && p < cs.len() {
        Some(string_of_range(&cs, 0, p))
    } else {
        None
    }
}

/// Whether `item` is one of `list`.
pub fn list_contains(list: &Vec<String>, item: &str) -> (b: bool)
    ensures
        b == seq_view(list@).contains(item@),
{
    let mut i: usize = 0;
    while i < list.len()
        invariant
            i <= list.len(),
            forall|k: int| 0 <= k < i ==> seq_view(list@)[k] != item@,
        decreases list.len() - i,
    {
        if str_equal(list[i].as_str(), item) {
            assert(seq_view(list@)[i as int] == item@);
            return true;
        }
        i += 1;
    }
    false
}

fn push_new(list: &mut Vec<String>, item: Option<String>)
    ensures
        seq_view(final(list)@) == with_new(seq_view(old(list)@), opt_view(item)),
{
    match item {
        Some(x) => {
            if !list_contains(list, x.as_str()) {
                proof {
                    lemma_seq_view_push(list@, x);
                }
                list.push(x);
            }
        },
        None => {},
    }
}

/// The locale preferences that follow from the settings `LC_ALL`,
/// `LC_MESSAGES` and `LANG`, each absent or as it was set.
pub fn preferred_locales(lc_all: Option<&str>, lc_messages: Option<&str>, lang: Option<&str>) -> (prefs:
    Vec<String>)
    ensures
        seq_view(prefs@) == preferences_of(
            primary_locale_of(
                match lc_all {
                    Some(s) => Some(s@),
                    None => None,
                },
                match lc_messages {
                    Some(s) => Some(s@),
                    None => None,
                },
                match lang {
                    Some(s) => Some(s@),
                    None => None,
                },
            ),
        ),
{
    let mut primary: Option<String> = match lc_all {
        Some(s) => clean_locale(s),
        None => None,
    };
    if primary.is_none() {
        primary =
        match lc_messages {
            Some(s) => clean_locale(s),
            None => None,
        };
    }
    if primary.is_none() {
        primary =
        match lang {
            Some(s) => clean_locale(s),
            None => None,
        };
    }
    let mut prefs: Vec<String> = Vec::new();
    match primary {
        None => {
            assert(seq_view(prefs@) =~= Seq::<Seq<char>>::empty());
        },
        Some(loc) => {
            let by_underscore = language_of(loc.as_str(), '_');
            let by_hyphen = language_of(loc.as_str(), '-');
            proof {
                lemma_seq_view_push(prefs@, loc);
                assert(seq_view(prefs@.push(loc)) =~= seq![loc@]);
            }
            prefs.push(loc);
            push_new(&mut prefs, by_underscore);
            push_new(&mut prefs, by_hyphen);
        },
    }
    prefs
}

// ---------------------------------------------------------------------------
// Localized fields
// ---------------------------------------------------------------------------

/// A field that may be written once plainly and once for each locale: its
/// plain value, and the value for the most preferred locale seen so far with
/// the rank of that locale.
pub struct Localized {
    pub default: Option<String>,
    pub best_rank: Option<usize>,
    pub best_value: Option<String>,
}

/// What a [`Localized`] holds.
pub struct LocalizedView {
    pub default: Option<Seq<char>>,
    pub best_rank: Option<int>,
    pub best_value: Option<Seq<char>>,
}

impl View for Localized {
    type V = LocalizedView;

    open spec fn view(&self) -> LocalizedView {
        LocalizedView {
            default: opt_view(self.default),
            best_rank: match self.best_rank {
                Some(r) => Some(r as int),
                None => None,
            },
            best_value: opt_view(self.best_value),
        }
    }
}

/// A field that was not written.
pub open spec fn unset() -> LocalizedView {
    LocalizedView { default: None, best_rank: None, best_value: None }
}

/// The rank of `locale` among `prefs`: its first index, if it is one of them.
pub open spec fn rank_of(prefs: Seq<Seq<char>>, locale: Seq<char>) -> Option<int> {
    first_match(|i: int| prefs[i] == locale, 0, prefs.len() as int)
}

/// The field after one more line: a plain value replaces the plain value; a
/// value for a locale is kept where that locale is preferred and ranks before
/// the one kept so far.
pub open spec fn localized_set(
    f: LocalizedView,
    locale: Option<Seq<char>>,
    value: Seq<char>,
    prefs: Seq<Seq<char>>,
) -> LocalizedView {
    match locale {
        None => LocalizedView { default: Some(value), ..f },
        Some(loc) => match rank_of(prefs, loc) {
            Some(r) => if f.best_rank is None || r < f.best_rank->0 {
                LocalizedView { best_rank: Some(r), best_value: Some(value), ..f }
            } else {
                f
            },
            None => f,
        },
    }
}

/// The value of the field: the best localized value, else the plain one.
pub open spec fn resolved(f: LocalizedView) -> Option<Seq<char>> {
    if f.best_value is Some {
        f.best_value
    } else {
        f.default
    }
}

/// The rank of `locale` among `prefs`.
pub fn locale_rank(prefs: &[String], locale: &str) -> (r: Option<usize>)
    ensures
        match r {
            Some(i) => rank_of(seq_view(prefs@), locale@) == Some(i as int),
            None => rank_of(seq_view(prefs@), locale@) is None,
        },
{
    let ghost pv = seq_view(prefs@);
    let ghost pred = |i: int| pv[i] == locale@;
    let mut i: usize = 0;
    while i < prefs.len()
        invariant
            i <= prefs.len(),
            pv == seq_view(prefs@),
            pred == (|i: int| pv[i] == locale@),
            forall|k: int| 0 <= k < i ==> !#[trigger] pred(k),
        decreases prefs.len() - i,
    {
        if str_equal(prefs[i].as_str(), locale) {
            proof {
                assert(pred(i as int));
                lemma_first_match_is(pred, 0, pv.len() as int, i as int);
            }
            return Some(i);
        }
        assert(!pred(i as int));
        i += 1;
    }
    proof {
        lemma_first_match_none(pred, 0, pv.len() as int);
    }
    None
}

impl Localized {
    /// A field that was not written.
    pub fn new() -> (f: Self)
        ensures
            f@ == unset(),
    {
        Localized { default: None, best_rank: None, best_value: None }
    }

    /// Takes in the value of one more line.
    pub fn set(&mut self, locale: &Option<String>, value: String, prefs: &[String])
        ensures
            final(self)@ == localized_set(old(self)@, opt_view(*locale), value@, seq_view(prefs@)),
    {
        match locale {
            None => {
                self.default = Some(value);
            },
            Some(loc) => {
                match locale_rank(prefs, loc.as_str()) {
                    Some(r) => {
                        let better = match self.best_rank {
                            None => true,
                            Some(b) => r < b,
                        };
                        if better {
                            self.best_rank = Some(r);
                            self.best_value = Some(value);
                        }
                    },
                    None => {},
                }
            },
        }
    }

    /// The value of the field.
    pub fn resolve(&self) -> (r: Option<String>)
        ensures
            opt_view(r) == resolved(self@),
    {
        match &self.best_value {
            Some(v) => Some(clone_string(v)),
            None => clone_opt(&self.default),
        }
    }
}

} // verus!
