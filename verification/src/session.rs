//! The candidates of the previous query, kept so that a query that refines it
//! need not look at the whole index again.

use vstd::prelude::*;
use vstd::utf8::encode_utf8;
use crate::empty_query::EmptyQueryMode;
use crate::frequency::Usage;
use crate::models::{DesktopEntryIndexed, DesktopEntryOut, IndexedView};
use crate::search::{
    all_indices, collect_outs, empty_query_entries, empty_query_picks, filter_candidates,
    index_range, ints, matches_all, matching, normalize_query, outs_at, query_tokens,
    rank_candidates, top_picks, within,
};
use crate::strmap::StrMap;
use crate::text::{
    char_is_whitespace, char_lowercase, chars_of, drop_space, is_whitespace, push_lowercase,
    occurs_at, seq_view, skip_space, stands_at, str_equal, trim_range,
};

verus! {

// ---------------------------------------------------------------------------
// The key of a query
// ---------------------------------------------------------------------------

/// `s[i..hi]` in lowercase with each run of white space as one space;
/// `after_space` says that the character before `i` was white space.
pub open spec fn key_from(s: Seq<char>, i: int, hi: int, after_space: bool) -> Seq<char>
    decreases hi - i,
{
    if i >= hi {
        Seq::empty()
    } else if char_is_whitespace(s[i]) {
        (if after_space {
            Seq::empty()
        } else {
            seq![' ']
        }) + key_from(s, i + 1, hi, true)
    } else {
        char_lowercase(s[i]) + key_from(s, i + 1, hi, false)
    }
}

/// The key of a query: the query trimmed, in lowercase, with each run of
/// white space inside it as one space.
pub open spec fn query_key_of(q: Seq<char>) -> Seq<char> {
    let lo = skip_space(q, 0, q.len() as int);
    key_from(q, lo, drop_space(q, lo, q.len() as int), false)
}

/// The key of `query`.
pub fn query_key(query: &str) -> (key: String)
    ensures
        key@ == query_key_of(query@),
{
    let cs = chars_of(query);
    let (lo, hi) = trim_range(&cs, 0, cs.len());
    let mut out = String::new();
    let mut after_space = false;
    let mut i: usize = lo;
    assert(out@ + key_from(cs@, lo as int, hi as int, false) =~= key_from(
        cs@,
        lo as int,
        hi as int,
        false,
    ));
    while i < hi
        invariant
            lo <= i <= hi <= cs.len(),
            key_from(cs@, lo as int, hi as int, false) == out@ + key_from(
                cs@,
                i as int,
                hi as int,
                after_space,
            ),
        decreases hi - i,
    {
        let c = cs[i];
        let ghost before = out@;
        if is_whitespace(c) {
            if !after_space {
                out.push(' ');
                assert(before + (seq![' '] + key_from(cs@, i + 1, hi as int, true)) =~= out@
                    + key_from(cs@, i + 1, hi as int, true));
            } else {
                assert(before + (Seq::<char>::empty() + key_from(cs@, i + 1, hi as int, true))
                    =~= out@ + key_from(cs@, i + 1, hi as int, true));
            }
            after_space = true;
        } else {
            push_lowercase(&mut out, c);
            assert(before + (char_lowercase(c) + key_from(cs@, i + 1, hi as int, false)) =~= out@ + key_from(
                cs@,
                i + 1,
                hi as int,
                false,
            ));
            after_space = false;
        }
        i += 1;
    }
    assert(out@ + Seq::<char>::empty() =~= out@);
    out
}

// ---------------------------------------------------------------------------
// Refinement
// ---------------------------------------------------------------------------

/// `prev` is not empty, and each of its tokens is one of `tokens`.
pub open spec fn contains_all(tokens: Seq<Seq<char>>, prev: Seq<Seq<char>>) -> bool {
    prev.len() > 0 && forall|i: int| 0 <= i < prev.len() ==> tokens.contains(#[trigger] prev[i])
}

/// The bytes of `a` begin with the bytes of `b`.
pub open spec fn begins_with(a: Seq<char>, b: Seq<char>) -> bool {
    occurs_at(encode_utf8(a), encode_utf8(b), 0)
}

/// Two single tokens, of which the new one begins with the previous one.
pub open spec fn lengthens(tokens: Seq<Seq<char>>, prev: Seq<Seq<char>>) -> bool {
    prev.len() == 1 && tokens.len() == 1 && prev[0].len() > 0 && begins_with(tokens[0], prev[0])
}

/// The new key is longer than the previous one, which is not empty, and
/// begins with it.
pub open spec fn extends_key(key: Seq<char>, prev_key: Seq<char>) -> bool {
    prev_key.len() > 0 && encode_utf8(key).len() > encode_utf8(prev_key).len() && begins_with(
        key,
        prev_key,
    )
}

/// A query with `tokens` and `key` refines the previous one: it has all of
/// its tokens, or it lengthens its single token, or it extends its key.
pub open spec fn refines(
    prev_tokens: Seq<Seq<char>>,
    prev_key: Seq<char>,
    tokens: Seq<Seq<char>>,
    key: Seq<char>,
) -> bool {
    contains_all(tokens, prev_tokens) || lengthens(tokens, prev_tokens) || extends_key(key, prev_key)
}

/// Whether `prev` is not empty and each of its tokens is one of `tokens`.
pub fn tokens_contain_all(tokens: &[String], prev: &[String]) -> (b: bool)
    ensures
        b == contains_all(seq_view(tokens@), seq_view(prev@)),
{
    if prev.len() == 0 {
        return false;
    }
    let ghost tv = seq_view(tokens@);
    let ghost pv = seq_view(prev@);
    let mut i: usize = 0;
    while i < prev.len()
        invariant
            i <= prev.len(),
            tv == seq_view(tokens@),
            pv == seq_view(prev@),
            forall|j: int| 0 <= j < i ==> tv.contains(#[trigger] pv[j]),
        decreases prev.len() - i,
    {
        let mut found = false;
        let mut k: usize = 0;
        while k < tokens.len() && !found
            invariant
                k <= tokens.len(),
                i < prev.len(),
                tv == seq_view(tokens@),
                pv == seq_view(prev@),
                found ==> tv.contains(pv[i as int]),
                !found ==> forall|m: int| 0 <= m < k ==> tv[m] != pv[i as int],
            decreases tokens.len() - k + (if found { 0int } else { 1int }),
        {
            if str_equal(tokens[k].as_str(), prev[i].as_str()) {
                assert(tv[k as int] == pv[i as int]);
                found = true;
            } else {
                k += 1;
            }
        }
        if !found {
            assert(!tv.contains(pv[i as int]));
            return false;
        }
        i += 1;
    }
    true
}

/// Whether a query with `tokens` and `key` refines the previous one.
pub fn is_refinement(prev_tokens: &[String], prev_key: &str, tokens: &[String], key: &str) -> (b:
    bool)
    ensures
        b == refines(seq_view(prev_tokens@), prev_key@, seq_view(tokens@), key@),
{
    if tokens_contain_all(tokens, prev_tokens) {
        return true;
    }
    if prev_tokens.len() == 1 && tokens.len() == 1 && !prev_tokens[0].as_str().is_empty()
        && stands_at(tokens[0].as_str().as_bytes(), prev_tokens[0].as_str().as_bytes(), 0) {
        return true;
    }
    !prev_key.is_empty() && key.as_bytes().len() > prev_key.as_bytes().len() && stands_at(
        key.as_bytes(),
        prev_key.as_bytes(),
        0,
    )
}

// ---------------------------------------------------------------------------
// The index with its session
// ---------------------------------------------------------------------------

/// What is remembered of the previous query.
pub struct SessionView {
    pub last_tokens: Seq<Seq<char>>,
    pub last_candidates: Seq<int>,
    pub last_query_key: Seq<char>,
}

/// What an [`IndexState`] holds.
pub struct IndexStateView {
    pub entries: Seq<IndexedView>,
    pub session: SessionView,
}

/// The session of an index that has answered no query, or whose last query
/// had no tokens.
pub open spec fn no_session() -> SessionView {
    SessionView {
        last_tokens: Seq::empty(),
        last_candidates: Seq::empty(),
        last_query_key: Seq::empty(),
    }
}

/// The candidates from which a query with `tokens` and `key` starts: those of
/// the previous query where it refines that query, else the whole index.
pub open spec fn start_of(s: IndexStateView, tokens: Seq<Seq<char>>, key: Seq<char>) -> Seq<int> {
    if refines(s.session.last_tokens, s.session.last_query_key, tokens, key) {
        s.session.last_candidates
    } else {
        all_indices(s.entries.len() as int)
    }
}

/// The candidates of `query`: those from which it starts whose haystack holds
/// every token at a boundary.
pub open spec fn candidates_of(s: IndexStateView, query: Seq<char>) -> Seq<int> {
    matching(
        s.entries,
        query_tokens(query),
        start_of(s, query_tokens(query), query_key_of(query)),
    )
}

/// The session after `query`: nothing for a query without tokens; else its
/// tokens, its candidates and its key.
pub open spec fn session_after(s: IndexStateView, query: Seq<char>) -> SessionView {
    if query_tokens(query).len() == 0 {
        no_session()
    } else {
        SessionView {
            last_tokens: query_tokens(query),
            last_candidates: candidates_of(s, query),
            last_query_key: query_key_of(query),
        }
    }
}

/// The indexes of the entries that `query` returns, in their order: for a
/// query without tokens what the empty query lists (nothing for a limit of
/// 0); else the `limit` best of its candidates.
pub open spec fn session_picks(
    s: IndexStateView,
    query: Seq<char>,
    limit: int,
    usage: Map<Seq<char>, Usage>,
    mode: EmptyQueryMode,
    now_sec: u64,
) -> Seq<int> {
    if query_tokens(query).len() == 0 {
        if limit == 0 {
            Seq::empty()
        } else {
            empty_query_picks(s.entries, usage, mode, limit)
        }
    } else {
        top_picks(s.entries, query_tokens(query), usage, now_sec, candidates_of(s, query), limit)
    }
}

/// An index held in memory, with what it remembers of the previous query.
pub struct IndexState {
    entries: Vec<DesktopEntryIndexed>,
    last_tokens: Vec<String>,
    last_candidates: Vec<usize>,
    last_query_key: String,
}

impl View for IndexState {
    type V = IndexStateView;

    closed spec fn view(&self) -> IndexStateView {
        IndexStateView {
            entries: seq_view(self.entries@),
            session: SessionView {
                last_tokens: seq_view(self.last_tokens@),
                last_candidates: ints(self.last_candidates@),
                last_query_key: self.last_query_key@,
            },
        }
    }
}

impl IndexState {
    /// The candidates remembered are indexes of entries.
    #[verifier::type_invariant]
    spec fn candidates_in_range(self) -> bool {
        within(ints(self.last_candidates@), self.entries@.len() as int)
    }

    /// An index of `entries` that has answered no query.
    pub fn new(entries: Vec<DesktopEntryIndexed>) -> (s: Self)
        ensures
            s@.entries == seq_view(entries@),
            s@.session == no_session(),
    {
        let s = IndexState {
            entries,
            last_tokens: Vec::new(),
            last_candidates: Vec::new(),
            last_query_key: String::new(),
        };
        assert(s@.session.last_tokens =~= Seq::<Seq<char>>::empty());
        assert(s@.session.last_candidates =~= Seq::<int>::empty());
        assert(s@.session.last_query_key =~= Seq::<char>::empty());
        s
    }

    /// The entries of the index.
    pub fn entries(&self) -> (r: &Vec<DesktopEntryIndexed>)
        ensures
            seq_view(r@) == self@.entries,
    {
        &self.entries
    }

    /// The candidates of the previous query.
    pub fn last_candidates(&self) -> (r: &Vec<usize>)
        ensures
            ints(r@) == self@.session.last_candidates,
            within(ints(r@), self@.entries.len() as int),
    {
        proof {
            use_type_invariant(self);
            assert(seq_view(self.entries@).len() == self.entries@.len());
        }
        &self.last_candidates
    }

    /// Answers `query` at time `now_sec` and remembers its candidates.
    pub fn search(
        &mut self,
        query: &str,
        limit: usize,
        usage: &StrMap<Usage>,
        empty_mode: EmptyQueryMode,
        now_sec: u64,
    ) -> (r: Vec<DesktopEntryOut>)
        ensures
            final(self)@.entries == old(self)@.entries,
            final(self)@.session == session_after(old(self)@, query@),
            seq_view(r@) == outs_at(
                old(self)@.entries,
                session_picks(old(self)@, query@, limit as int, usage@, empty_mode, now_sec),
            ),
    {
        proof {
            use_type_invariant(&*self);
        }
        let key = query_key(query);
        let tokens = normalize_query(query);
        if tokens.len() == 0 {
            let r = if limit == 0 {
                let r: Vec<DesktopEntryOut> = Vec::new();
                assert(seq_view(r@) =~= outs_at(old(self)@.entries, Seq::empty()));
                r
            } else {
                empty_query_entries(self.entries.as_slice(), limit, usage, empty_mode)
            };
            self.last_candidates = Vec::new();
            self.last_tokens = Vec::new();
            self.last_query_key = String::new();
            proof {
                assert(self@.session.last_tokens =~= Seq::<Seq<char>>::empty());
                assert(self@.session.last_candidates =~= Seq::<int>::empty());
                assert(self@.session.last_query_key =~= Seq::<char>::empty());
            }
            return r;
        }
        let reuse = is_refinement(
            self.last_tokens.as_slice(),
            self.last_query_key.as_str(),
            tokens.as_slice(),
            key.as_str(),
        );
        let candidates = if reuse {
            filter_candidates(self.entries.as_slice(), tokens.as_slice(), &self.last_candidates)
        } else {
            let all = index_range(self.entries.len());
            filter_candidates(self.entries.as_slice(), tokens.as_slice(), &all)
        };
        let picks = rank_candidates(
            self.entries.as_slice(),
            tokens.as_slice(),
            usage,
            now_sec,
            &candidates,
            limit,
        );
        let r = collect_outs(self.entries.as_slice(), &picks);
        self.last_candidates = candidates;
        self.last_tokens = tokens;
        self.last_query_key = key;
        r
    }
}

// ---------------------------------------------------------------------------
// Refinement does not show
// ---------------------------------------------------------------------------

/// The index with nothing remembered.
pub open spec fn fresh(entries: Seq<IndexedView>) -> IndexStateView {
    IndexStateView { entries, session: no_session() }
}

/// What the session remembers is true of the index: the candidates are the
/// entries whose haystack holds every remembered token at a boundary, and
/// where no token is remembered nothing is.
pub open spec fn faithful(s: IndexStateView) -> bool {
    if s.session.last_tokens.len() == 0 {
        s.session == no_session()
    } else {
        s.session.last_candidates == matching(
            s.entries,
            s.session.last_tokens,
            all_indices(s.entries.len() as int),
        )
    }
}

/// Every entry whose haystack holds each of `tokens` at a boundary holds each
/// of `prev` at a boundary.
pub open spec fn covered(entries: Seq<IndexedView>, prev: Seq<Seq<char>>, tokens: Seq<Seq<char>>) -> bool {
    forall|i: int|
        0 <= i < entries.len() && matches_all((#[trigger] entries[i]).norm, tokens) ==> matches_all(
            entries[i].norm,
            prev,
        )
}

/// Each of `prev` is the beginning of one of `tokens`.
pub open spec fn begun_by(tokens: Seq<Seq<char>>, prev: Seq<Seq<char>>) -> bool {
    forall|i: int|
        0 <= i < prev.len() ==> exists|j: int|
            0 <= j < tokens.len() && begins_with(#[trigger] tokens[j], #[trigger] prev[i])
}

/// A query each of whose previous tokens begins one of its own can only lose
/// candidates: where the longer token stands at a boundary, the shorter one
/// does.
pub proof fn lemma_begun_covered(
    entries: Seq<IndexedView>,
    prev: Seq<Seq<char>>,
    tokens: Seq<Seq<char>>,
)
    requires
        begun_by(tokens, prev),
    ensures
        covered(entries, prev, tokens),
{
    assert forall|i: int|
        0 <= i < entries.len() && matches_all((#[trigger] entries[i]).norm, tokens) implies matches_all(
        entries[i].norm,
        prev,
    ) by {
        let hay = encode_utf8(entries[i].norm);
        assert forall|k: int| 0 <= k < prev.len() implies crate::search::has_token_prefix(
            entries[i].norm,
            #[trigger] prev[k],
        ) by {
            let j = choose|j: int|
                0 <= j < tokens.len() && begins_with(#[trigger] tokens[j], prev[k]);
            let a = encode_utf8(prev[k]);
            let b = encode_utf8(tokens[j]);
            assert(crate::search::has_token_prefix(entries[i].norm, tokens[j]));
            let p = choose|p: int|
                crate::text::occurs_at_boundary(hay, b, crate::search::name_marks(), p);
            assert forall|m: int| 0 <= m < a.len() implies hay[p + m] == #[trigger] a[m] by {
                assert(b[0 + m] == a[m]);
                assert(hay[p + m] == b[m]);
            }
            assert(crate::text::occurs_at_boundary(hay, a, crate::search::name_marks(), p));
        }
    }
}

/// A query that has all tokens of the previous one can only lose candidates.
pub proof fn lemma_superset_covered(
    entries: Seq<IndexedView>,
    prev: Seq<Seq<char>>,
    tokens: Seq<Seq<char>>,
)
    requires
        contains_all(tokens, prev),
    ensures
        covered(entries, prev, tokens),
{
    assert forall|i: int|
        0 <= i < entries.len() && matches_all((#[trigger] entries[i]).norm, tokens) implies matches_all(
        entries[i].norm,
        prev,
    ) by {
        assert forall|k: int| 0 <= k < prev.len() implies crate::search::has_token_prefix(
            entries[i].norm,
            #[trigger] prev[k],
        ) by {
            assert(tokens.contains(prev[k]));
            let m = choose|m: int| 0 <= m < tokens.len() && tokens[m] == prev[k];
            assert(crate::search::has_token_prefix(entries[i].norm, tokens[m]));
        }
    }
}

/// A query whose single token lengthens the single token of the previous one
/// can only lose candidates.
pub proof fn lemma_lengthening_covered(
    entries: Seq<IndexedView>,
    prev: Seq<Seq<char>>,
    tokens: Seq<Seq<char>>,
)
    requires
        lengthens(tokens, prev),
    ensures
        covered(entries, prev, tokens),
{
    let a = encode_utf8(prev[0]);
    let b = encode_utf8(tokens[0]);
    assert forall|i: int|
        0 <= i < entries.len() && matches_all((#[trigger] entries[i]).norm, tokens) implies matches_all(
        entries[i].norm,
        prev,
    ) by {
        let hay = encode_utf8(entries[i].norm);
        assert(crate::search::has_token_prefix(entries[i].norm, tokens[0]));
        let p = choose|p: int|
            crate::text::occurs_at_boundary(hay, b, crate::search::name_marks(), p);
        assert forall|k: int| 0 <= k < a.len() implies hay[p + k] == #[trigger] a[k] by {
            assert(b[0 + k] == a[k]);
            assert(hay[p + k] == b[k]);
        }
        assert(crate::text::occurs_at_boundary(hay, a, crate::search::name_marks(), p));
        assert forall|k: int| 0 <= k < prev.len() implies crate::search::has_token_prefix(
            entries[i].norm,
            #[trigger] prev[k],
        ) by {
            assert(prev[k] == prev[0]);
        }
    }
}

/// To filter what an earlier, weaker filter kept is to filter the whole.
pub proof fn lemma_matching_twice(
    entries: Seq<IndexedView>,
    prev: Seq<Seq<char>>,
    tokens: Seq<Seq<char>>,
    from: Seq<int>,
)
    requires
        covered(entries, prev, tokens),
        within(from, entries.len() as int),
    ensures
        matching(entries, tokens, matching(entries, prev, from)) == matching(entries, tokens, from),
    decreases from.len(),
{
    if from.len() > 0 {
        let head = from.drop_last();
        let i = from.last();
        assert(within(head, entries.len() as int)) by {
            assert forall|k: int| 0 <= k < head.len() implies 0 <= #[trigger] head[k]
                < entries.len() by {
                assert(head[k] == from[k]);
            }
        }
        assert(0 <= from[from.len() - 1] < entries.len());
        lemma_matching_twice(entries, prev, tokens, head);
        let kept = matching(entries, prev, head);
        if matches_all(entries[i].norm, prev) {
            assert(kept.push(i).drop_last() =~= kept);
        }
    }
}

/// Filter soundness, with a session: every entry that a query with tokens
/// returns is an entry of the index whose haystack holds every token of the
/// query at a boundary, whatever the session remembers.
pub proof fn lemma_session_returns_matches(
    s: IndexStateView,
    query: Seq<char>,
    limit: int,
    usage: Map<Seq<char>, Usage>,
    mode: EmptyQueryMode,
    now_sec: u64,
)
    requires
        query_tokens(query).len() > 0,
        within(s.session.last_candidates, s.entries.len() as int),
    ensures
        forall|k: int|
            0 <= k < session_picks(s, query, limit, usage, mode, now_sec).len() ==> {
                let i = #[trigger] session_picks(s, query, limit, usage, mode, now_sec)[k];
                0 <= i < s.entries.len() && matches_all(s.entries[i].norm, query_tokens(query))
            },
{
    let tokens = query_tokens(query);
    let start = start_of(s, tokens, query_key_of(query));
    let cands = candidates_of(s, query);
    let picks = session_picks(s, query, limit, usage, mode, now_sec);
    crate::search::lemma_top_picks_are_candidates(s.entries, tokens, usage, now_sec, cands, limit);
    crate::search::lemma_matching(s.entries, tokens, start);
    assert forall|k: int| 0 <= k < picks.len() implies {
        let i = #[trigger] picks[k];
        0 <= i < s.entries.len() && matches_all(s.entries[i].norm, tokens)
    } by {
        let i = picks[k];
        assert(cands.contains(i));
        assert(start.contains(i));
        let m = choose|m: int| 0 <= m < start.len() && start[m] == i;
        assert(0 <= start[m] < s.entries.len());
    }
}

/// An index that remembers nothing answers as a search of its entries does.
pub proof fn lemma_fresh_session_is_search(
    entries: Seq<IndexedView>,
    query: Seq<char>,
    limit: int,
    usage: Map<Seq<char>, Usage>,
    mode: EmptyQueryMode,
    now_sec: u64,
)
    requires
        0 <= limit,
    ensures
        session_picks(fresh(entries), query, limit, usage, mode, now_sec)
            == crate::search::search_picks(entries, query, limit, usage, mode, now_sec),
{
    let tokens = query_tokens(query);
    assert(!refines(no_session().last_tokens, no_session().last_query_key, tokens, query_key_of(query)));
    if tokens.len() > 0 && limit == 0 {
        let cands = candidates_of(fresh(entries), query);
        assert(top_picks(entries, tokens, usage, now_sec, cands, 0) =~= Seq::<int>::empty());
    }
}

/// An index that has answered no query remembers nothing false.
pub proof fn lemma_fresh_is_faithful(entries: Seq<IndexedView>)
    ensures
        faithful(fresh(entries)),
{
}

/// Incremental equivalence: a query put to an index that remembers the
/// previous query returns what it returns from an index that remembers
/// nothing, and leaves the same session behind. This holds of every query that
/// does not refine the previous one, of every query that has all its tokens,
/// and of every query that lengthens its single token. Of a query that only
/// extends the previous key it holds on every index on which the new tokens
/// cannot match where the previous ones do not: on every index, where each
/// previous token begins one of the new ones ([`lemma_begun_covered`]).
pub proof fn lemma_refinement_is_invisible(
    s: IndexStateView,
    query: Seq<char>,
    limit: int,
    usage: Map<Seq<char>, Usage>,
    mode: EmptyQueryMode,
    now_sec: u64,
)
    requires
        faithful(s),
        contains_all(query_tokens(query), s.session.last_tokens) || lengthens(
            query_tokens(query),
            s.session.last_tokens,
        ) || !extends_key(query_key_of(query), s.session.last_query_key) || covered(
            s.entries,
            s.session.last_tokens,
            query_tokens(query),
        ),
    ensures
        session_picks(s, query, limit, usage, mode, now_sec) == session_picks(
            fresh(s.entries),
            query,
            limit,
            usage,
            mode,
            now_sec,
        ),
        session_after(s, query) == session_after(fresh(s.entries), query),
        faithful(IndexStateView { entries: s.entries, session: session_after(s, query) }),
{
    let tokens = query_tokens(query);
    let key = query_key_of(query);
    let prev = s.session.last_tokens;
    let all = all_indices(s.entries.len() as int);
    assert(!refines(no_session().last_tokens, no_session().last_query_key, tokens, key));
    if tokens.len() > 0 && refines(prev, s.session.last_query_key, tokens, key) {
        if contains_all(tokens, prev) {
            lemma_superset_covered(s.entries, prev, tokens);
        } else if lengthens(tokens, prev) {
            lemma_lengthening_covered(s.entries, prev, tokens);
        }
        assert(prev.len() > 0);
        lemma_matching_twice(s.entries, prev, tokens, all);
    }
}

} // verus!
