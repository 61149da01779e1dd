//! The ranked token search: query tokens, the boundary filter, the score, and
//! the selection of the best entries.

use vstd::prelude::*;
use vstd::utf8::encode_utf8;
use crate::empty_query::EmptyQueryMode;
use crate::frequency::{lookup_usage, unix_seconds_now, Usage, usage_of};
use crate::models::{DesktopEntryIndexed, DesktopEntryOut, EntryView, IndexedView};
use crate::order::{
    lemma_placed_prefix, lemma_ranked, lemma_ranked_len, place, prefix, Ranked, ranked,
    strictly_ranked,
};
use crate::strmap::StrMap;
use crate::text::{
    lemma_boundary_occurrence, bytes_before, char_is_alphanumeric, char_lowercase, chars_of, drop_space, find_at_boundary,
    find_bytes, first_boundary_occurrence, first_occurrence, is_alphanumeric, lemma_contains_last,
    lemma_contains_push, lemma_encode_injective, lemma_first_match, lemma_lex_irreflexive_from,
    lemma_lex_total_from, lemma_lex_transitive_from, lemma_seq_view_push, lex_lt,
    push_lowercase, occurs_at_boundary, seq_view, skip_space, trim_range,
};

verus! {

// ---------------------------------------------------------------------------
// Query tokens
// ---------------------------------------------------------------------------

/// The order of query tokens: the longer first (in bytes), and of two of one
/// length the one that comes first in the dictionary.
pub open spec fn token_precedes(a: Seq<char>, b: Seq<char>) -> bool {
    let x = encode_utf8(a);
    let y = encode_utf8(b);
    x.len() > y.len() || (x.len() == y.len() && lex_lt(x, y))
}

impl Ranked for String {
    open spec fn precedes(a: Seq<char>, b: Seq<char>) -> bool {
        token_precedes(a, b)
    }

    fn ranks_before(&self, other: &Self) -> (b: bool) {
        let x = self.as_str().as_bytes();
        let y = other.as_str().as_bytes();
        x.len() > y.len() || (x.len() == y.len() && bytes_before(x, y))
    }

    proof fn lemma_transitive(a: Seq<char>, b: Seq<char>, c: Seq<char>) {
        let x = encode_utf8(a);
        let y = encode_utf8(b);
        let z = encode_utf8(c);
        if x.len() == y.len() && y.len() == z.len() {
            lemma_lex_transitive_from(x, y, z, 0);
        }
    }

    proof fn lemma_irreflexive(a: Seq<char>) {
        lemma_lex_irreflexive_from(encode_utf8(a), 0);
    }

    proof fn lemma_total(a: Seq<char>, b: Seq<char>) {
        lemma_lex_total_from(encode_utf8(a), encode_utf8(b), 0);
        lemma_encode_injective(a, b);
    }
}

/// The runs of letters and digits of `s[i..hi]`, each in lowercase, in their
/// order; `buf` is the run that was begun before `i`.
pub open spec fn runs_in(s: Seq<char>, i: int, hi: int, buf: Seq<char>) -> Seq<Seq<char>>
    decreases hi - i,
{
    if i >= hi {
        if buf.len() > 0 {
            seq![buf]
        } else {
            Seq::empty()
        }
    } else if char_is_alphanumeric(s[i]) {
        runs_in(s, i + 1, hi, buf + char_lowercase(s[i]))
    } else if buf.len() > 0 {
        seq![buf] + runs_in(s, i + 1, hi, Seq::empty())
    } else {
        runs_in(s, i + 1, hi, Seq::empty())
    }
}

/// The runs of letters and digits of the trimmed query, each in lowercase.
pub open spec fn query_runs(q: Seq<char>) -> Seq<Seq<char>> {
    let lo = skip_space(q, 0, q.len() as int);
    runs_in(q, lo, drop_space(q, lo, q.len() as int), Seq::empty())
}

/// The tokens of a query: its distinct runs, the most selective first.
pub open spec fn query_tokens(q: Seq<char>) -> Seq<Seq<char>> {
    ranked::<String>(query_runs(q))
}

/// The tokens of `query`: its runs of letters and digits in lowercase, each
/// once, ordered by falling length and then by the dictionary.
pub fn normalize_query(query: &str) -> (tokens: Vec<String>)
    ensures
        seq_view(tokens@) == query_tokens(query@),
{
    let cs = chars_of(query);
    let (lo, hi) = trim_range(&cs, 0, cs.len());
    let mut tokens: Vec<String> = Vec::new();
    let mut buf = String::new();
    let ghost mut done: Seq<Seq<char>> = Seq::empty();
    assert(seq_view(tokens@) =~= ranked::<String>(done));
    let mut i: usize = lo;
    while i < hi
        invariant
            lo <= i <= hi <= cs.len(),
            seq_view(tokens@) == ranked::<String>(done),
            runs_in(cs@, lo as int, hi as int, Seq::empty()) == done + runs_in(
                cs@,
                i as int,
                hi as int,
                buf@,
            ),
        decreases hi - i,
    {
        let c = cs[i];
        let ghost buf0 = buf@;
        if is_alphanumeric(c) {
            push_lowercase(&mut buf, c);
            assert(runs_in(cs@, i as int, hi as int, buf0) == runs_in(cs@, i + 1, hi as int, buf@));
        } else if !buf.as_str().is_empty() {
            let mut run = String::new();
            core::mem::swap(&mut buf, &mut run);
            proof {
                let rest = runs_in(cs@, i + 1, hi as int, Seq::empty());
                assert(buf@ =~= Seq::<char>::empty());
                assert(runs_in(cs@, i as int, hi as int, buf0) == seq![run@] + rest);
                assert(done + (seq![run@] + rest) =~= done.push(run@) + rest);
                assert(done.push(run@).drop_last() =~= done);
                done = done.push(run@);
            }
            place(&mut tokens, run);
        } else {
            assert(buf@ =~= Seq::<char>::empty());
            assert(runs_in(cs@, i as int, hi as int, buf0) == runs_in(cs@, i + 1, hi as int, buf@));
        }
        i += 1;
    }
    if !buf.as_str().is_empty() {
        proof {
            assert(done + seq![buf@] =~= done.push(buf@));
            assert(done.push(buf@).drop_last() =~= done);
            done = done.push(buf@);
        }
        place(&mut tokens, buf);
    } else {
        assert(done + Seq::<Seq<char>>::empty() =~= done);
    }
    tokens
}

// ---------------------------------------------------------------------------
// Boundary matches
// ---------------------------------------------------------------------------

/// The bytes before which a word of a name or of a haystack begins: the space.
pub open spec fn name_marks() -> Seq<u8> {
    seq![32u8]
}

/// The bytes before which a word of an id begins: `-`, `_` and `.`.
pub open spec fn id_marks() -> Seq<u8> {
    seq![45u8, 95u8, 46u8]
}

/// `token` occurs in `hay` at its start or right after a space.
pub open spec fn has_token_prefix(hay: Seq<char>, token: Seq<char>) -> bool {
    exists|p: int| occurs_at_boundary(encode_utf8(hay), encode_utf8(token), name_marks(), p)
}

/// Every one of `tokens` occurs in `hay` at its start or right after a space.
pub open spec fn matches_all(hay: Seq<char>, tokens: Seq<Seq<char>>) -> bool {
    forall|k: int| 0 <= k < tokens.len() ==> has_token_prefix(hay, #[trigger] tokens[k])
}

fn name_marks_vec() -> (v: Vec<u8>)
    ensures
        v@ == name_marks(),
{
    let mut v: Vec<u8> = Vec::new();
    v.push(32u8);
    assert(v@ =~= name_marks());
    v
}

fn id_marks_vec() -> (v: Vec<u8>)
    ensures
        v@ == id_marks(),
{
    let mut v: Vec<u8> = Vec::new();
    v.push(45u8);
    v.push(95u8);
    v.push(46u8);
    assert(v@ =~= id_marks());
    v
}

/// The offset in bytes of the first occurrence of `needle` in `haystack` that
/// stands at the start of `haystack` or right after one of `boundary_bytes`.
pub fn find_boundary_match(haystack: &str, needle: &str, boundary_bytes: &[u8]) -> (r: Option<
    usize,
>)
    ensures
        match r {
            Some(p) => first_boundary_occurrence(
                encode_utf8(haystack@),
                encode_utf8(needle@),
                boundary_bytes@,
            ) == Some(p as int),
            None => first_boundary_occurrence(
                encode_utf8(haystack@),
                encode_utf8(needle@),
                boundary_bytes@,
            ) is None,
        },
{
    find_at_boundary(haystack.as_bytes(), needle.as_bytes(), boundary_bytes)
}

/// Whether `token` occurs in `norm` at its start or right after a space.
pub fn norm_has_token_prefix(norm: &str, token: &str) -> (b: bool)
    ensures
        b == has_token_prefix(norm@, token@),
{
    let marks = name_marks_vec();
    let r = find_boundary_match(norm, token, marks.as_slice());
    proof {
        lemma_boundary_occurrence(encode_utf8(norm@), encode_utf8(token@), name_marks());
    }
    r.is_some()
}

/// Whether every one of `tokens` occurs in `norm` at a boundary.
pub fn norm_matches_all(norm: &str, tokens: &[String]) -> (b: bool)
    ensures
        b == matches_all(norm@, seq_view(tokens@)),
{
    let mut k: usize = 0;
    while k < tokens.len()
        invariant
            k <= tokens.len(),
            forall|j: int| 0 <= j < k ==> has_token_prefix(norm@, #[trigger] seq_view(tokens@)[j]),
        decreases tokens.len() - k,
    {
        if !norm_has_token_prefix(norm, tokens[k].as_str()) {
            assert(!has_token_prefix(norm@, seq_view(tokens@)[k as int]));
            return false;
        }
        k += 1;
    }
    true
}

// ---------------------------------------------------------------------------
// The score
// ---------------------------------------------------------------------------

/// The smaller of an offset and 80.
pub open spec fn capped(p: int) -> int {
    if p < 80 {
        p
    } else {
        80
    }
}

/// What a token earns in a text: `at_boundary` less the capped offset where it
/// occurs at a boundary; else `inside` less the capped offset where it
/// occurs at all; else nothing.
pub open spec fn gain_in(
    text: Seq<u8>,
    token: Seq<u8>,
    marks: Seq<u8>,
    at_boundary: int,
    inside: int,
) -> int {
    match first_boundary_occurrence(text, token, marks) {
        Some(p) => at_boundary - capped(p),
        None => match first_occurrence(text, token) {
            Some(p) => inside - capped(p),
            None => 0,
        },
    }
}

/// What one token earns: the best of what it earns in the name (140 at a
/// boundary, 80 inside) and in the id (110 at a boundary, 60 inside), and never
/// less than nothing. An empty name earns nothing.
pub open spec fn token_gain(name: Seq<char>, id: Seq<char>, token: Seq<char>) -> int {
    let t = encode_utf8(token);
    let in_name = if name.len() == 0 {
        0
    } else {
        gain_in(encode_utf8(name), t, name_marks(), 140, 80)
    };
    let in_id = gain_in(encode_utf8(id), t, id_marks(), 110, 60);
    if in_name >= in_id && in_name >= 0 {
        in_name
    } else if in_id >= 0 {
        in_id
    } else {
        0
    }
}

/// What all of `tokens` earn together.
pub open spec fn tokens_gain(name: Seq<char>, id: Seq<char>, tokens: Seq<Seq<char>>) -> int
    decreases tokens.len(),
{
    if tokens.len() == 0 {
        0
    } else {
        tokens_gain(name, id, tokens.drop_last()) + token_gain(name, id, tokens.last())
    }
}

/// What the name earns by itself: 120 where every token occurs in it at a
/// boundary, and 30 less its length in bytes where it is shorter than 30. An
/// empty name earns nothing.
pub open spec fn name_bonus(name: Seq<char>, tokens: Seq<Seq<char>>) -> int {
    if name.len() == 0 {
        0
    } else {
        (if matches_all(name, tokens) {
            120int
        } else {
            0
        }) + (if encode_utf8(name).len() < 30 {
            30 - encode_utf8(name).len()
        } else {
            0
        })
    }
}

/// What usage earns: 2 for each launch up to 20.
pub open spec fn frequency_bonus(freq: u32) -> int {
    if freq < 20 {
        2 * freq
    } else {
        40
    }
}

/// What recency earns: 10 within the hour, 7 within the day, 4 within the
/// week, 2 within thirty days, else nothing; nothing where one of the two times
/// is not known. A launch in the future counts as one just now.
pub open spec fn recency_value(last_used: u64, now_sec: u64) -> int {
    if last_used == 0 || now_sec == 0 {
        0
    } else {
        let age = if now_sec >= last_used {
            now_sec - last_used
        } else {
            0
        };
        if age < 3600 {
            10
        } else if age < 86400 {
            7
        } else if age < 604800 {
            4
        } else if age < 2592000 {
            2
        } else {
            0
        }
    }
}

/// The name in lowercase of an indexed entry; empty where it has none.
pub open spec fn name_lc_of(e: IndexedView) -> Seq<char> {
    match e.name_lc {
        Some(n) => n,
        None => Seq::empty(),
    }
}

/// The score of an entry for a query: what its tokens earn, what the name
/// earns, what usage and recency earn, and 10.
pub open spec fn score_value(e: IndexedView, tokens: Seq<Seq<char>>, usage: Usage, now_sec: u64) -> int {
    tokens_gain(name_lc_of(e), e.id_lc, tokens) + name_bonus(name_lc_of(e), tokens)
        + frequency_bonus(usage.freq) + recency_value(usage.last_used, now_sec) + 10
}

/// The bonus for a recent launch.
pub fn recency_bonus(last_used: u64, now_sec: u64) -> (r: i32)
    ensures
        r == recency_value(last_used, now_sec),
{
    if last_used == 0 || now_sec == 0 {
        return 0;
    }
    let age: u64 = if now_sec >= last_used {
        now_sec - last_used
    } else {
        0
    };
    if age < 3600 {
        10
    } else if age < 86400 {
        7
    } else if age < 604800 {
        4
    } else if age < 2592000 {
        2
    } else {
        0
    }
}

/// What tokens earn together is not negative, and at most 140 for each.
pub proof fn lemma_tokens_gain_bounds(name: Seq<char>, id: Seq<char>, tokens: Seq<Seq<char>>)
    ensures
        0 <= tokens_gain(name, id, tokens) <= 140 * tokens.len(),
    decreases tokens.len(),
{
    if tokens.len() > 0 {
        lemma_tokens_gain_bounds(name, id, tokens.drop_last());
        let t = encode_utf8(tokens.last());
        lemma_first_match(
            |p: int| occurs_at_boundary(encode_utf8(name), t, name_marks(), p),
            0,
            encode_utf8(name).len() as int + 1,
        );
        lemma_first_match(
            |p: int| occurs_at_boundary(encode_utf8(id), t, id_marks(), p),
            0,
            encode_utf8(id).len() as int + 1,
        );
        lemma_first_match(
            |p: int| crate::text::occurs_at(encode_utf8(name), t, p),
            0,
            encode_utf8(name).len() as int + 1,
        );
        lemma_first_match(
            |p: int| crate::text::occurs_at(encode_utf8(id), t, p),
            0,
            encode_utf8(id).len() as int + 1,
        );
    }
}

/// The score is at least 10 and at most 140 for each token and 210 more.
pub proof fn lemma_score_bounds(e: IndexedView, tokens: Seq<Seq<char>>, usage: Usage, now_sec: u64)
    ensures
        10 <= score_value(e, tokens, usage, now_sec) <= 140 * tokens.len() + 210,
{
    lemma_tokens_gain_bounds(name_lc_of(e), e.id_lc, tokens);
}

fn gain_of(text: &[u8], token: &[u8], marks: &[u8], at_boundary: i128, inside: i128) -> (r: i128)
    requires
        0 <= inside <= at_boundary <= 140,
    ensures
        r == gain_in(text@, token@, marks@, at_boundary as int, inside as int),
        -80 <= r <= 140,
{
    match find_at_boundary(text, token, marks) {
        Some(p) => {
            let c: usize = if p < 80 {
                p
            } else {
                80
            };
            at_boundary - (c as i128)
        },
        None => match find_bytes(text, token) {
            Some(p) => {
                let c: usize = if p < 80 {
                    p
                } else {
                    80
                };
                inside - (c as i128)
            },
            None => 0,
        },
    }
}

/// The score of `e` for `tokens`, in a range that no number of tokens leaves.
pub fn score_wide(e: &DesktopEntryIndexed, tokens: &[String], usage: Usage, now_sec: u64) -> (r:
    i128)
    ensures
        r == score_value(e@, seq_view(tokens@), usage, now_sec),
{
    let ghost tv = seq_view(tokens@);
    let ghost name_v = name_lc_of(e@);
    let no_name = String::new();
    let name: &str = match &e.name_lc {
        Some(n) => n.as_str(),
        None => no_name.as_str(),
    };
    assert(name@ =~= name_v);
    let name_marks = name_marks_vec();
    let id_marks = id_marks_vec();
    let has_name = !name.is_empty();
    let mut relevance: i128 = 0;
    let mut all_at_boundary = true;
    let mut k: usize = 0;
    while k < tokens.len()
        invariant
            k <= tokens.len(),
            tv == seq_view(tokens@),
            name@ == name_v,
            name_marks@ == self::name_marks(),
            id_marks@ == self::id_marks(),
            has_name == (name_v.len() > 0),
            relevance == tokens_gain(name_v, e.id_lc@, tv.take(k as int)),
            0 <= relevance <= 140 * k,
            all_at_boundary == matches_all(name_v, tv.take(k as int)),
        decreases tokens.len() - k,
    {
        let t = tokens[k].as_str().as_bytes();
        let in_name: i128 = if has_name {
            gain_of(name.as_bytes(), t, name_marks.as_slice(), 140, 80)
        } else {
            0
        };
        let in_id: i128 = gain_of(e.id_lc.as_str().as_bytes(), t, id_marks.as_slice(), 110, 60);
        let best: i128 = if in_name >= in_id && in_name >= 0 {
            in_name
        } else if in_id >= 0 {
            in_id
        } else {
            0
        };
        let at = find_at_boundary(name.as_bytes(), t, name_marks.as_slice());
        proof {
            let next = tv.take(k + 1);
            assert(next.drop_last() =~= tv.take(k as int));
            assert(next.last() == tv[k as int]);
            assert(tv[k as int] == tokens@[k as int]@);
            lemma_boundary_occurrence(encode_utf8(name_v), t@, self::name_marks());
            if all_at_boundary && at.is_some() {
                assert forall|j: int| 0 <= j < next.len() implies has_token_prefix(
                    name_v,
                    #[trigger] next[j],
                ) by {
                    if j < k {
                        assert(next[j] == tv.take(k as int)[j]);
                    }
                }
            } else if at.is_none() {
                assert(next[k as int] == tv[k as int]);
            } else {
                let j = choose|j: int|
                    0 <= j < k && !has_token_prefix(name_v, #[trigger] tv.take(k as int)[j]);
                assert(next[j] == tv.take(k as int)[j]);
            }
        }
        all_at_boundary = all_at_boundary && at.is_some();
        relevance = relevance + best;
        k += 1;
    }
    assert(tv.take(tv.len() as int) =~= tv);
    let mut bonus: i128 = 0;
    if has_name {
        if all_at_boundary {
            bonus = bonus + 120;
        }
        let n = name.as_bytes().len();
        if n < 30 {
            bonus = bonus + (30 - (n as i128));
        }
    }
    let f: i128 = if usage.freq < 20 {
        2 * (usage.freq as i128)
    } else {
        40
    };
    assert(relevance == tokens_gain(name_v, e@.id_lc, tv));
    assert(bonus == name_bonus(name_v, tv));
    assert(f == frequency_bonus(usage.freq));
    relevance + bonus + f + (recency_bonus(usage.last_used, now_sec) as i128) + 10
}

/// The score of `e` for `tokens`.
pub fn score_entry(e: &DesktopEntryIndexed, tokens: &[String], usage: Usage, now_sec: u64) -> (r:
    i32)
    requires
        score_value(e@, seq_view(tokens@), usage, now_sec) <= i32::MAX,
    ensures
        r == score_value(e@, seq_view(tokens@), usage, now_sec),
{
    proof {
        lemma_score_bounds(e@, seq_view(tokens@), usage, now_sec);
    }
    score_wide(e, tokens, usage, now_sec) as i32
}

// ---------------------------------------------------------------------------
// Candidates and the best of them
// ---------------------------------------------------------------------------

/// A candidate with its score.
pub struct Scored {
    pub score: i128,
    pub idx: usize,
}

impl View for Scored {
    type V = (int, int);

    open spec fn view(&self) -> (int, int) {
        (self.score as int, self.idx as int)
    }
}

/// The order of scored candidates: the higher score first, and of two with
/// one score the one that stands later in the index.
pub open spec fn hit_precedes(a: (int, int), b: (int, int)) -> bool {
    a.0 > b.0 || (a.0 == b.0 && a.1 > b.1)
}

impl Ranked for Scored {
    open spec fn precedes(a: (int, int), b: (int, int)) -> bool {
        hit_precedes(a, b)
    }

    fn ranks_before(&self, other: &Self) -> (b: bool) {
        self.score > other.score || (self.score == other.score && self.idx > other.idx)
    }

    proof fn lemma_transitive(a: (int, int), b: (int, int), c: (int, int)) {
    }

    proof fn lemma_irreflexive(a: (int, int)) {
    }

    proof fn lemma_total(a: (int, int), b: (int, int)) {
    }
}

/// Indexes as integers.
pub open spec fn ints(s: Seq<usize>) -> Seq<int> {
    s.map_values(|i: usize| i as int)
}

/// The indexes `0..n`.
pub open spec fn all_indices(n: int) -> Seq<int> {
    Seq::new(n as nat, |i: int| i)
}

/// Every index of `picks` is an index of a sequence of length `n`.
pub open spec fn within(picks: Seq<int>, n: int) -> bool {
    forall|k: int| 0 <= k < picks.len() ==> 0 <= #[trigger] picks[k] < n
}

/// Those of `from`, in their order, whose haystack holds every token at a
/// boundary.
pub open spec fn matching(entries: Seq<IndexedView>, tokens: Seq<Seq<char>>, from: Seq<int>) -> Seq<
    int,
>
    decreases from.len(),
{
    if from.len() == 0 {
        Seq::empty()
    } else {
        let rest = matching(entries, tokens, from.drop_last());
        if matches_all(entries[from.last()].norm, tokens) {
            rest.push(from.last())
        } else {
            rest
        }
    }
}

/// Each of `cands` with its score.
pub open spec fn scored(
    entries: Seq<IndexedView>,
    tokens: Seq<Seq<char>>,
    usage: Map<Seq<char>, Usage>,
    now_sec: u64,
    cands: Seq<int>,
) -> Seq<(int, int)> {
    cands.map_values(
        |i: int| (score_value(entries[i], tokens, usage_of(usage, entries[i].out.id), now_sec), i),
    )
}

/// The `limit` best of `cands`: all of them scored and put in order, and of
/// that the first `limit`.
pub open spec fn top_picks(
    entries: Seq<IndexedView>,
    tokens: Seq<Seq<char>>,
    usage: Map<Seq<char>, Usage>,
    now_sec: u64,
    cands: Seq<int>,
    limit: int,
) -> Seq<int> {
    prefix(ranked::<Scored>(scored(entries, tokens, usage, now_sec, cands)), limit).map_values(
        |h: (int, int)| h.1,
    )
}

/// The public records of the entries at `picks`.
pub open spec fn outs_at(entries: Seq<IndexedView>, picks: Seq<int>) -> Seq<EntryView> {
    picks.map_values(|i: int| entries[i].out)
}

/// The indexes `0..n`.
pub fn index_range(n: usize) -> (v: Vec<usize>)
    ensures
        ints(v@) == all_indices(n as int),
{
    let mut v: Vec<usize> = Vec::new();
    let mut i: usize = 0;
    while i < n
        invariant
            i <= n,
            v.len() == i,
            forall|k: int| 0 <= k < i ==> v@[k] == k,
        decreases n - i,
    {
        v.push(i);
        i += 1;
    }
    assert(ints(v@) =~= all_indices(n as int));
    v
}

/// Those of `from` whose haystack holds every one of `tokens` at a boundary.
pub fn filter_candidates(entries: &[DesktopEntryIndexed], tokens: &[String], from: &Vec<usize>) -> (r:
    Vec<usize>)
    requires
        within(ints(from@), entries.len() as int),
    ensures
        ints(r@) == matching(seq_view(entries@), seq_view(tokens@), ints(from@)),
        within(ints(r@), entries.len() as int),
{
    let ghost ev = seq_view(entries@);
    let ghost tv = seq_view(tokens@);
    let ghost fv = ints(from@);
    let mut r: Vec<usize> = Vec::new();
    let mut k: usize = 0;
    assert(ints(r@) =~= matching(ev, tv, fv.take(0)));
    while k < from.len()
        invariant
            k <= from.len(),
            ev == seq_view(entries@),
            tv == seq_view(tokens@),
            fv == ints(from@),
            within(fv, entries.len() as int),
            ints(r@) == matching(ev, tv, fv.take(k as int)),
            within(ints(r@), entries.len() as int),
        decreases from.len() - k,
    {
        let i = from[k];
        assert(fv[k as int] == i);
        assert(fv.take(k + 1).drop_last() =~= fv.take(k as int));
        let ghost before = r@;
        if norm_matches_all(entries[i].norm.as_str(), tokens) {
            r.push(i);
            assert(ints(r@) =~= ints(before).push(i as int));
        }
        k += 1;
    }
    assert(fv.take(fv.len() as int) =~= fv);
    r
}

/// The `limit` best of `cands` for `tokens`, the best first.
pub fn rank_candidates(
    entries: &[DesktopEntryIndexed],
    tokens: &[String],
    usage: &StrMap<Usage>,
    now_sec: u64,
    cands: &Vec<usize>,
    limit: usize,
) -> (picks: Vec<usize>)
    requires
        within(ints(cands@), entries.len() as int),
    ensures
        ints(picks@) == top_picks(
            seq_view(entries@),
            seq_view(tokens@),
            usage@,
            now_sec,
            ints(cands@),
            limit as int,
        ),
        within(ints(picks@), entries.len() as int),
{
    let ghost ev = seq_view(entries@);
    let ghost tv = seq_view(tokens@);
    let ghost cv = ints(cands@);
    let mut top: Vec<Scored> = Vec::new();
    let mut k: usize = 0;
    assert(seq_view(top@) =~= prefix(
        ranked::<Scored>(scored(ev, tv, usage@, now_sec, cv.take(0))),
        limit as int,
    ));
    while k < cands.len()
        invariant
            k <= cands.len(),
            ev == seq_view(entries@),
            tv == seq_view(tokens@),
            cv == ints(cands@),
            within(cv, entries.len() as int),
            seq_view(top@) == prefix(
                ranked::<Scored>(scored(ev, tv, usage@, now_sec, cv.take(k as int))),
                limit as int,
            ),
            forall|j: int| 0 <= j < top.len() ==> (#[trigger] top@[j]).idx < entries.len(),
        decreases cands.len() - k,
    {
        let i = cands[k];
        assert(cv[k as int] == i);
        let e = &entries[i];
        let u = lookup_usage(usage, e.out.id.as_str());
        let score = score_wide(e, tokens, u, now_sec);
        let ghost so_far = scored(ev, tv, usage@, now_sec, cv.take(k as int));
        let ghost next = scored(ev, tv, usage@, now_sec, cv.take(k + 1));
        let x = Scored { score, idx: i };
        proof {
            assert(ev[i as int] == e@);
            assert(next.drop_last() =~= so_far);
            assert(next.last() == x@);
            lemma_ranked::<Scored>(so_far);
            lemma_placed_prefix::<Scored>(ranked::<Scored>(so_far), x@, limit as int);
        }
        place(&mut top, x);
        let ghost mid = top@;
        top.truncate(limit);
        proof {
            assert(seq_view(top@) =~= prefix(seq_view(mid), limit as int));
            assert forall|j: int| 0 <= j < top.len() implies (#[trigger] top@[j]).idx
                < entries.len() by {
                assert(top@[j] == mid[j]);
            }
        }
        k += 1;
    }
    assert(cv.take(cv.len() as int) =~= cv);
    let mut picks: Vec<usize> = Vec::new();
    let mut j: usize = 0;
    while j < top.len()
        invariant
            j <= top.len(),
            picks.len() == j,
            forall|m: int| 0 <= m < j ==> picks@[m] == (#[trigger] top@[m]).idx,
            forall|m: int| 0 <= m < top.len() ==> (#[trigger] top@[m]).idx < entries.len(),
        decreases top.len() - j,
    {
        picks.push(top[j].idx);
        j += 1;
    }
    assert(ints(picks@) =~= seq_view(top@).map_values(|h: (int, int)| h.1));
    picks
}

/// Copies of the public records of the entries at `picks`.
pub fn collect_outs(entries: &[DesktopEntryIndexed], picks: &Vec<usize>) -> (r: Vec<DesktopEntryOut>)
    requires
        within(ints(picks@), entries.len() as int),
    ensures
        seq_view(r@) == outs_at(seq_view(entries@), ints(picks@)),
{
    let ghost ev = seq_view(entries@);
    let ghost pv = ints(picks@);
    let mut r: Vec<DesktopEntryOut> = Vec::new();
    let mut k: usize = 0;
    while k < picks.len()
        invariant
            k <= picks.len(),
            ev == seq_view(entries@),
            pv == ints(picks@),
            within(pv, entries.len() as int),
            seq_view(r@) == outs_at(ev, pv.take(k as int)),
        decreases picks.len() - k,
    {
        let i = picks[k];
        assert(pv[k as int] == i);
        let out = entries[i].out.clone();
        proof {
            lemma_seq_view_push(r@, out);
            assert(ev[i as int].out == out@);
            assert(outs_at(ev, pv.take(k + 1)) =~= outs_at(ev, pv.take(k as int)).push(out@));
        }
        r.push(out);
        k += 1;
    }
    assert(pv.take(pv.len() as int) =~= pv);
    r
}

// ---------------------------------------------------------------------------
// The query without tokens
// ---------------------------------------------------------------------------

/// An application that was used, as the empty query ranks it.
pub struct UsageRow {
    pub primary: u64,
    pub secondary: u64,
    pub name: String,
    pub id: String,
    pub idx: usize,
}

/// What a [`UsageRow`] holds.
pub struct RowView {
    pub primary: int,
    pub secondary: int,
    pub name: Seq<char>,
    pub id: Seq<char>,
    pub idx: int,
}

impl View for UsageRow {
    type V = RowView;

    open spec fn view(&self) -> RowView {
        RowView {
            primary: self.primary as int,
            secondary: self.secondary as int,
            name: self.name@,
            id: self.id@,
            idx: self.idx as int,
        }
    }
}

/// The order of the rows of an empty query: the greater primary signal first,
/// then the greater secondary signal, then the name that comes first in the
/// dictionary, then the id that does, then the place in the index.
pub open spec fn row_precedes(a: RowView, b: RowView) -> bool {
    if a.primary != b.primary {
        a.primary > b.primary
    } else if a.secondary != b.secondary {
        a.secondary > b.secondary
    } else if a.name != b.name {
        lex_lt(encode_utf8(a.name), encode_utf8(b.name))
    } else if a.id != b.id {
        lex_lt(encode_utf8(a.id), encode_utf8(b.id))
    } else {
        a.idx < b.idx
    }
}

impl Ranked for UsageRow {
    open spec fn precedes(a: RowView, b: RowView) -> bool {
        row_precedes(a, b)
    }

    fn ranks_before(&self, other: &Self) -> (b: bool) {
        if self.primary != other.primary {
            self.primary > other.primary
        } else if self.secondary != other.secondary {
            self.secondary > other.secondary
        } else if !crate::text::str_equal(self.name.as_str(), other.name.as_str()) {
            bytes_before(self.name.as_str().as_bytes(), other.name.as_str().as_bytes())
        } else if !crate::text::str_equal(self.id.as_str(), other.id.as_str()) {
            bytes_before(self.id.as_str().as_bytes(), other.id.as_str().as_bytes())
        } else {
            self.idx < other.idx
        }
    }

    proof fn lemma_transitive(a: RowView, b: RowView, c: RowView) {
        let (name_a, name_b, name_c) = (
            encode_utf8(a.name),
            encode_utf8(b.name),
            encode_utf8(c.name),
        );
        let (id_a, id_b, id_c) = (encode_utf8(a.id), encode_utf8(b.id), encode_utf8(c.id));
        if a.primary == b.primary && b.primary == c.primary && a.secondary == b.secondary
            && b.secondary == c.secondary {
            if a.name != b.name && b.name != c.name {
                lemma_lex_transitive_from(name_a, name_b, name_c, 0);
                lemma_lex_irreflexive_from(name_a, 0);
            } else if a.name == b.name && b.name == c.name {
                if a.id != b.id && b.id != c.id {
                    lemma_lex_transitive_from(id_a, id_b, id_c, 0);
                    lemma_lex_irreflexive_from(id_a, 0);
                }
            }
        }
    }

    proof fn lemma_irreflexive(a: RowView) {
    }

    proof fn lemma_total(a: RowView, b: RowView) {
        if a.primary == b.primary && a.secondary == b.secondary {
            if a.name != b.name {
                lemma_lex_total_from(encode_utf8(a.name), encode_utf8(b.name), 0);
                lemma_encode_injective(a.name, b.name);
            } else if a.id != b.id {
                lemma_lex_total_from(encode_utf8(a.id), encode_utf8(b.id), 0);
                lemma_encode_injective(a.id, b.id);
            }
        }
    }
}

/// Whether the empty query lists an application with usage `u`.
pub open spec fn listed(u: Usage, mode: EmptyQueryMode) -> bool {
    match mode {
        EmptyQueryMode::Recency => u.last_used != 0,
        EmptyQueryMode::Frequency => u.freq != 0,
    }
}

/// The name of an entry; empty where it has none.
pub open spec fn name_of(e: EntryView) -> Seq<char> {
    match e.name {
        Some(n) => n,
        None => Seq::empty(),
    }
}

/// The row of the entry at `idx`, with usage `u`.
pub open spec fn usage_row(e: EntryView, u: Usage, mode: EmptyQueryMode, idx: int) -> RowView {
    match mode {
        EmptyQueryMode::Recency => RowView {
            primary: u.last_used as int,
            secondary: u.freq as int,
            name: name_of(e),
            id: e.id,
            idx,
        },
        EmptyQueryMode::Frequency => RowView {
            primary: u.freq as int,
            secondary: u.last_used as int,
            name: name_of(e),
            id: e.id,
            idx,
        },
    }
}

/// The rows of the first `n` entries: one for each entry that has a usage row
/// and is listed.
pub open spec fn usage_rows(
    entries: Seq<IndexedView>,
    usage: Map<Seq<char>, Usage>,
    mode: EmptyQueryMode,
    n: int,
) -> Seq<RowView>
    decreases n,
{
    if n <= 0 {
        Seq::empty()
    } else {
        let rest = usage_rows(entries, usage, mode, n - 1);
        let e = entries[n - 1].out;
        if usage.contains_key(e.id) && listed(usage[e.id], mode) {
            rest.push(usage_row(e, usage[e.id], mode, n - 1))
        } else {
            rest
        }
    }
}

/// What the empty query lists: the rows in their order, and of that the first
/// `limit`.
pub open spec fn empty_query_picks(
    entries: Seq<IndexedView>,
    usage: Map<Seq<char>, Usage>,
    mode: EmptyQueryMode,
    limit: int,
) -> Seq<int> {
    prefix(
        ranked::<UsageRow>(usage_rows(entries, usage, mode, entries.len() as int)),
        limit,
    ).map_values(|r: RowView| r.idx)
}

/// The entries that the empty query lists: those that were used (recently, or
/// often, as `empty_mode` says), the most used first, at most `limit`.
pub fn empty_query_entries(
    entries: &[DesktopEntryIndexed],
    limit: usize,
    usage: &StrMap<Usage>,
    empty_mode: EmptyQueryMode,
) -> (r: Vec<DesktopEntryOut>)
    ensures
        seq_view(r@) == outs_at(
            seq_view(entries@),
            empty_query_picks(seq_view(entries@), usage@, empty_mode, limit as int),
        ),
{
    let ghost ev = seq_view(entries@);
    let mut rows: Vec<UsageRow> = Vec::new();
    let mut i: usize = 0;
    assert(seq_view(rows@) =~= ranked::<UsageRow>(usage_rows(ev, usage@, empty_mode, 0)));
    while i < entries.len()
        invariant
            i <= entries.len(),
            ev == seq_view(entries@),
            seq_view(rows@) == ranked::<UsageRow>(usage_rows(ev, usage@, empty_mode, i as int)),
            forall|j: int| 0 <= j < rows.len() ==> (#[trigger] rows@[j]).idx < entries.len(),
        decreases entries.len() - i,
    {
        let e = &entries[i];
        assert(ev[i as int] == e@);
        match usage.get(e.out.id.as_str()) {
            Some(u) => {
                let keep = match empty_mode {
                    EmptyQueryMode::Recency => u.last_used != 0,
                    EmptyQueryMode::Frequency => u.freq != 0,
                };
                if keep {
                    let name = match &e.out.name {
                        Some(n) => n.clone(),
                        None => String::new(),
                    };
                    let (primary, secondary) = match empty_mode {
                        EmptyQueryMode::Recency => (u.last_used, u.freq as u64),
                        EmptyQueryMode::Frequency => (u.freq as u64, u.last_used),
                    };
                    let row = UsageRow { primary, secondary, name, id: e.out.id.clone(), idx: i };
                    let ghost so_far = usage_rows(ev, usage@, empty_mode, i as int);
                    proof {
                        assert(row.name@ =~= name_of(e@.out));
                        assert(row@ == usage_row(e@.out, *u, empty_mode, i as int));
                        assert(so_far.push(row@).drop_last() =~= so_far);
                    }
                    let ghost before = rows@;
                    place(&mut rows, row);
                    proof {
                        assert forall|j: int| 0 <= j < rows.len() implies (#[trigger] rows@[j]).idx
                            < entries.len() by {
                            if rows@[j] != row {
                                assert(before.contains(rows@[j]));
                            }
                        }
                    }
                }
            },
            None => {},
        }
        i += 1;
    }
    rows.truncate(limit);
    let mut picks: Vec<usize> = Vec::new();
    let mut j: usize = 0;
    while j < rows.len()
        invariant
            j <= rows.len(),
            picks.len() == j,
            forall|m: int| 0 <= m < j ==> picks@[m] == (#[trigger] rows@[m]).idx,
            forall|m: int| 0 <= m < rows.len() ==> (#[trigger] rows@[m]).idx < entries.len(),
        decreases rows.len() - j,
    {
        picks.push(rows[j].idx);
        j += 1;
    }
    proof {
        let full = ranked::<UsageRow>(usage_rows(ev, usage@, empty_mode, entries.len() as int));
        assert(seq_view(rows@) =~= prefix(full, limit as int));
        assert(ints(picks@) =~= seq_view(rows@).map_values(|r: RowView| r.idx));
    }
    collect_outs(entries, &picks)
}

// ---------------------------------------------------------------------------
// The search
// ---------------------------------------------------------------------------

/// The indexes of the entries that a search returns, in the order in which
/// it returns them: nothing for a limit of 0; for a query without tokens what
/// the empty query lists; else the `limit` best of the entries whose haystack
/// holds every token at a boundary.
pub open spec fn search_picks(
    entries: Seq<IndexedView>,
    query: Seq<char>,
    limit: int,
    usage: Map<Seq<char>, Usage>,
    mode: EmptyQueryMode,
    now_sec: u64,
) -> Seq<int> {
    if limit == 0 {
        Seq::empty()
    } else if query_tokens(query).len() == 0 {
        empty_query_picks(entries, usage, mode, limit)
    } else {
        top_picks(
            entries,
            query_tokens(query),
            usage,
            now_sec,
            matching(entries, query_tokens(query), all_indices(entries.len() as int)),
            limit,
        )
    }
}

/// Searches `entries` for `query` at time `now_sec`.
pub fn search_entries_at(
    entries: &[DesktopEntryIndexed],
    query: &str,
    limit: usize,
    usage: &StrMap<Usage>,
    empty_mode: EmptyQueryMode,
    now_sec: u64,
) -> (r: Vec<DesktopEntryOut>)
    ensures
        seq_view(r@) == outs_at(
            seq_view(entries@),
            search_picks(seq_view(entries@), query@, limit as int, usage@, empty_mode, now_sec),
        ),
{
    if limit == 0 {
        let r: Vec<DesktopEntryOut> = Vec::new();
        assert(seq_view(r@) =~= outs_at(seq_view(entries@), Seq::empty()));
        return r;
    }
    let tokens = normalize_query(query);
    if tokens.len() == 0 {
        return empty_query_entries(entries, limit, usage, empty_mode);
    }
    let all = index_range(entries.len());
    let cands = filter_candidates(entries, tokens.as_slice(), &all);
    let picks = rank_candidates(entries, tokens.as_slice(), usage, now_sec, &cands, limit);
    collect_outs(entries, &picks)
}

/// Searches `entries` for `query` at the present time. What comes back is
/// what [`search_entries_at`] returns for the time that the clock gave; for a
/// query without tokens and for a limit of 0 that time plays no part.
pub fn search_entries_with_usage_map_and_empty_mode(
    entries: &[DesktopEntryIndexed],
    query: &str,
    limit: usize,
    usage: &StrMap<Usage>,
    empty_mode: EmptyQueryMode,
) -> (r: Vec<DesktopEntryOut>)
    ensures
        exists|now_sec: u64|
            seq_view(r@) == outs_at(
                seq_view(entries@),
                #[trigger] search_picks(
                    seq_view(entries@),
                    query@,
                    limit as int,
                    usage@,
                    empty_mode,
                    now_sec,
                ),
            ),
{
    let now_sec = unix_seconds_now();
    search_entries_at(entries, query, limit, usage, empty_mode, now_sec)
}

/// The number of entries that a search returns where its caller names no
/// limit.
pub const DEFAULT_LIMIT: usize = 20;

/// The limit of a search whose caller may name none.
pub open spec fn limit_or_default(limit: Option<usize>) -> int {
    match limit {
        Some(l) => l as int,
        None => DEFAULT_LIMIT as int,
    }
}

/// Searches `entries` for `query` at the present time, for a caller that may
/// name no limit.
pub fn local_search(
    entries: &[DesktopEntryIndexed],
    query: &str,
    limit: Option<usize>,
    usage: &StrMap<Usage>,
    empty_mode: EmptyQueryMode,
) -> (r: Vec<DesktopEntryOut>)
    ensures
        exists|now_sec: u64|
            seq_view(r@) == outs_at(
                seq_view(entries@),
                #[trigger] search_picks(
                    seq_view(entries@),
                    query@,
                    limit_or_default(limit),
                    usage@,
                    empty_mode,
                    now_sec,
                ),
            ),
{
    let lim: usize = match limit {
        Some(l) => l,
        None => DEFAULT_LIMIT,
    };
    let r = search_entries_with_usage_map_and_empty_mode(entries, query, lim, usage, empty_mode);
    proof {
        let now = choose|now_sec: u64|
            seq_view(r@) == outs_at(
                seq_view(entries@),
                #[trigger] search_picks(
                    seq_view(entries@),
                    query@,
                    lim as int,
                    usage@,
                    empty_mode,
                    now_sec,
                ),
            );
        assert(seq_view(r@) == outs_at(
            seq_view(entries@),
            search_picks(
                seq_view(entries@),
                query@,
                limit_or_default(limit),
                usage@,
                empty_mode,
                now,
            ),
        ));
    }
    r
}

// ---------------------------------------------------------------------------
// What holds of every search
// ---------------------------------------------------------------------------

/// Every run has a character.
pub open spec fn no_empty_run(runs: Seq<Seq<char>>) -> bool {
    forall|k: int| 0 <= k < runs.len() ==> (#[trigger] runs[k]).len() > 0
}

/// No run of a query is empty.
pub proof fn lemma_runs_are_not_empty(s: Seq<char>, i: int, hi: int, buf: Seq<char>)
    ensures
        no_empty_run(runs_in(s, i, hi, buf)),
    decreases hi - i,
{
    if i >= hi {
        if buf.len() > 0 {
            assert(seq![buf][0] == buf);
        }
    } else if char_is_alphanumeric(s[i]) {
        lemma_runs_are_not_empty(s, i + 1, hi, buf + char_lowercase(s[i]));
    } else {
        let rest = runs_in(s, i + 1, hi, Seq::empty());
        lemma_runs_are_not_empty(s, i + 1, hi, Seq::empty());
        if buf.len() > 0 {
            let all = seq![buf] + rest;
            assert forall|k: int| 0 <= k < all.len() implies (#[trigger] all[k]).len() > 0 by {
                if k > 0 {
                    assert(all[k] == rest[k - 1]);
                }
            }
        }
    }
}

/// The tokens of a query are its runs, each once; none is empty; and each
/// ranks strictly before those behind it: it is longer, or as long and
/// earlier in the dictionary.
pub proof fn lemma_query_tokens(q: Seq<char>)
    ensures
        strictly_ranked::<String>(query_tokens(q)),
        forall|t: Seq<char>| query_tokens(q).contains(t) <==> query_runs(q).contains(t),
        no_empty_run(query_tokens(q)),
{
    lemma_ranked::<String>(query_runs(q));
    let lo = skip_space(q, 0, q.len() as int);
    lemma_runs_are_not_empty(q, lo, drop_space(q, lo, q.len() as int), Seq::empty());
    assert forall|k: int| 0 <= k < query_tokens(q).len() implies (#[trigger] query_tokens(q)[k]).len()
        > 0 by {
        let t = query_tokens(q)[k];
        assert(query_tokens(q).contains(t));
        assert(query_runs(q).contains(t));
        let m = choose|m: int| 0 <= m < query_runs(q).len() && query_runs(q)[m] == t;
        assert(query_runs(q)[m].len() > 0);
    }
}

/// The candidates that the filter keeps are those that it was given and whose
/// haystack holds every token at a boundary.
pub proof fn lemma_matching(entries: Seq<IndexedView>, tokens: Seq<Seq<char>>, from: Seq<int>)
    ensures
        forall|i: int|
            matching(entries, tokens, from).contains(i) <==> (from.contains(i) && matches_all(
                entries[i].norm,
                tokens,
            )),
    decreases from.len(),
{
    if from.len() > 0 {
        let rest = matching(entries, tokens, from.drop_last());
        lemma_matching(entries, tokens, from.drop_last());
        assert forall|i: int|
            matching(entries, tokens, from).contains(i) <==> (from.contains(i) && matches_all(
                entries[i].norm,
                tokens,
            )) by {
            lemma_contains_last(from, i);
            lemma_contains_push(rest, from.last(), i);
        }
    }
}

/// The picks of a ranking are candidates, each at most once.
pub proof fn lemma_top_picks_are_candidates(
    entries: Seq<IndexedView>,
    tokens: Seq<Seq<char>>,
    usage: Map<Seq<char>, Usage>,
    now_sec: u64,
    cands: Seq<int>,
    limit: int,
)
    ensures
        forall|k: int|
            0 <= k < top_picks(entries, tokens, usage, now_sec, cands, limit).len()
                ==> cands.contains(
                #[trigger] top_picks(entries, tokens, usage, now_sec, cands, limit)[k],
            ),
        top_picks(entries, tokens, usage, now_sec, cands, limit).len() <= cands.len() || limit < 0,
{
    let all = scored(entries, tokens, usage, now_sec, cands);
    let full = ranked::<Scored>(all);
    let hits = prefix(full, limit);
    let picks = top_picks(entries, tokens, usage, now_sec, cands, limit);
    lemma_ranked::<Scored>(all);
    assert forall|k: int| 0 <= k < picks.len() implies cands.contains(#[trigger] picks[k]) by {
        assert(picks[k] == hits[k].1);
        assert(full[k] == hits[k]);
        assert(full.contains(hits[k]));
        assert(all.contains(hits[k]));
        let m = choose|m: int| 0 <= m < all.len() && all[m] == hits[k];
        assert(cands[m] == picks[k]);
    }
    lemma_ranked_len::<Scored>(all);
}

/// Filter soundness: every entry that a search with tokens returns is an
/// entry of the index whose haystack holds every token of the query at a
/// boundary.
pub proof fn lemma_search_returns_matches(
    entries: Seq<IndexedView>,
    query: Seq<char>,
    limit: int,
    usage: Map<Seq<char>, Usage>,
    mode: EmptyQueryMode,
    now_sec: u64,
)
    requires
        query_tokens(query).len() > 0,
    ensures
        forall|k: int|
            0 <= k < search_picks(entries, query, limit, usage, mode, now_sec).len() ==> {
                let i = #[trigger] search_picks(entries, query, limit, usage, mode, now_sec)[k];
                0 <= i < entries.len() && matches_all(entries[i].norm, query_tokens(query))
            },
{
    let tokens = query_tokens(query);
    let all = all_indices(entries.len() as int);
    let cands = matching(entries, tokens, all);
    let picks = search_picks(entries, query, limit, usage, mode, now_sec);
    if limit != 0 {
        lemma_top_picks_are_candidates(entries, tokens, usage, now_sec, cands, limit);
        lemma_matching(entries, tokens, all);
        assert forall|k: int| 0 <= k < picks.len() implies {
            let i = #[trigger] picks[k];
            0 <= i < entries.len() && matches_all(entries[i].norm, tokens)
        } by {
            let i = picks[k];
            assert(cands.contains(i));
            assert(all.contains(i));
            let m = choose|m: int| 0 <= m < all.len() && all[m] == i;
            assert(all[m] == m);
        }
    }
}

/// Top-K correctness: whoever scores every candidate, sorts them by falling
/// score (of two with one score the later in the index first) and keeps the
/// first `limit` has what the search selects.
pub proof fn lemma_top_picks_from_any_sort(
    entries: Seq<IndexedView>,
    tokens: Seq<Seq<char>>,
    usage: Map<Seq<char>, Usage>,
    now_sec: u64,
    cands: Seq<int>,
    limit: int,
    sorted: Seq<(int, int)>,
)
    requires
        strictly_ranked::<Scored>(sorted),
        forall|h: (int, int)|
            sorted.contains(h) <==> scored(entries, tokens, usage, now_sec, cands).contains(h),
    ensures
        top_picks(entries, tokens, usage, now_sec, cands, limit) == prefix(sorted, limit).map_values(
            |h: (int, int)| h.1,
        ),
{
    let all = scored(entries, tokens, usage, now_sec, cands);
    lemma_ranked::<Scored>(all);
    crate::order::lemma_ranked_unique::<Scored>(sorted, ranked::<Scored>(all));
}

/// The selection is in order, holds only scored candidates, and leaves out
/// only candidates that rank after all that it holds, and only when it is
/// full.
pub proof fn lemma_top_picks_are_best(
    entries: Seq<IndexedView>,
    tokens: Seq<Seq<char>>,
    usage: Map<Seq<char>, Usage>,
    now_sec: u64,
    cands: Seq<int>,
    limit: int,
)
    requires
        0 <= limit,
    ensures
        ({
            let all = scored(entries, tokens, usage, now_sec, cands);
            let hits = prefix(ranked::<Scored>(all), limit);
            &&& strictly_ranked::<Scored>(hits)
            &&& hits.len() <= limit
            &&& forall|h: (int, int)| hits.contains(h) ==> all.contains(h)
            &&& forall|h: (int, int)|
                all.contains(h) && !hits.contains(h) ==> hits.len() == limit && forall|j: int|
                    0 <= j < hits.len() ==> hit_precedes(#[trigger] hits[j], h)
        }),
{
    let all = scored(entries, tokens, usage, now_sec, cands);
    let full = ranked::<Scored>(all);
    let hits = prefix(full, limit);
    lemma_ranked::<Scored>(all);
    assert forall|h: (int, int)| hits.contains(h) implies all.contains(h) by {
        let k = choose|k: int| 0 <= k < hits.len() && hits[k] == h;
        assert(full[k] == h);
        assert(full.contains(h));
    }
    assert forall|h: (int, int)| all.contains(h) && !hits.contains(h) implies hits.len() == limit
        && forall|j: int| 0 <= j < hits.len() ==> hit_precedes(#[trigger] hits[j], h) by {
        assert(full.contains(h));
        let m = choose|m: int| 0 <= m < full.len() && full[m] == h;
        if m < hits.len() {
            assert(hits[m] == h);
        }
        assert forall|j: int| 0 <= j < hits.len() implies hit_precedes(#[trigger] hits[j], h) by {
            assert(hits[j] == full[j]);
            assert(Scored::precedes(full[j], full[m]));
        }
    }
    assert forall|i: int, j: int| 0 <= i < j < hits.len() implies Scored::precedes(
        #[trigger] hits[i],
        #[trigger] hits[j],
    ) by {
        assert(hits[i] == full[i] && hits[j] == full[j]);
    }
}

/// Score monotonicity: more launches never lower the score, and neither
/// does a later last launch.
pub proof fn lemma_score_monotone(
    e: IndexedView,
    tokens: Seq<Seq<char>>,
    less: Usage,
    more: Usage,
    now_sec: u64,
)
    requires
        less.freq <= more.freq,
        less.last_used <= more.last_used,
    ensures
        score_value(e, tokens, less, now_sec) <= score_value(e, tokens, more, now_sec),
{
}

/// The rows of the empty query are rows of entries that have a usage row and
/// are listed, each with the usage of its entry.
pub proof fn lemma_usage_rows(
    entries: Seq<IndexedView>,
    usage: Map<Seq<char>, Usage>,
    mode: EmptyQueryMode,
    n: int,
)
    requires
        n <= entries.len(),
    ensures
        forall|r: RowView| #[trigger]
            usage_rows(entries, usage, mode, n).contains(r) ==> 0 <= r.idx < n && usage.contains_key(
                entries[r.idx].out.id,
            ) && listed(usage[entries[r.idx].out.id], mode) && r == usage_row(
                entries[r.idx].out,
                usage[entries[r.idx].out.id],
                mode,
                r.idx,
            ),
    decreases n,
{
    if n > 0 {
        lemma_usage_rows(entries, usage, mode, n - 1);
        let rest = usage_rows(entries, usage, mode, n - 1);
        let e = entries[n - 1].out;
        assert forall|r: RowView| #[trigger]
            usage_rows(entries, usage, mode, n).contains(r) implies 0 <= r.idx < n
            && usage.contains_key(entries[r.idx].out.id) && listed(
            usage[entries[r.idx].out.id],
            mode,
        ) && r == usage_row(entries[r.idx].out, usage[entries[r.idx].out.id], mode, r.idx) by {
            if usage.contains_key(e.id) && listed(usage[e.id], mode) {
                lemma_contains_push(rest, usage_row(e, usage[e.id], mode, n - 1), r);
            }
        }
    }
}

/// Empty-query determinism: what the empty query lists is fixed by the index,
/// the usage, the mode and the limit, and it is fully ordered: each entry
/// listed is an entry that was used as the mode asks, and of two entries
/// listed the earlier one ranks strictly before the later one.
pub proof fn lemma_empty_query_fully_ordered(
    entries: Seq<IndexedView>,
    usage: Map<Seq<char>, Usage>,
    mode: EmptyQueryMode,
    limit: int,
)
    ensures
        ({
            let picks = empty_query_picks(entries, usage, mode, limit);
            let row = |i: int| usage_row(entries[i].out, usage[entries[i].out.id], mode, i);
            &&& forall|k: int|
                0 <= k < picks.len() ==> 0 <= #[trigger] picks[k] < entries.len()
                    && usage.contains_key(entries[picks[k]].out.id) && listed(
                    usage[entries[picks[k]].out.id],
                    mode,
                )
            &&& forall|i: int, j: int|
                0 <= i < j < picks.len() ==> row_precedes(
                    row(#[trigger] picks[i]),
                    row(#[trigger] picks[j]),
                )
        }),
{
    let rows = usage_rows(entries, usage, mode, entries.len() as int);
    let full = ranked::<UsageRow>(rows);
    let shown = prefix(full, limit);
    let picks = empty_query_picks(entries, usage, mode, limit);
    let row = |i: int| usage_row(entries[i].out, usage[entries[i].out.id], mode, i);
    lemma_ranked::<UsageRow>(rows);
    lemma_usage_rows(entries, usage, mode, entries.len() as int);
    assert forall|k: int| 0 <= k < picks.len() implies 0 <= #[trigger] picks[k] < entries.len()
        && usage.contains_key(entries[picks[k]].out.id) && listed(
        usage[entries[picks[k]].out.id],
        mode,
    ) && row(picks[k]) == shown[k] by {
        assert(picks[k] == shown[k].idx);
        assert(shown[k] == full[k]);
        assert(full.contains(shown[k]));
        assert(rows.contains(shown[k]));
    }
    assert forall|i: int, j: int| 0 <= i < j < picks.len() implies row_precedes(
        row(#[trigger] picks[i]),
        row(#[trigger] picks[j]),
    ) by {
        assert(row(picks[i]) == shown[i] && row(picks[j]) == shown[j]);
        assert(shown[i] == full[i] && shown[j] == full[j]);
        assert(UsageRow::precedes(full[i], full[j]));
    }
}

} // verus!
