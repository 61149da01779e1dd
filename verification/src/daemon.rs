//! The service: the indexes that it holds, and what it does with a request.
//!
//! The service reads and writes nothing by itself. [`handle_request`] says
//! what a request comes to: a response, or work for whoever runs the service
//! (an index to build, an application to launch), after which the request or
//! its outcome is handed in again.

use vstd::prelude::*;
use vstd::utf8::encode_utf8;
use crate::cache::same_strings;
use crate::empty_query::EmptyQueryMode;
use crate::frequency::{FrequencyStore, launched, Usage, usage_of};
use crate::ipc::{Request, RequestView, Response, ResponseView};
use crate::launch::{LaunchPlan, LaunchPlanView, message_of, plan_launch, planned};
use crate::models::{DesktopEntryIndexed, DesktopEntryOut, IndexedView};
use crate::order::{place, ranked, Ranked};
use crate::search::{collect_outs, ints, name_of, outs_at, DEFAULT_LIMIT};
use crate::session::{fresh, IndexState, IndexStateView, session_after, session_picks};
use crate::text::{
    bytes_before, first_match, lemma_first_match, lemma_encode_injective, lemma_first_match_is,
    lemma_first_match_none, lemma_lex_irreflexive_from, lemma_lex_total_from,
    lemma_lex_transitive_from, lemma_seq_view_push, lex_lt, seq_view, str_equal,
};

verus! {

// ---------------------------------------------------------------------------
// The listing
// ---------------------------------------------------------------------------

/// An entry as the listing ranks it: by its name, and among entries of one
/// name by its place in the index.
pub struct NameRow {
    pub name: String,
    pub idx: usize,
}

impl View for NameRow {
    type V = (Seq<char>, int);

    open spec fn view(&self) -> (Seq<char>, int) {
        (self.name@, self.idx as int)
    }
}

/// The order of the listing.
pub open spec fn name_precedes(a: (Seq<char>, int), b: (Seq<char>, int)) -> bool {
    if a.0 != b.0 {
        lex_lt(encode_utf8(a.0), encode_utf8(b.0))
    } else {
        a.1 < b.1
    }
}

impl Ranked for NameRow {
    open spec fn precedes(a: (Seq<char>, int), b: (Seq<char>, int)) -> bool {
        name_precedes(a, b)
    }

    fn ranks_before(&self, other: &Self) -> (b: bool) {
        if !str_equal(self.name.as_str(), other.name.as_str()) {
            bytes_before(self.name.as_str().as_bytes(), other.name.as_str().as_bytes())
        } else {
            self.idx < other.idx
        }
    }

    proof fn lemma_transitive(a: (Seq<char>, int), b: (Seq<char>, int), c: (Seq<char>, int)) {
        if a.0 != b.0 && b.0 != c.0 {
            lemma_lex_transitive_from(encode_utf8(a.0), encode_utf8(b.0), encode_utf8(c.0), 0);
            lemma_lex_irreflexive_from(encode_utf8(a.0), 0);
        }
    }

    proof fn lemma_irreflexive(a: (Seq<char>, int)) {
    }

    proof fn lemma_total(a: (Seq<char>, int), b: (Seq<char>, int)) {
        if a.0 != b.0 {
            lemma_lex_total_from(encode_utf8(a.0), encode_utf8(b.0), 0);
            lemma_encode_injective(a.0, b.0);
        }
    }
}

/// The first `n` entries by name and place.
pub open spec fn name_rows(entries: Seq<IndexedView>, n: int) -> Seq<(Seq<char>, int)>
    decreases n,
{
    if n <= 0 {
        Seq::empty()
    } else {
        name_rows(entries, n - 1).push((name_of(entries[n - 1].out), n - 1))
    }
}

/// The order in which the listing shows the entries: by name as in the
/// dictionary, entries without a name first, entries of one name in the order
/// of the index.
pub open spec fn listing_picks(entries: Seq<IndexedView>) -> Seq<int> {
    ranked::<NameRow>(name_rows(entries, entries.len() as int)).map_values(
        |r: (Seq<char>, int)| r.1,
    )
}

/// The public records of `entries`, ordered by name.
pub fn list_entries(entries: &[DesktopEntryIndexed]) -> (r: Vec<DesktopEntryOut>)
    ensures
        seq_view(r@) == outs_at(seq_view(entries@), listing_picks(seq_view(entries@))),
{
    let ghost ev = seq_view(entries@);
    let mut rows: Vec<NameRow> = Vec::new();
    let mut i: usize = 0;
    assert(seq_view(rows@) =~= ranked::<NameRow>(name_rows(ev, 0)));
    while i < entries.len()
        invariant
            i <= entries.len(),
            ev == seq_view(entries@),
            seq_view(rows@) == ranked::<NameRow>(name_rows(ev, i as int)),
            forall|j: int| 0 <= j < rows.len() ==> (#[trigger] rows@[j]).idx < entries.len(),
        decreases entries.len() - i,
    {
        let e = &entries[i];
        assert(ev[i as int] == e@);
        let name = match &e.out.name {
            Some(n) => n.clone(),
            None => String::new(),
        };
        let row = NameRow { name, idx: i };
        proof {
            assert(row.name@ =~= name_of(e@.out));
            let so_far = name_rows(ev, i as int);
            assert(so_far.push(row@).drop_last() =~= so_far);
        }
        let ghost before = rows@;
        place(&mut rows, row);
        proof {
            assert forall|j: int| 0 <= j < rows.len() implies (#[trigger] rows@[j]).idx
                < entries.len() by {
                if rows@[j] != row {
                    assert(before.contains(rows@[j]));
                }
            }
        }
        i += 1;
    }
    let mut picks: Vec<usize> = Vec::new();
    let mut j: usize = 0;
    while j < rows.len()
        invariant
            j <= rows.len(),
            picks.len() == j,
            forall|m: int| 0 <= m < j ==> picks@[m] == (#[trigger] rows@[m]).idx,
            forall|m: int| 0 <= m < rows.len() ==> (#[trigger] rows@[m]).idx < entries.len(),
        decreases rows.len() - j,
    {
        picks.push(rows[j].idx);
        j += 1;
    }
    assert(ints(picks@) =~= seq_view(rows@).map_values(|r: (Seq<char>, int)| r.1));
    collect_outs(entries, &picks)
}

// ---------------------------------------------------------------------------
// The indexes
// ---------------------------------------------------------------------------

/// The index of one ordered set of roots.
pub struct IndexRow {
    pub roots: Vec<String>,
    pub state: IndexState,
}

/// What an [`IndexRow`] holds.
pub struct IndexRowView {
    pub roots: Seq<Seq<char>>,
    pub state: IndexStateView,
}

impl View for IndexRow {
    type V = IndexRowView;

    open spec fn view(&self) -> IndexRowView {
        IndexRowView { roots: seq_view(self.roots@), state: self.state@ }
    }
}

/// The place of the index of `roots`: the roots must be the same, in the
/// same order.
pub open spec fn row_pos(rows: Seq<IndexRowView>, roots: Seq<Seq<char>>) -> Option<int> {
    first_match(|k: int| rows[k].roots == roots, 0, rows.len() as int)
}

/// No two indexes are indexes of the same roots.
pub open spec fn distinct_roots(rows: Seq<IndexRowView>) -> bool {
    forall|i: int, j: int|
        0 <= i < j < rows.len() ==> (#[trigger] rows[i]).roots != (#[trigger] rows[j]).roots
}

/// The indexes that the service holds, one for each ordered set of roots that
/// it was asked about.
pub struct IndexSet {
    rows: Vec<IndexRow>,
}

impl View for IndexSet {
    type V = Seq<IndexRowView>;

    closed spec fn view(&self) -> Seq<IndexRowView> {
        seq_view(self.rows@)
    }
}

impl IndexSet {
    /// No two indexes are indexes of the same roots.
    #[verifier::type_invariant]
    spec fn no_roots_twice(self) -> bool {
        distinct_roots(seq_view(self.rows@))
    }

    /// No index.
    pub fn new() -> (s: Self)
        ensures
            s@ == Seq::<IndexRowView>::empty(),
    {
        let s = IndexSet { rows: Vec::new() };
        assert(s@ =~= Seq::<IndexRowView>::empty());
        s
    }

    /// The number of indexes held, which is the number of ordered sets of
    /// roots that have one.
    pub fn len(&self) -> (n: usize)
        ensures
            n == self@.len(),
            distinct_roots(self@),
    {
        proof {
            use_type_invariant(self);
        }
        self.rows.len()
    }

    /// The place of the index of `roots`.
    pub fn position(&self, roots: &[String]) -> (r: Option<usize>)
        ensures
            match r {
                Some(k) => k < self@.len() && row_pos(self@, seq_view(roots@)) == Some(k as int),
                None => row_pos(self@, seq_view(roots@)) is None,
            },
    {
        let ghost rv = seq_view(self.rows@);
        let ghost pred = |k: int| rv[k].roots == seq_view(roots@);
        let mut k: usize = 0;
        while k < self.rows.len()
            invariant
                k <= self.rows.len(),
                rv == seq_view(self.rows@),
                pred == (|k: int| rv[k].roots == seq_view(roots@)),
                forall|j: int| 0 <= j < k ==> !#[trigger] pred(j),
            decreases self.rows.len() - k,
        {
            if same_strings(self.rows[k].roots.as_slice(), roots) {
                proof {
                    assert(pred(k as int));
                    lemma_first_match_is(pred, 0, rv.len() as int, k as int);
                }
                return Some(k);
            }
            assert(!pred(k as int));
            k += 1;
        }
        proof {
            lemma_first_match_none(pred, 0, rv.len() as int);
        }
        None
    }

    /// Whether the index of `roots` is held.
    pub fn contains(&self, roots: &[String]) -> (b: bool)
        ensures
            b == (row_pos(self@, seq_view(roots@)) is Some),
    {
        self.position(roots).is_some()
    }

    /// Takes in the index of `roots` that was built from `entries`, unless
    /// an index of these roots is held already.
    pub fn install(&mut self, roots: Vec<String>, entries: Vec<DesktopEntryIndexed>)
        ensures
            final(self)@ == if row_pos(old(self)@, seq_view(roots@)) is Some {
                old(self)@
            } else {
                old(self)@.push(
                    IndexRowView { roots: seq_view(roots@), state: fresh(seq_view(entries@)) },
                )
            },
    {
        proof {
            use_type_invariant(&*self);
        }
        if self.position(roots.as_slice()).is_none() {
            let row = IndexRow { roots, state: IndexState::new(entries) };
            let ghost before = seq_view(self.rows@);
            proof {
                lemma_seq_view_push(self.rows@, row);
                lemma_first_match(|k: int| before[k].roots == row@.roots, 0, before.len() as int);
            }
            let mut rows: Vec<IndexRow> = Vec::new();
            core::mem::swap(&mut self.rows, &mut rows);
            rows.push(row);
            proof {
                let after = seq_view(rows@);
                assert forall|i: int, j: int| 0 <= i < j < after.len() implies (#[trigger] after[i]).roots
                    != (#[trigger] after[j]).roots by {
                    assert(after[i] == before[i]);
                    if j < before.len() {
                        assert(after[j] == before[j]);
                    } else {
                        assert(!(|k: int| before[k].roots == row@.roots)(i));
                    }
                }
            }
            core::mem::swap(&mut self.rows, &mut rows);
        }
    }

    /// The entries of the index at place `k`.
    pub fn entries_at(&self, k: usize) -> (r: &Vec<DesktopEntryIndexed>)
        requires
            k < self@.len(),
        ensures
            seq_view(r@) == self@[k as int].state.entries,
    {
        self.rows[k].state.entries()
    }

    /// Puts `query` to the index at place `k`.
    pub fn search_at(
        &mut self,
        k: usize,
        query: &str,
        limit: usize,
        usage: &crate::strmap::StrMap<Usage>,
        empty_mode: EmptyQueryMode,
        now_sec: u64,
    ) -> (r: Vec<DesktopEntryOut>)
        requires
            k < old(self)@.len(),
        ensures
            final(self)@ == old(self)@.update(
                k as int,
                IndexRowView {
                    roots: old(self)@[k as int].roots,
                    state: IndexStateView {
                        entries: old(self)@[k as int].state.entries,
                        session: session_after(old(self)@[k as int].state, query@),
                    },
                },
            ),
            seq_view(r@) == outs_at(
                old(self)@[k as int].state.entries,
                session_picks(
                    old(self)@[k as int].state,
                    query@,
                    limit as int,
                    usage@,
                    empty_mode,
                    now_sec,
                ),
            ),
    {
        proof {
            use_type_invariant(&*self);
        }
        let ghost before = seq_view(self.rows@);
        let mut rows: Vec<IndexRow> = Vec::new();
        core::mem::swap(&mut self.rows, &mut rows);
        let mut row = rows.remove(k);
        assert(row@ == before[k as int]);
        let r = row.state.search(query, limit, usage, empty_mode, now_sec);
        let ghost after = row@;
        rows.insert(k, row);
        proof {
            let now = seq_view(rows@);
            assert(now =~= before.update(k as int, after));
            assert forall|i: int, j: int| 0 <= i < j < now.len() implies (#[trigger] now[i]).roots != (
            #[trigger] now[j]).roots by {
                assert(now[i].roots == before[i].roots && now[j].roots == before[j].roots);
            }
        }
        core::mem::swap(&mut self.rows, &mut rows);
        r
    }
}

// ---------------------------------------------------------------------------
// Requests
// ---------------------------------------------------------------------------

/// What a request comes to.
#[derive(Debug, PartialEq, Eq)]
pub enum Step {
    /// The response is to be sent; with `shutdown`, the usage is to be
    /// written out and the service ends.
    Reply { response: Response, shutdown: bool },
    /// No index of the roots of the request is held: it is to be built and
    /// installed, and the request handed in again.
    BuildIndex { request: Request },
    /// The application is to be launched as planned, and the outcome reported
    /// with [`finish_launch`].
    Launch { plan: LaunchPlan },
}

/// What a [`Step`] holds.
pub enum StepView {
    Reply { response: ResponseView, shutdown: bool },
    BuildIndex { request: RequestView },
    Launch { plan: LaunchPlanView },
}

impl View for Step {
    type V = StepView;

    open spec fn view(&self) -> StepView {
        match self {
            Step::Reply { response, shutdown } => StepView::Reply {
                response: response@,
                shutdown: *shutdown,
            },
            Step::BuildIndex { request } => StepView::BuildIndex { request: request@ },
            Step::Launch { plan } => StepView::Launch { plan: plan@ },
        }
    }
}

/// The limit of a search request.
pub open spec fn limit_of(limit: Option<usize>) -> usize {
    match limit {
        Some(l) => l,
        None => DEFAULT_LIMIT,
    }
}

/// The mode of a search request for a query without tokens.
pub open spec fn mode_of(mode: Option<EmptyQueryMode>) -> EmptyQueryMode {
    match mode {
        Some(m) => m,
        None => EmptyQueryMode::Recency,
    }
}

/// The roots that a request is about.
pub open spec fn roots_of(req: RequestView) -> Option<Seq<Seq<char>>> {
    match req {
        RequestView::Search { roots, .. } => Some(roots),
        RequestView::Warmup { roots } => Some(roots),
        RequestView::List { roots } => Some(roots),
        RequestView::Launch { roots, .. } => Some(roots),
        RequestView::Status => None,
        RequestView::Shutdown => None,
    }
}

/// What a request comes to, at time `now_sec`: a request about roots whose
/// index is not held asks for that index; `Shutdown` is answered `Done` and ends
/// the service; `Status` reports the number of indexes; `Warmup` is answered
/// `Ok`; `Search` and `List` are answered with entries; `Launch` is answered
/// with an error where the id or the action is unknown, and else asks for the
/// launch.
pub open spec fn stepped(
    rows: Seq<IndexRowView>,
    usage: Map<Seq<char>, Usage>,
    req: RequestView,
    now_sec: u64,
) -> StepView {
    if roots_of(req) is Some && row_pos(rows, roots_of(req)->0) is None {
        StepView::BuildIndex { request: req }
    } else {
        match req {
            RequestView::Shutdown => StepView::Reply { response: ResponseView::Done, shutdown: true },
            RequestView::Status => StepView::Reply {
                response: ResponseView::Status { has_index_count: rows.len() as usize },
                shutdown: false,
            },
            RequestView::Warmup { roots } => StepView::Reply {
                response: ResponseView::Done,
                shutdown: false,
            },
            RequestView::Search { roots, query, limit, empty_mode } => {
                let state = rows[row_pos(rows, roots)->0].state;
                StepView::Reply {
                    response: ResponseView::Entries {
                        entries: outs_at(
                            state.entries,
                            session_picks(
                                state,
                                query,
                                limit_of(limit) as int,
                                usage,
                                mode_of(empty_mode),
                                now_sec,
                            ),
                        ),
                    },
                    shutdown: false,
                }
            },
            RequestView::List { roots } => {
                let state = rows[row_pos(rows, roots)->0].state;
                StepView::Reply {
                    response: ResponseView::Entries {
                        entries: outs_at(state.entries, listing_picks(state.entries)),
                    },
                    shutdown: false,
                }
            },
            RequestView::Launch { roots, desktop_id, action } => {
                let state = rows[row_pos(rows, roots)->0].state;
                match planned(state.entries, desktop_id, action) {
                    Ok(plan) => StepView::Launch { plan },
                    Err(e) => StepView::Reply {
                        response: ResponseView::Error { message: message_of(e) },
                        shutdown: false,
                    },
                }
            },
        }
    }
}

/// The indexes after a request: a search that is answered leaves its session
/// in the index that it was put to; nothing else changes.
pub open spec fn rows_after(rows: Seq<IndexRowView>, req: RequestView) -> Seq<IndexRowView> {
    match req {
        RequestView::Search { roots, query, .. } => match row_pos(rows, roots) {
            Some(k) => rows.update(
                k,
                IndexRowView {
                    roots: rows[k].roots,
                    state: IndexStateView {
                        entries: rows[k].state.entries,
                        session: session_after(rows[k].state, query),
                    },
                },
            ),
            None => rows,
        },
        _ => rows,
    }
}

/// Says what the request `req` comes to at time `now_sec`, and remembers the
/// candidates of a search.
pub fn handle_request(indexes: &mut IndexSet, freqs: &FrequencyStore, req: Request, now_sec: u64) -> (step:
    Step)
    ensures
        step@ == stepped(old(indexes)@, freqs.usage(), req@, now_sec),
        final(indexes)@ == rows_after(old(indexes)@, req@),
{
    match req {
        Request::Shutdown => Step::Reply { response: Response::Done, shutdown: true },
        Request::Status => Step::Reply {
            response: Response::Status { has_index_count: indexes.len() },
            shutdown: false,
        },
        Request::Warmup { roots } => {
            if indexes.contains(roots.as_slice()) {
                Step::Reply { response: Response::Done, shutdown: false }
            } else {
                Step::BuildIndex { request: Request::Warmup { roots } }
            }
        },
        Request::Search { roots, query, limit, empty_mode } => {
            match indexes.position(roots.as_slice()) {
                None => Step::BuildIndex {
                    request: Request::Search { roots, query, limit, empty_mode },
                },
                Some(k) => {
                    let lim = match limit {
                        Some(l) => l,
                        None => DEFAULT_LIMIT,
                    };
                    let mode = match empty_mode {
                        Some(m) => m,
                        None => EmptyQueryMode::Recency,
                    };
                    let entries = indexes.search_at(
                        k,
                        query.as_str(),
                        lim,
                        freqs.map(),
                        mode,
                        now_sec,
                    );
                    Step::Reply { response: Response::Entries { entries }, shutdown: false }
                },
            }
        },
        Request::List { roots } => {
            match indexes.position(roots.as_slice()) {
                None => Step::BuildIndex { request: Request::List { roots } },
                Some(k) => {
                    let entries = list_entries(indexes.entries_at(k).as_slice());
                    Step::Reply { response: Response::Entries { entries }, shutdown: false }
                },
            }
        },
        Request::Launch { roots, desktop_id, action } => {
            match indexes.position(roots.as_slice()) {
                None => Step::BuildIndex { request: Request::Launch { roots, desktop_id, action } },
                Some(k) => {
                    match plan_launch(
                        indexes.entries_at(k).as_slice(),
                        desktop_id.as_str(),
                        &action,
                    ) {
                        Ok(plan) => Step::Launch { plan },
                        Err(e) => Step::Reply {
                            response: Response::Error { message: e.message() },
                            shutdown: false,
                        },
                    }
                },
            }
        },
    }
}

/// The response to a request whose index could not be built.
pub fn index_build_failed() -> (r: Response)
    ensures
        r@ == (ResponseView::Error { message: "failed to build index"@ }),
{
    Response::Error { message: "failed to build index".to_owned() }
}

/// Takes in the outcome of a launch. A launch that went well counts as one
/// more use of `id` at time `now_sec` and is answered `Done`; one that failed
/// is answered with its error, and changes nothing.
pub fn finish_launch(
    freqs: &mut FrequencyStore,
    id: &str,
    outcome: Result<(), String>,
    now_sec: u64,
) -> (r: Response)
    ensures
        match outcome {
            Ok(_) => r@ == ResponseView::Done && final(freqs).usage() == old(freqs).usage().insert(
                id@,
                launched(usage_of(old(freqs).usage(), id@), now_sec),
            ) && final(freqs).dirty(),
            Err(message) => r@ == (ResponseView::Error { message: message@ })
                && final(freqs).usage() == old(freqs).usage()
                && final(freqs).dirty() == old(freqs).dirty(),
        },
{
    match outcome {
        Ok(_) => {
            let _ = freqs.increment_at(id, now_sec);
            Response::Done
        },
        Err(message) => Response::Error { message },
    }
}

// ---------------------------------------------------------------------------
// Starting
// ---------------------------------------------------------------------------

/// What is to be done to start the service.
#[derive(Debug, Clone, Copy, PartialEq, Eq, Structural)]
pub enum Startup {
    /// Another instance answers at the socket: nothing is started.
    AlreadyRunning,
    /// The socket is to be bound, after a socket file that nobody answers at
    /// was removed.
    Bind { remove_stale: bool },
}

/// Decides how to start, given whether somebody answers at the socket path
/// and whether a file is there.
pub fn plan_startup(answers: bool, file_exists: bool) -> (r: Startup)
    ensures
        r == if answers {
            Startup::AlreadyRunning
        } else {
            Startup::Bind { remove_stale: file_exists }
        },
{
    if answers {
        Startup::AlreadyRunning
    } else {
        Startup::Bind { remove_stale: file_exists }
    }
}

} // verus!
