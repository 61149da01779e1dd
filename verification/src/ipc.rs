//! The requests that the service answers, and its responses.

use vstd::prelude::*;
use crate::empty_query::EmptyQueryMode;
use crate::models::{DesktopEntryOut, EntryView};
use crate::text::{opt_view, seq_view};

verus! {

/// A request to the service.
#[derive(Debug, PartialEq, Eq)]
pub enum Request {
    /// Search the index of `roots`.
    Search { roots: Vec<String>, query: String, limit: Option<usize>, empty_mode: Option<EmptyQueryMode> },
    /// Build the index of `roots`, unless it is held.
    Warmup { roots: Vec<String> },
    /// List the index of `roots`.
    List { roots: Vec<String> },
    /// Launch an entry of the index of `roots`.
    Launch { roots: Vec<String>, desktop_id: String, action: Option<String> },
    /// Report how many indexes are held.
    Status,
    /// Stop serving.
    Shutdown,
}

/// What a [`Request`] holds.
pub enum RequestView {
    Search {
        roots: Seq<Seq<char>>,
        query: Seq<char>,
        limit: Option<usize>,
        empty_mode: Option<EmptyQueryMode>,
    },
    Warmup { roots: Seq<Seq<char>> },
    List { roots: Seq<Seq<char>> },
    Launch { roots: Seq<Seq<char>>, desktop_id: Seq<char>, action: Option<Seq<char>> },
    Status,
    Shutdown,
}

impl View for Request {
    type V = RequestView;

    open spec fn view(&self) -> RequestView {
        match self {
            Request::Search { roots, query, limit, empty_mode } => RequestView::Search {
                roots: seq_view(roots@),
                query: query@,
                limit: *limit,
                empty_mode: *empty_mode,
            },
            Request::Warmup { roots } => RequestView::Warmup { roots: seq_view(roots@) },
            Request::List { roots } => RequestView::List { roots: seq_view(roots@) },
            Request::Launch { roots, desktop_id, action } => RequestView::Launch {
                roots: seq_view(roots@),
                desktop_id: desktop_id@,
                action: opt_view(*action),
            },
            Request::Status => RequestView::Status,
            Request::Shutdown => RequestView::Shutdown,
        }
    }
}

/// A response of the service.
#[derive(Debug, PartialEq, Eq)]
pub enum Response {
    /// The request was carried out.
    Done,
    Error { message: String },
    Entries { entries: Vec<DesktopEntryOut> },
    Status { has_index_count: usize },
}

/// What a [`Response`] holds.
pub enum ResponseView {
    Done,
    Error { message: Seq<char> },
    Entries { entries: Seq<EntryView> },
    Status { has_index_count: usize },
}

impl View for Response {
    type V = ResponseView;

    open spec fn view(&self) -> ResponseView {
        match self {
            Response::Done => ResponseView::Done,
            Response::Error { message } => ResponseView::Error { message: message@ },
            Response::Entries { entries } => ResponseView::Entries { entries: seq_view(entries@) },
            Response::Status { has_index_count } => ResponseView::Status {
                has_index_count: *has_index_count,
            },
        }
    }
}

} // verus!
