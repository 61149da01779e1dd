//! An index of the applications of a desktop, and a ranked search in it.
//!
//! The library parses freedesktop entry files into records ([`parser`],
//! [`locale`], [`models`]), gives each its id ([`desktop`]), assembles an
//! index with the help of a cache whose records stay fresh as long as the
//! files do not change ([`cache`]), keeps count of launches ([`frequency`]),
//! and answers queries: tokens, boundary matches, scores and the best
//! entries ([`search`]), with the candidates of the previous query kept for
//! the next ([`session`]). [`daemon`] says what a long-lived service does with
//! each request ([`ipc`]), [`launch`] how an entry becomes a command.
//!
//! The library reads no file, opens no socket and starts no process: whoever
//! calls it does, and hands it plain values. Every executable function is
//! verified against its contract; the few facts that are taken on trust are
//! those about the standard library's characters and paths ([`text`],
//! [`desktop`]), its clock ([`frequency`]) and the splitting of a command
//! line into words ([`launch`]).

pub mod cache;
pub mod daemon;
pub mod desktop;
pub mod empty_query;
pub mod frequency;
pub mod ipc;
pub mod launch;
pub mod locale;
pub mod models;
pub mod order;
pub mod parser;
pub mod search;
pub mod session;
pub mod strmap;
pub mod text;
