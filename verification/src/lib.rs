//! Core of a server-side-apply deployment tool, verified with Verus.
//!
//! The library holds, as pure and fully specified logic:
//!
//! - a field-path micro-language — the path model ([`element`]), its text
//!   codec ([`parse`]) and a tree-mutation engine ([`ext`]) over a JSON-like
//!   document model ([`value`]), with structured, path-aware errors
//!   ([`error`]);
//! - the apply/prune engine — the parser for the apiserver's free-text
//!   conflict messages ([`conflict`]), object identities with
//!   API-group-normalizing equality and the kind catalog ([`kinds`],
//!   [`discovery`]), and the per-document pipeline of label injection,
//!   conflict resolution and prune computation ([`apply`]).
//!
//! Network requests are not performed here: the surrounding program issues
//! them and feeds every response back into these functions as plain values.

pub mod apply;
pub mod conflict;
pub mod discovery;
pub mod element;
pub mod error;
pub mod ext;
pub mod kinds;
pub mod parse;
pub mod strutil;
pub mod value;
