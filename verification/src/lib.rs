//! A lexical scanner that turns raw source bytes into a flat, densely packed
//! token stream.  Compound tokens (parenthesized, bracketed and curly-brace
//! groups) encode their nested content inline through a `lenTokens` field
//! rather than through pointers, so a consumer can skip a whole subtree in
//! O(1).  Token records live in an append-only chunked arena whose indices
//! stay valid across growth, which is what makes backpatching of group
//! headers possible.
//!
//! Two conventions are fixed here: a dot between two word characters starts
//! a fresh `dotWord` token (so `a.b` lexes as a `word` then a `dotWord`),
//! and scanning halts at the first fatal error, since a partially
//! backpatched group cannot be soundly finalized after one.
#![allow(non_snake_case)]
#![allow(non_camel_case_types)]
#![allow(non_upper_case_globals)]

pub mod lexer;
pub mod lexer_types;
pub mod laws;
