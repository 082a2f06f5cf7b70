//! A small text search engine over documents that arrive as lists of words.
//!
//! The engine keeps two indexes. The forward index holds for each document
//! its words with their weights; the inverted index holds for each term the
//! identifiers of the documents that hold it, in ascending order. The
//! inverted index is built block by block: the postings of whole documents
//! are gathered in a sorted map until a block is full, each block is
//! written as sorted records, and the blocks are merged two by two until
//! one is left. The size of the blocks does not show in what is built. A query is answered
//! with the documents that hold every known word of the query, the best
//! first.
//!
//! The files of the indexes are byte buffers here; reading and writing them
//! is left to the caller. So is all arithmetic on weights and scores: they
//! are carried as the bit patterns of doubles, and the functions that
//! compute them are handed in by the caller.
//!
//! - [`bytes`], [`db`], [`error`]: big-endian integers, the order of byte
//!   strings, documents and their identifiers, decoding errors.
//! - [`record`], [`forward`]: the records of the two contents, as bytes and
//!   as values.
//! - [`term_map`], [`counts`]: a map from terms to values in term order, and
//!   the counting of words.
//! - [`corpus`], [`block`], [`merge`], [`postings`], [`inverted_index`],
//!   [`offsets`], [`builder`]: the inverted index, from the stream of
//!   occurrences to the content and its head.
//! - [`index`]: the forward index.
//! - [`boolean`], [`vectors`], [`ranking`], [`engine`], [`search`]: the
//!   query evaluator.
//! - [`laws`]: what holds of every index that was built.

pub mod block;
pub mod boolean;
pub mod builder;
pub mod bytes;
pub mod corpus;
pub mod counts;
pub mod db;
pub mod engine;
pub mod error;
pub mod forward;
pub mod index;
pub mod inverted_index;
pub mod laws;
pub mod merge;
pub mod offsets;
pub mod postings;
pub mod ranking;
pub mod record;
pub mod search;
pub mod term_map;
pub mod vectors;
