//! PDF documents as graphs of indirect objects.
//!
//! A document in memory is an [`document::ObjectGraph`]: a table that owns
//! its objects and a trailer that names the catalog. On it work the graph
//! copier ([`copier`]), the page tree ([`pages`]), merging and splitting
//! ([`operations`]), rotation ([`rotate`]), metadata with its date strings
//! ([`metadata`], [`date`]) and stream compression ([`compress`]). Reading
//! and writing files is left to the caller.

pub mod assemble;
pub mod compress;
pub mod copier;
pub mod date;
pub mod document;
pub mod encryption;
pub mod error;
pub mod fixture;
pub mod graph;
pub mod metadata;
pub mod names;
pub mod object;
pub mod operations;
pub mod pages;
pub mod rotate;
pub mod table;
