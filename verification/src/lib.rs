//! Storage-layer building blocks of a segment-based search engine:
//! a GCD-based columnar value codec and a multi-way sorted term-stream
//! merger, with the arithmetic and ordering facts they rest on.

pub mod fastfield;
pub mod gcd;
pub mod merger;
pub mod query;
