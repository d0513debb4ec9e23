//! Value representation and source reading for a small Lisp-like language:
//! a symbol interning table, a compact tagged-word encoding of values, and a
//! recursive-descent reader that turns text into a tree of tokens.
pub mod list;
pub mod ptrtag;
pub mod reader;
pub mod symcache;
