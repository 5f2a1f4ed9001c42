//! A mounting layer that routes a request path to the most specific of several
//! registered handlers and rewrites the path so the matched handler sees it as
//! relative to its own mount prefix.

pub mod laws;
pub mod mount;
pub mod request;
pub mod route;
pub mod trie;
