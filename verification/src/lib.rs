//! An HTTP/1.1 client toolkit for a small web crawler: a request builder that
//! serialises requests, a parser for responses (plain and chunked bodies), and
//! the crawler's bookkeeping of which pages to visit next.

pub mod headers;
pub mod html;
pub mod http;
pub mod text;
pub mod crawler;
pub mod session;
