//! Crawler library for Geminispace: link normalisation, link extraction,
//! the page cache, and the breadth-first crawl that builds the page graph.

pub mod cache;
pub mod graph;
pub mod link;
pub mod text;
pub mod page;
pub mod crawl;
