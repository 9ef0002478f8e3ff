//! An index over a set of markdown documents: documents are normalized
//! (front matter split off, wiki-links rewritten, plain text and links
//! extracted), reconciled incrementally into a store keyed by URI, and
//! queried with ranked prefix search over a token projection.

pub mod frontmatter;
pub mod index;
pub mod markdown;
pub mod query;
pub mod scan;
pub mod strutil;
pub mod uris;
