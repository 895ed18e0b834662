//! A bounded-depth, deduplicated crawl of a remote "follows" graph.
//!
//! The crawl starts from a root identity and discovers connected identities
//! through a paginated listing operation. Each newly discovered identity is
//! handed to an enrichment stage exactly once, and each identity's follow
//! list is expanded at most once. The engine itself performs no I/O: it is a
//! step machine that tells its caller which remote call or report to make
//! next, and the caller feeds each page of results back in.

pub mod dedup;
pub mod profile;
pub mod walker;
