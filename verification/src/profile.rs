//! The record produced by the enrichment stage for one identity.

use vstd::prelude::*;

verus! {

/// Attributes observed for one identity: who it is, when the remote service
/// last indexed it, its display name, and its follower count. Immutable once
/// received; the consumer emits one of these per successful profile lookup.
pub struct EnrichedProfile {
    pub identity: String,
    pub indexed_at: String,
    pub display_name: Option<String>,
    pub followers_count: Option<i64>,
}

impl EnrichedProfile {
    pub fn new(
        identity: String,
        indexed_at: String,
        display_name: Option<String>,
        followers_count: Option<i64>,
    ) -> (p: EnrichedProfile)
        ensures
            p.identity@ == identity@,
            p.indexed_at@ == indexed_at@,
            p.display_name.deep_view() == display_name.deep_view(),
            p.followers_count == followers_count,
    {
        EnrichedProfile { identity, indexed_at, display_name, followers_count }
    }
}

} // verus!
