//! Row shapes shared by the store, the display layer and the link-graph
//! logic.
use vstd::prelude::*;

verus! {

/// One directed edge of the link graph.
#[derive(Debug, Clone)]
pub struct Link {
    pub from_id: String,
    pub to_id: String,
    pub relationship: String,
}

/// A raw inbox item awaiting classification.
#[derive(Debug, Clone)]
pub struct InboxItem {
    pub id: String,
    pub content: String,
    pub source: String,
    pub created: String,
}

/// A `contradicts` edge with both endpoints' content.
#[derive(Debug, Clone)]
pub struct ContradictionPair {
    pub from_id: String,
    pub from_content: String,
    pub to_id: String,
    pub to_content: String,
}

/// One row of the `slugs` table.
#[derive(Debug, Clone)]
pub struct SlugRow {
    pub slug: String,
    pub unit_id: String,
    pub created: String,
}

/// A link together with what identifies the unit at its other end: its
/// first slug (if any) and its derived headline.
#[derive(Debug, Clone)]
pub struct LinkedUnit {
    pub from_id: String,
    pub to_id: String,
    pub relationship: String,
    pub slug: Option<String>,
    pub headline: String,
}

/// The fields of a stored unit that the audit and priming logic read.
#[derive(Debug, Clone)]
pub struct UnitCore {
    pub id: String,
    pub content: String,
    pub unit_type: String,
    pub tags: Vec<String>,
}

} // verus!
