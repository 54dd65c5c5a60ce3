//! Records for the link-graph visualization.
//!
//! A node stands for a note, weighted by how many link edges touch it; an
//! edge stands for one directed link.  Turning these records into the
//! visualization's data file is presentation work outside the crate.

use vstd::prelude::*;

verus! {

/// One node of the rendered link graph.
#[derive(Debug)]
pub struct GraphNode {
    pub id: String,
    pub label: String,
    pub weight: usize,
}

impl GraphNode {
    /// Bundle a node from its parts.
    pub fn from(id: &str, label: &str, weight: usize) -> (r: GraphNode)
        ensures
            r.id@ == id@,
            r.label@ == label@,
            r.weight == weight,
    {
        GraphNode { id: id.to_owned(), label: label.to_owned(), weight }
    }
}

/// One directed edge of the rendered link graph.
#[derive(Debug)]
pub struct GraphEdge {
    pub id: String,
    pub source: String,
    pub target: String,
}

impl GraphEdge {
    /// Bundle an edge from its parts.
    pub fn from(id: &str, source: &str, target: &str) -> (r: GraphEdge)
        ensures
            r.id@ == id@,
            r.source@ == source@,
            r.target@ == target@,
    {
        GraphEdge { id: id.to_owned(), source: source.to_owned(), target: target.to_owned() }
    }
}

} // verus!
