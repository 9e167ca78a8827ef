use crate::error::{GraphError, Result};
use vstd::prelude::*;

verus! {

/// A non-empty node identifier.
#[derive(Debug, Clone, PartialEq, Eq, PartialOrd, Ord, Hash)]
pub struct NodeId(String);

/// What a node stands for.
#[derive(Debug, Clone, PartialEq, Eq, PartialOrd, Ord, Hash)]
#[non_exhaustive]
pub enum NodeKind {
    File,
    Repository,
    Custom(String),
}

/// What an edge records.
#[derive(Debug, Clone, PartialEq, Eq, PartialOrd, Ord, Hash)]
#[non_exhaustive]
pub enum EdgeKind {
    Calls,
    Imports,
    Contains,
    Custom(String),
}

/// How the evidence for an edge was obtained.
#[derive(Debug, Clone, PartialEq, Eq, PartialOrd, Ord, Hash)]
#[non_exhaustive]
pub enum EvidenceKind {
    Parsed,
    Custom(String),
}

/// How far an extractor trusts an edge.
#[derive(Debug, Clone, Copy, PartialEq, Eq, PartialOrd, Ord, Hash)]
pub enum Confidence {
    Low,
    Medium,
    High,
}

/// Which extractor produced an edge, from what evidence, with what
/// confidence.
#[derive(Debug, Clone, PartialEq, Eq, PartialOrd, Ord, Hash)]
pub struct Provenance {
    pub extractor: String,
    pub evidence: EvidenceKind,
    pub confidence: Confidence,
}

/// A graph node.
#[derive(Debug, Clone, PartialEq, Eq, PartialOrd, Ord, Hash)]
pub struct Node {
    pub id: NodeId,
    pub name: String,
    pub kind: NodeKind,
}

/// A directed edge between two node identifiers, with its provenance.
#[derive(Debug, Clone, PartialEq, Eq, PartialOrd, Ord, Hash)]
pub struct Edge {
    pub source: NodeId,
    pub target: NodeId,
    pub kind: EdgeKind,
    pub provenance: Provenance,
}

impl View for NodeId {
    type V = Seq<char>;

    closed spec fn view(&self) -> Seq<char> {
        self.0@
    }
}

/// A kind as the pair that its derived order compares: the variant's
/// position, then the custom text (empty for a named variant).
pub type KindView = (int, Seq<char>);

impl View for NodeKind {
    type V = KindView;

    open spec fn view(&self) -> KindView {
        match self {
            NodeKind::File => (0, Seq::empty()),
            NodeKind::Repository => (1, Seq::empty()),
            NodeKind::Custom(s) => (2, s@),
        }
    }
}

impl View for EdgeKind {
    type V = KindView;

    open spec fn view(&self) -> KindView {
        match self {
            EdgeKind::Calls => (0, Seq::empty()),
            EdgeKind::Imports => (1, Seq::empty()),
            EdgeKind::Contains => (2, Seq::empty()),
            EdgeKind::Custom(s) => (3, s@),
        }
    }
}

impl View for EvidenceKind {
    type V = KindView;

    open spec fn view(&self) -> KindView {
        match self {
            EvidenceKind::Parsed => (0, Seq::empty()),
            EvidenceKind::Custom(s) => (1, s@),
        }
    }
}

impl View for Confidence {
    type V = int;

    open spec fn view(&self) -> int {
        match self {
            Confidence::Low => 0,
            Confidence::Medium => 1,
            Confidence::High => 2,
        }
    }
}

/// The content of a node.
#[verifier::ext_equal]
pub struct NodeView {
    pub id: Seq<char>,
    pub name: Seq<char>,
    pub kind: KindView,
}

/// The content of an edge, provenance included.
#[verifier::ext_equal]
pub struct EdgeView {
    pub source: Seq<char>,
    pub target: Seq<char>,
    pub kind: KindView,
    pub extractor: Seq<char>,
    pub evidence: KindView,
    pub confidence: int,
}

impl View for Node {
    type V = NodeView;

    open spec fn view(&self) -> NodeView {
        NodeView { id: self.id@, name: self.name@, kind: self.kind@ }
    }
}

impl View for Edge {
    type V = EdgeView;

    open spec fn view(&self) -> EdgeView {
        EdgeView {
            source: self.source@,
            target: self.target@,
            kind: self.kind@,
            extractor: self.provenance.extractor@,
            evidence: self.provenance.evidence@,
            confidence: self.provenance.confidence@,
        }
    }
}

impl NodeId {
    /// An identifier from `value`; empty values are refused.
    pub fn new(value: &str) -> (r: Result<NodeId>)
        ensures
            value@.len() == 0 ==> r == Err::<NodeId, GraphError>(GraphError::EmptyNodeId),
            value@.len() > 0 ==> (r matches Ok(id) && id@ == value@),
    {
        if value.is_empty() {
            Err(GraphError::EmptyNodeId)
        } else {
            Ok(NodeId(value.to_owned()))
        }
    }

    /// The identifier text.
    pub fn as_str(&self) -> (r: &str)
        ensures
            r@ == self@,
    {
        self.0.as_str()
    }
}

impl Provenance {
    /// A provenance record; an empty extractor name is refused.
    pub fn new(extractor: &str, evidence: EvidenceKind, confidence: Confidence) -> (r: Result<Provenance>)
        ensures
            extractor@.len() == 0 ==> r == Err::<Provenance, GraphError>(GraphError::EmptyExtractor),
            extractor@.len() > 0 ==> (r matches Ok(p) && p.extractor@ == extractor@ && p.evidence == evidence
                && p.confidence == confidence),
    {
        if extractor.is_empty() {
            Err(GraphError::EmptyExtractor)
        } else {
            Ok(Provenance { extractor: extractor.to_owned(), evidence, confidence })
        }
    }
}

impl Node {
    /// A node with identifier `id`, display name `name` and kind `kind`;
    /// an empty identifier is refused.
    pub fn new(id: &str, name: &str, kind: NodeKind) -> (r: Result<Node>)
        ensures
            id@.len() == 0 ==> r == Err::<Node, GraphError>(GraphError::EmptyNodeId),
            id@.len() > 0 ==> (r matches Ok(n) && n.id@ == id@ && n.name@ == name@ && n.kind == kind),
    {
        let node_id = match NodeId::new(id) {
            Ok(node_id) => node_id,
            Err(e) => return Err(e),
        };
        Ok(Node { id: node_id, name: name.to_owned(), kind })
    }
}

impl Edge {
    pub fn new(source: NodeId, target: NodeId, kind: EdgeKind, provenance: Provenance) -> (r: Edge)
        ensures
            r.source == source,
            r.target == target,
            r.kind == kind,
            r.provenance == provenance,
    {
        Edge { source, target, kind, provenance }
    }
}

} // verus!
