use crate::format::text::{decimal, decimal_text};
use vstd::prelude::*;
use vstd::string::StringExecFns;

verus! {

/// Every failure the graph core reports.
#[derive(Debug, Clone, PartialEq, Eq)]
#[non_exhaustive]
#[allow(inconsistent_fields)]
pub enum GraphError {
    EmptyNodeId,
    InvalidKind { category: &'static str, value: String },
    ConflictingNode { id: String },
    MissingEdgeSource { id: String },
    MissingEdgeTarget { id: String },
    EmptyExtractor,
    InvalidSpan { file: String, reason: &'static str },
    IndexCapacityExceeded { category: &'static str, count: usize },
    InvalidTopologyEndpoint { edge: usize, node: usize, node_count: usize },
    ArithmeticOverflow { operation: &'static str },
    InvalidNodeIndex { node: usize, node_count: usize },
    InvalidProbability { numerator: u64, denominator: u64 },
    InvalidAlgorithmParameter { algorithm: &'static str, parameter: &'static str, value: String },
    NegativeCycle { algorithm: &'static str },
    CyclicGraph { algorithm: &'static str },
    InvalidFormat { format: &'static str, reason: String },
    UnsupportedGraphFeature { format: &'static str, feature: &'static str },
    PayloadCountMismatch { category: &'static str, expected: usize, actual: usize },
    InvalidStableKey { category: &'static str, slot: u32, generation: u32 },
    MissingKeyedNode { endpoint: &'static str },
    CycleWouldBeCreated,
}

/// Result type used across the crate.
pub type Result<T> = core::result::Result<T, GraphError>;

/// The text `{:?}` writes for a string: quoted, with escapes.
pub uninterp spec fn quoted(s: Seq<char>) -> Seq<char>;

/// The quoted, escaped text of `s`, as `format!("{s:?}")` writes it; the
/// escaping rules follow the Unicode tables of the standard library, so
/// the result is named, not spelled out.
#[verifier::external_body]
fn quoted_text(s: &str) -> (r: String)
    ensures
        r@ == quoted(s@),
{
    format!("{s:?}")
}

/// The human-readable message for an error.
pub open spec fn message_of(e: GraphError) -> Seq<char> {
    match e {
        GraphError::EmptyNodeId => "node id must not be empty"@,
        GraphError::InvalidKind { category, value } => "invalid "@ + category@ + " kind: "@ + quoted(value@),
        GraphError::ConflictingNode { id } => "node id "@ + id@ + " has conflicting definitions"@,
        GraphError::MissingEdgeSource { id } => "edge source does not exist: "@ + id@,
        GraphError::MissingEdgeTarget { id } => "edge target does not exist: "@ + id@,
        GraphError::EmptyExtractor => "provenance extractor must not be empty"@,
        GraphError::InvalidSpan { file, reason } => "invalid source span for "@ + quoted(file@) + ": "@ + reason@,
        GraphError::IndexCapacityExceeded { category, count } => category@ + " count "@ + decimal(count as nat)
            + " exceeds u32 index capacity"@,
        GraphError::InvalidTopologyEndpoint { edge, node, node_count } => "edge "@ + decimal(edge as nat)
            + " references node index "@ + decimal(node as nat) + ", but node count is "@ + decimal(
            node_count as nat,
        ),
        GraphError::ArithmeticOverflow { operation } => "arithmetic overflow while computing "@ + operation@,
        GraphError::InvalidNodeIndex { node, node_count } => "node index "@ + decimal(node as nat)
            + " is outside matrix node count "@ + decimal(node_count as nat),
        GraphError::InvalidProbability { numerator, denominator } => "probability "@ + decimal(numerator as nat)
            + "/"@ + decimal(denominator as nat) + " must have a nonzero denominator and be at most one"@,
        GraphError::InvalidAlgorithmParameter { algorithm, parameter, value } => "invalid "@ + parameter@ + " for "@
            + algorithm@ + ": "@ + value@,
        GraphError::NegativeCycle { algorithm } => algorithm@ + " found a reachable negative cycle"@,
        GraphError::CyclicGraph { algorithm } => algorithm@ + " requires an acyclic graph"@,
        GraphError::InvalidFormat { format, reason } => "invalid "@ + format@ + " input: "@ + reason@,
        GraphError::UnsupportedGraphFeature { format, feature } => format@ + " does not support "@ + feature@,
        GraphError::PayloadCountMismatch { category, expected, actual } => category@ + " payload count "@ + decimal(
            actual as nat,
        ) + " does not match topology count "@ + decimal(expected as nat),
        GraphError::InvalidStableKey { category, slot, generation } => category@ + " key at slot "@ + decimal(
            slot as nat,
        ) + ", generation "@ + decimal(generation as nat) + " is stale or invalid"@,
        GraphError::MissingKeyedNode { endpoint } => "keyed graph "@ + endpoint@ + " node does not exist"@,
        GraphError::CycleWouldBeCreated => "mutation would violate the acyclic graph invariant"@,
    }
}

impl GraphError {
    /// The human-readable message for this error.
    pub fn message(&self) -> (r: String)
        ensures
            r@ == message_of(*self),
    {
        let mut out = String::new();
        match self {
            GraphError::EmptyNodeId => {
                out.append("node id must not be empty");
            },
            GraphError::InvalidKind { category, value } => {
                out.append("invalid ");
                out.append(category);
                out.append(" kind: ");
                out.append(quoted_text(value.as_str()).as_str());
            },
            GraphError::ConflictingNode { id } => {
                out.append("node id ");
                out.append(id.as_str());
                out.append(" has conflicting definitions");
            },
            GraphError::MissingEdgeSource { id } => {
                out.append("edge source does not exist: ");
                out.append(id.as_str());
            },
            GraphError::MissingEdgeTarget { id } => {
                out.append("edge target does not exist: ");
                out.append(id.as_str());
            },
            GraphError::EmptyExtractor => {
                out.append("provenance extractor must not be empty");
            },
            GraphError::InvalidSpan { file, reason } => {
                out.append("invalid source span for ");
                out.append(quoted_text(file.as_str()).as_str());
                out.append(": ");
                out.append(reason);
            },
            GraphError::IndexCapacityExceeded { category, count } => {
                out.append(category);
                out.append(" count ");
                out.append(decimal_text(*count as u64).as_str());
                out.append(" exceeds u32 index capacity");
            },
            GraphError::InvalidTopologyEndpoint { edge, node, node_count } => {
                out.append("edge ");
                out.append(decimal_text(*edge as u64).as_str());
                out.append(" references node index ");
                out.append(decimal_text(*node as u64).as_str());
                out.append(", but node count is ");
                out.append(decimal_text(*node_count as u64).as_str());
            },
            GraphError::ArithmeticOverflow { operation } => {
                out.append("arithmetic overflow while computing ");
                out.append(operation);
            },
            GraphError::InvalidNodeIndex { node, node_count } => {
                out.append("node index ");
                out.append(decimal_text(*node as u64).as_str());
                out.append(" is outside matrix node count ");
                out.append(decimal_text(*node_count as u64).as_str());
            },
            GraphError::InvalidProbability { numerator, denominator } => {
                out.append("probability ");
                out.append(decimal_text(*numerator).as_str());
                out.append("/");
                out.append(decimal_text(*denominator).as_str());
                out.append(" must have a nonzero denominator and be at most one");
            },
            GraphError::InvalidAlgorithmParameter { algorithm, parameter, value } => {
                out.append("invalid ");
                out.append(parameter);
                out.append(" for ");
                out.append(algorithm);
                out.append(": ");
                out.append(value.as_str());
            },
            GraphError::NegativeCycle { algorithm } => {
                out.append(algorithm);
                out.append(" found a reachable negative cycle");
            },
            GraphError::CyclicGraph { algorithm } => {
                out.append(algorithm);
                out.append(" requires an acyclic graph");
            },
            GraphError::InvalidFormat { format, reason } => {
                out.append("invalid ");
                out.append(format);
                out.append(" input: ");
                out.append(reason.as_str());
            },
            GraphError::UnsupportedGraphFeature { format, feature } => {
                out.append(format);
                out.append(" does not support ");
                out.append(feature);
            },
            GraphError::PayloadCountMismatch { category, expected, actual } => {
                out.append(category);
                out.append(" payload count ");
                out.append(decimal_text(*actual as u64).as_str());
                out.append(" does not match topology count ");
                out.append(decimal_text(*expected as u64).as_str());
            },
            GraphError::InvalidStableKey { category, slot, generation } => {
                out.append(category);
                out.append(" key at slot ");
                out.append(decimal_text(*slot as u64).as_str());
                out.append(", generation ");
                out.append(decimal_text(*generation as u64).as_str());
                out.append(" is stale or invalid");
            },
            GraphError::MissingKeyedNode { endpoint } => {
                out.append("keyed graph ");
                out.append(endpoint);
                out.append(" node does not exist");
            },
            GraphError::CycleWouldBeCreated => {
                out.append("mutation would violate the acyclic graph invariant");
            },
        }
        proof {
            assert(out@ =~= message_of(*self));
        }
        out
    }
}

} // verus!
