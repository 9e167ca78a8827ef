use weavatrix_graph::GraphError;

#[test]
fn messages_spell_out_each_error() {
    assert_eq!(GraphError::EmptyNodeId.message(), "node id must not be empty");
    assert_eq!(
        GraphError::IndexCapacityExceeded { category: "nodes", count: 4294967296 }.message(),
        "nodes count 4294967296 exceeds u32 index capacity"
    );
    assert_eq!(
        GraphError::InvalidTopologyEndpoint { edge: 0, node: 12, node_count: 3 }.message(),
        "edge 0 references node index 12, but node count is 3"
    );
    assert_eq!(
        GraphError::InvalidProbability { numerator: 3, denominator: 2 }.message(),
        "probability 3/2 must have a nonzero denominator and be at most one"
    );
    assert_eq!(
        GraphError::InvalidFormat { format: "DOT", reason: "missing opening brace".to_owned() }.message(),
        "invalid DOT input: missing opening brace"
    );
    assert_eq!(
        GraphError::InvalidKind { category: "node", value: "a\"b".to_owned() }.message(),
        "invalid node kind: \"a\\\"b\""
    );
    assert_eq!(
        GraphError::InvalidSpan { file: "x.rs".to_owned(), reason: "empty" }.message(),
        "invalid source span for \"x.rs\": empty"
    );
    assert_eq!(
        GraphError::InvalidStableKey { category: "node", slot: 7, generation: 2 }.message(),
        "node key at slot 7, generation 2 is stale or invalid"
    );
    assert_eq!(
        GraphError::PayloadCountMismatch { category: "edge", expected: 4, actual: 5 }.message(),
        "edge payload count 5 does not match topology count 4"
    );
    assert_eq!(
        GraphError::CycleWouldBeCreated.message(),
        "mutation would violate the acyclic graph invariant"
    );
    assert_eq!(GraphError::MissingKeyedNode { endpoint: "source" }.message(), "keyed graph source node does not exist");
    assert_eq!(GraphError::NegativeCycle { algorithm: "SPFA" }.message(), "SPFA found a reachable negative cycle");
}
