use pique::values::adjacency::{AdjacencyList, Edge, RelKind};

#[test]
fn round_trip_simple() {
    let adj = AdjacencyList {
        outgoing: vec![
            Edge { entity_id: "pkg::mod_a::fn_foo".into(), rel_kind: RelKind::Calls },
            Edge { entity_id: "pkg::mod_b::struct_Bar".into(), rel_kind: RelKind::Uses },
        ],
        incoming: vec![
            Edge { entity_id: "pkg::mod_c::fn_main".into(), rel_kind: RelKind::Calls },
        ],
    };

    let encoded = adj.encode();
    let decoded = AdjacencyList::decode(&encoded).unwrap();
    assert_eq!(adj, decoded);
}

#[test]
fn round_trip_custom_kind() {
    let adj = AdjacencyList {
        outgoing: vec![
            Edge {
                entity_id: "some::entity".into(),
                rel_kind: RelKind::Custom("delegates_to".into()),
            },
        ],
        incoming: vec![],
    };

    let encoded = adj.encode();
    let decoded = AdjacencyList::decode(&encoded).unwrap();
    assert_eq!(adj, decoded);
}

#[test]
fn empty_adjacency() {
    let adj = AdjacencyList {
        outgoing: vec![],
        incoming: vec![],
    };

    let encoded = adj.encode();
    assert_eq!(encoded.len(), 4); // Just the two u16 counts
    let decoded = AdjacencyList::decode(&encoded).unwrap();
    assert_eq!(adj, decoded);
}

#[test]
fn large_adjacency_encoding_size() {
    // Simulate a heavily-connected entity (200 outgoing edges)
    let outgoing: Vec<Edge> = (0..200)
        .map(|i| Edge {
            entity_id: format!("acme/myproject::src/query/src/translation.rs::function::helper_{:04}", i),
            rel_kind: RelKind::Calls,
        })
        .collect();

    let adj = AdjacencyList {
        outgoing,
        incoming: vec![],
    };

    let encoded = adj.encode();
    // Each edge: 2 (id_len) + ~100 (id) + 1 (kind) ≈ 103 bytes
    // 200 edges × 103 ≈ 20,600 bytes + 4 header
    assert!(encoded.len() < 30_000, "Encoded size: {}", encoded.len());
    assert!(encoded.len() > 5_000, "Encoded size: {}", encoded.len());

    let decoded = AdjacencyList::decode(&encoded).unwrap();
    assert_eq!(decoded.outgoing.len(), 200);
}
