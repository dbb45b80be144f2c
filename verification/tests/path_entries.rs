use pique::values::path_entries::{EntityKind, PathEntries, PathEntry};

#[test]
fn path_entries_round_trip() {
    let entries = PathEntries {
        entries: vec![
            PathEntry {
                entity_id: "repo::src/api/auth/handler.rs::function::authenticate".into(),
                kind: EntityKind::Function,
            },
            PathEntry {
                entity_id: "repo::src/api/auth/handler.rs::class::AuthHandler".into(),
                kind: EntityKind::Class,
            },
            PathEntry {
                entity_id: "repo::src/api/auth/handler.rs::method::validate_token".into(),
                kind: EntityKind::Method,
            },
        ],
    };

    let encoded = entries.encode();
    let decoded = PathEntries::decode(&encoded).unwrap();
    assert_eq!(entries, decoded);
}

#[test]
fn empty() {
    let entries = PathEntries { entries: vec![] };
    let encoded = entries.encode();
    assert_eq!(encoded.len(), 2);
    let decoded = PathEntries::decode(&encoded).unwrap();
    assert_eq!(entries, decoded);
}
