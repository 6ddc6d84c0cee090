//! The schema's shape, checked on its text.

use nutcracker::schema::{IS_E2E, SCHEMA, SEARCH};

/// Column names declared by the schema, so the test below checks structure rather than any
/// occurrence of a word. `'plaintext_vectors'` appears legitimately as an `index_mode` value,
/// and a naive substring check would flag it.
fn column_names() -> Vec<String> {
    SCHEMA
        .lines()
        .map(str::trim)
        .filter(|l| !l.is_empty() && !l.starts_with("--"))
        .filter_map(|l| {
            let first = l.split_whitespace().next()?.to_lowercase();
            let structural = [
                "create",
                "primary",
                "foreign",
                "references",
                ");",
                ")",
                "on",
                "table",
                "index",
            ];
            (!structural.contains(&first.as_str())).then_some(first)
        })
        .collect()
}

/// The schema must not acquire a column for a user, a namespace name, a plaintext or an
/// embedding. If somebody adds one, this should be what stops them.
#[test]
fn no_column_can_hold_a_user_a_name_or_a_plaintext() {
    let cols = column_names();
    assert!(
        cols.contains(&"ns_handle".to_string()),
        "sanity: the parser found real columns"
    );
    for c in &cols {
        for forbidden in [
            "user",
            "namespace_name",
            "plaintext",
            "embedding",
            "vector",
            "email",
        ] {
            assert!(
                !c.contains(forbidden),
                "column `{c}` looks like it holds `{forbidden}`; this store must not"
            );
        }
    }
}

#[test]
fn search_is_scoped_to_a_namespace_and_bounded() {
    assert!(
        SEARCH.contains("b.ns_handle = $1"),
        "never search across namespaces"
    );
    assert!(SEARCH.contains("LIMIT $3"));
    assert!(SEARCH.contains("shared_bands DESC"));
    assert!(
        SEARCH.contains("i.item_id ASC"),
        "ties must break deterministically"
    );
}

#[test]
fn search_excludes_expired_items() {
    assert!(SEARCH.contains("expires_at IS NULL OR i.expires_at >"));
}

/// Deleting an item must take its buckets with it, or a forgotten memory keeps showing up as
/// a candidate id forever.
#[test]
fn buckets_cascade_on_delete() {
    assert!(SCHEMA.contains("ON DELETE CASCADE"));
}

#[test]
fn the_end_to_end_query_looks_for_any_other_mode() {
    assert!(IS_E2E.contains("ns_handle = $1 AND index_mode <> 'blind'"));
    assert!(IS_E2E.contains("NOT EXISTS"));
}
