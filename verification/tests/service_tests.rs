use formdb_studio::document::{
    document_id, insert_document, insert_report, validate_document, DocumentWithProvenance, ProvenanceInfo,
};
use formdb_studio::obligations::{apply_tactic, get_proof_obligations};
use formdb_studio::query::{execute_query, explain_query, QueryDef, QueryFilter, QueryRow};
use formdb_studio::schema::validate_fqldt;

fn provenance() -> ProvenanceInfo {
    ProvenanceInfo { source: "survey".to_string(), rationale: "field work".to_string(), confidence: 80 }
}

fn query(collection: &str, filters: usize) -> QueryDef {
    QueryDef {
        collection: collection.to_string(),
        filters: (0..filters)
            .map(|i| QueryFilter { field: format!("f{}", i), operator: "=".to_string(), value: "1".to_string() })
            .collect(),
        limit: Some(10),
        include_provenance: true,
    }
}

#[test]
fn inserted_document_gets_a_fresh_identifier() {
    let mut doc = DocumentWithProvenance::new("articles".to_string(), provenance());
    doc.set("title".to_string(), "Hello".to_string());
    let first = insert_document(doc).unwrap();
    assert!(first.success);
    assert_eq!(first.message, "Document inserted with provenance tracking");
    assert_eq!(first.proofs, vec!["constraints_satisfied".to_string()]);
    let id = first.document_id.unwrap();
    assert_eq!(id.chars().count(), 40);
    assert!(id.starts_with("doc_"));
    let uuid: Vec<char> = id.chars().skip(4).collect();
    for (i, c) in uuid.iter().enumerate() {
        if i == 8 || i == 13 || i == 18 || i == 23 {
            assert_eq!(*c, '-');
        } else {
            assert!(c.is_ascii_hexdigit() && !c.is_ascii_uppercase());
        }
    }
    assert_eq!(uuid[14], '4');
    let second = insert_document(DocumentWithProvenance::new("articles".to_string(), provenance())).unwrap();
    assert_ne!(second.document_id.unwrap(), id);
}

#[test]
fn document_identifier_is_the_prefixed_uuid() {
    assert_eq!(document_id("abc"), "doc_abc");
    assert_eq!(document_id(""), "doc_");
    let report = insert_report("0000");
    assert!(report.success);
    assert_eq!(report.document_id, Some("doc_0000".to_string()));
    assert_eq!(report.message, "Document inserted with provenance tracking");
    assert_eq!(report.proofs, vec!["constraints_satisfied".to_string()]);
}

#[test]
fn document_without_schema_has_no_violation() {
    let row = QueryRow::from_pairs(vec![("age".to_string(), "-4".to_string())]);
    assert!(validate_document("people".to_string(), row.data).unwrap().is_empty());
}

#[test]
fn query_explanation_counts_the_filters() {
    assert_eq!(explain_query(query("users", 2)).unwrap(), "EXPLAIN for users with 2 filters");
    assert_eq!(explain_query(query("", 0)).unwrap(), "EXPLAIN for  with 0 filters");
    assert_eq!(explain_query(query("logs", 12)).unwrap(), "EXPLAIN for logs with 12 filters");
}

#[test]
fn query_without_storage_returns_no_rows() {
    let result = execute_query(query("users", 1)).unwrap();
    assert!(result.rows.is_empty());
    assert_eq!(result.total, 0);
    assert_eq!(result.execution_time_ms, 5);
}

#[test]
fn rows_hold_the_latest_value_of_each_field() {
    let mut row = QueryRow::new();
    assert!(!row.has("id"));
    assert_eq!(row.get("id"), None);
    row.set("id".to_string(), "1".to_string());
    row.set("name".to_string(), "A".to_string());
    row.set("id".to_string(), "2".to_string());
    assert!(row.has("id") && row.has("name") && !row.has("email"));
    assert_eq!(row.get("id"), Some(&"2".to_string()));
    let built = QueryRow::from_pairs(vec![
        ("k".to_string(), "old".to_string()),
        ("j".to_string(), "x".to_string()),
        ("k".to_string(), "new".to_string()),
    ]);
    assert_eq!(built.get("k"), Some(&"new".to_string()));
    assert_eq!(built.get("j"), Some(&"x".to_string()));
    assert_eq!(built.get("i"), None);
}

#[test]
fn validation_reports_bounds_proof_for_bounded_numbers() {
    let bounded = validate_fqldt("CREATE COLLECTION c (\n  n : BoundedNat 0 9\n);".to_string()).unwrap();
    assert!(bounded.valid);
    assert!(bounded.errors.is_empty());
    assert_eq!(bounded.proofs_generated, vec!["bounds_valid".to_string()]);
    let plain = validate_fqldt("CREATE COLLECTION c (\n  n : Int\n);".to_string()).unwrap();
    assert!(plain.valid);
    assert!(plain.errors.is_empty());
    assert!(plain.proofs_generated.is_empty());
}

#[test]
fn prover_placeholders_accept_everything() {
    assert!(get_proof_obligations("users".to_string()).unwrap().is_empty());
    assert_eq!(apply_tactic("ob1".to_string(), "simp".to_string()), Ok(true));
}
