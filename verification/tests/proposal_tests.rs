use formdb_studio::classifier::{classify, Classification};
use formdb_studio::dependency::{FunctionalDependency, Ratio};
use formdb_studio::error::EngineError;
use formdb_studio::normal_form::NormalForm;
use formdb_studio::proposal::{
    apply_normalization, commit_outcome, discover_fds, explain, propose, NormalizationProposal,
};
use formdb_studio::query::QueryRow;
use formdb_studio::table::TableChange;

fn cols(items: &[&str]) -> Vec<String> {
    items.iter().map(|s| s.to_string()).collect()
}

fn record(cells: &[(&str, &str)]) -> QueryRow {
    QueryRow::from_pairs(cells.iter().map(|(k, v)| (k.to_string(), v.to_string())).collect())
}

fn sample_rows() -> Vec<QueryRow> {
    vec![
        record(&[("id", "1"), ("name", "A"), ("email", "a@x")]),
        record(&[("id", "1"), ("name", "A"), ("email", "a@x")]),
        record(&[("id", "2"), ("name", "B"), ("email", "b@x")]),
    ]
}

fn sample_proposal(id: &str, is_lossless: bool, preserves_fds: bool) -> NormalizationProposal {
    NormalizationProposal {
        id: id.to_string(),
        current_nf: "2NF".to_string(),
        target_nf: "3NF".to_string(),
        violating_fds: vec![FunctionalDependency::declared(cols(&["zip"]), cols(&["city"]))],
        proposed_tables: vec![
            TableChange { name: "base".to_string(), fields: cols(&["id", "zip"]), reason: "r0".to_string() },
            TableChange { name: "by_zip".to_string(), fields: cols(&["zip", "city"]), reason: "r1".to_string() },
        ],
        narrative: String::new(),
        is_lossless,
        preserves_fds,
    }
}

#[test]
fn discovery_run_mines_classifies_and_proposes() {
    let fields = cols(&["id", "name", "email"]);
    let result =
        discover_fds(&sample_rows(), &fields, &cols(&["id"]), &Ratio { num: 99, den: 100 }).unwrap();
    let determinants: Vec<_> = result.fds.iter().map(|fd| fd.determinant.clone()).collect();
    assert_eq!(determinants, vec![cols(&["id"]), cols(&["name"]), cols(&["email"])]);
    assert_eq!(result.current_nf, "2NF");
    assert_eq!(result.proposals.len(), 1);
    let p = &result.proposals[0];
    assert_eq!(p.id, "normalize_to_3NF");
    assert_eq!(p.current_nf, "2NF");
    assert_eq!(p.target_nf, "3NF");
    let violating: Vec<_> = p.violating_fds.iter().map(|fd| fd.determinant.clone()).collect();
    assert_eq!(violating, vec![cols(&["name"]), cols(&["email"])]);
    let tables: Vec<_> = p.proposed_tables.iter().map(|t| (t.name.clone(), t.fields.clone())).collect();
    assert_eq!(
        tables,
        vec![
            ("base".to_string(), cols(&["id", "email"])),
            ("by_email".to_string(), cols(&["email", "id", "name"])),
        ]
    );
    assert!(p.is_lossless);
    assert!(p.preserves_fds);
    assert_eq!(
        p.narrative,
        "The schema is in 2NF. To reach 3NF, these dependencies must go: {name} -> {id, email}; {email} -> {id, name}. Proposed tables: base (id, email); by_email (email, id, name)."
    );
    assert_eq!(explain(p), p.narrative);
}

#[test]
fn discovery_run_without_violation_proposes_nothing() {
    let rows = vec![
        record(&[("id", "1"), ("name", "A")]),
        record(&[("id", "2"), ("name", "A")]),
        record(&[("id", "3"), ("name", "B")]),
    ];
    let result = discover_fds(&rows, &cols(&["id", "name"]), &cols(&["id"]), &Ratio { num: 1, den: 1 }).unwrap();
    assert_eq!(result.fds.len(), 1);
    assert_eq!(result.current_nf, "BCNF");
    assert!(result.proposals.is_empty());
}

#[test]
fn discovery_run_names_the_missing_key_field() {
    let fields = cols(&["id", "name", "email"]);
    match discover_fds(&sample_rows(), &fields, &cols(&["uuid"]), &Ratio { num: 99, den: 100 }) {
        Err(EngineError::InconsistentSchema { missing }) => assert_eq!(missing, "uuid"),
        _ => panic!("a key outside the schema was accepted"),
    }
}

#[test]
fn discovery_run_on_malformed_rows_degrades_to_an_empty_result() {
    let fields = cols(&["id", "name"]);
    let result = discover_fds(&Vec::new(), &fields, &cols(&["id"]), &Ratio { num: 1, den: 1 }).unwrap();
    assert!(result.fds.is_empty());
    assert_eq!(result.current_nf, "BCNF");
    assert!(result.proposals.is_empty());
}

#[test]
fn narrative_names_forms_dependencies_tables_and_warnings() {
    let mut p = sample_proposal("p1", false, false);
    p.narrative = "stale".to_string();
    assert_eq!(
        explain(&p),
        "The schema is in 2NF. To reach 3NF, these dependencies must go: {zip} -> {city}. Proposed tables: base (id, zip); by_zip (zip, city). Warning: rejoining these tables may not give back the rows they were cut from. Warning: some dependency can no longer be checked without a join."
    );
    let q = sample_proposal("p2", true, false);
    assert!(explain(&q).ends_with("by_zip (zip, city). Warning: some dependency can no longer be checked without a join."));
}

#[test]
fn narrative_defaults_where_fields_are_missing() {
    let p = NormalizationProposal {
        id: String::new(),
        current_nf: String::new(),
        target_nf: String::new(),
        violating_fds: Vec::new(),
        proposed_tables: Vec::new(),
        narrative: String::new(),
        is_lossless: true,
        preserves_fds: true,
    };
    assert_eq!(
        explain(&p),
        "The schema is in unknown. To reach unknown, these dependencies must go: none. Proposed tables: none."
    );
}

#[test]
fn proposal_follows_the_classification() {
    let fields = cols(&["order", "item", "qty", "item_name"]);
    let key = cols(&["order", "item"]);
    let fds = vec![
        FunctionalDependency::declared(cols(&["order", "item"]), cols(&["qty"])),
        FunctionalDependency::declared(cols(&["item"]), cols(&["item_name"])),
    ];
    let c = classify(&fields, &key, &fds).unwrap();
    let p = propose(&fields, &key, &c).unwrap();
    assert_eq!(p.id, "normalize_to_2NF");
    assert_eq!(p.current_nf, "1NF");
    assert_eq!(p.target_nf, "2NF");
    assert_eq!(p.proposed_tables.len(), 2);
    assert_eq!(p.proposed_tables[0].fields, cols(&["order", "item", "qty"]));
    assert_eq!(p.proposed_tables[1].fields, cols(&["item", "item_name"]));
    assert!(p.is_lossless && p.preserves_fds);
    let done = Classification { form: NormalForm::BCNF, violating: Vec::new() };
    assert!(propose(&fields, &key, &done).is_none());
}

#[test]
fn safe_proposal_is_handed_out_for_commit() {
    let proposals = vec![sample_proposal("p1", true, true)];
    let tables = apply_normalization(&proposals, "p1", false).unwrap();
    let names: Vec<_> = tables.iter().map(|t| (t.name.clone(), t.fields.clone(), t.reason.clone())).collect();
    assert_eq!(
        names,
        vec![
            ("base".to_string(), cols(&["id", "zip"]), "r0".to_string()),
            ("by_zip".to_string(), cols(&["zip", "city"]), "r1".to_string()),
        ]
    );
}

#[test]
fn lossy_proposal_needs_acknowledgement() {
    let proposals = vec![
        sample_proposal("safe", true, true),
        sample_proposal("lossy", false, true),
        sample_proposal("forgetful", true, false),
        sample_proposal("both", false, false),
        sample_proposal("lossy", true, true),
    ];
    assert!(matches!(apply_normalization(&proposals, "lossy", false), Err(EngineError::NonLosslessProposal)));
    assert!(matches!(
        apply_normalization(&proposals, "forgetful", false),
        Err(EngineError::NonFDPreservingProposal)
    ));
    assert!(matches!(apply_normalization(&proposals, "both", false), Err(EngineError::NonLosslessProposal)));
    for id in ["lossy", "forgetful", "both", "safe"] {
        assert_eq!(apply_normalization(&proposals, id, true).unwrap().len(), 2);
    }
}

#[test]
fn unknown_proposal_is_refused() {
    let proposals = vec![sample_proposal("p1", true, true)];
    match apply_normalization(&proposals, "p2", true) {
        Err(EngineError::UnknownProposal { id }) => assert_eq!(id, "p2"),
        _ => panic!("an unknown proposal was applied"),
    }
    assert!(matches!(
        apply_normalization(&Vec::new(), "p1", true),
        Err(EngineError::UnknownProposal { .. })
    ));
}

#[test]
fn storage_failure_is_surfaced_word_for_word() {
    assert!(matches!(commit_outcome(Ok(())), Ok(true)));
    match commit_outcome(Err("disk full".to_string())) {
        Err(EngineError::CommitFailure { message }) => assert_eq!(message, "disk full"),
        _ => panic!("a failed commit was reported as done"),
    }
}
