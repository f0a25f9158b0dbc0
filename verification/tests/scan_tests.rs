use formdb_studio::classifier::apply_attested;
use formdb_studio::dependency::{FunctionalDependency, Ratio};
use formdb_studio::error::EngineError;
use formdb_studio::miner::{discover, discover_bounded};
use formdb_studio::normal_form::NormalForm;
use formdb_studio::proposal::{conclude, discover_fds, report, summarize, DiscoveryOutcome};
use formdb_studio::query::QueryRow;
use formdb_studio::scan::Scan;

fn header(items: &[&str]) -> Vec<String> {
    items.iter().map(|s| s.to_string()).collect()
}

fn entry(cells: &[(&str, &str)]) -> QueryRow {
    QueryRow::from_pairs(cells.iter().map(|(k, v)| (k.to_string(), v.to_string())).collect())
}

fn orders() -> Vec<QueryRow> {
    vec![
        entry(&[("id", "1"), ("zip", "10"), ("city", "X"), ("land", "NZ")]),
        entry(&[("id", "2"), ("zip", "10"), ("city", "X"), ("land", "NZ")]),
        entry(&[("id", "3"), ("zip", "20"), ("city", "Y"), ("land", "NZ")]),
        entry(&[("id", "4"), ("zip", "30"), ("city", "Y"), ("land", "NZ")]),
    ]
}

fn outline(fds: &[FunctionalDependency]) -> Vec<(Vec<String>, Vec<String>, u64, u64)> {
    fds.iter()
        .map(|fd| (fd.determinant.clone(), fd.dependent.clone(), fd.confidence.num, fd.confidence.den))
        .collect()
}

const FULL: Ratio = Ratio { num: 1, den: 1 };

#[test]
fn scan_in_steps_finds_what_one_call_finds() {
    let fields = header(&["id", "zip", "city", "land"]);
    let whole = discover(&orders(), &fields, &FULL);
    let mut scan = Scan::begin(orders(), fields.clone(), FULL, 3);
    let mut steps = 0;
    while !scan.is_done() {
        assert_eq!(scan.branches_mined(), steps);
        scan = scan.step();
        steps += 1;
    }
    assert_eq!(steps, fields.len() + 1);
    assert_eq!(scan.fields(), &fields);
    let found = scan.into_found();
    assert_eq!(outline(&found), outline(&whole));
    assert_eq!(
        outline(&found),
        vec![
            (header(&[]), header(&["land"]), 4, 4),
            (header(&["id"]), header(&["zip", "city"]), 4, 4),
            (header(&["zip"]), header(&["city"]), 4, 4),
        ]
    );
}

#[test]
fn stopped_scan_reports_no_normal_form() {
    let fields = header(&["id", "zip", "city", "land"]);
    let scan = Scan::begin(orders(), fields.clone(), FULL, 3).advance(2);
    assert!(!scan.is_done());
    assert_eq!(scan.branches_mined(), 2);
    match conclude(scan, &header(&["id"])).unwrap() {
        DiscoveryOutcome::Cancelled { fds } => {
            assert_eq!(
                outline(&fds),
                vec![
                    (header(&[]), header(&["land"]), 4, 4),
                    (header(&["id"]), header(&["zip", "city"]), 4, 4),
                ]
            );
            let flat = report(DiscoveryOutcome::Cancelled { fds });
            assert_eq!(flat.current_nf, "cancelled");
            assert_eq!(NormalForm::from_label(&flat.current_nf), None);
            assert!(flat.proposals.is_empty());
            assert_eq!(flat.fds.len(), 2);
        }
        DiscoveryOutcome::Complete(_) => panic!("a stopped scan was classified"),
    }
    let untouched = Scan::begin(orders(), fields, FULL, 3).advance(0);
    match conclude(untouched, &header(&["missing"])).unwrap() {
        DiscoveryOutcome::Cancelled { fds } => assert!(fds.is_empty()),
        DiscoveryOutcome::Complete(_) => panic!("a stopped scan was classified"),
    }
}

#[test]
fn finished_scan_is_classified_like_a_discovery_run() {
    let fields = header(&["id", "zip", "city", "land"]);
    let key = header(&["id"]);
    let direct = discover_fds(&orders(), &fields, &key, &FULL).unwrap();
    let scan = Scan::begin(orders(), fields.clone(), FULL, 3).advance(2).finish();
    assert!(scan.is_done());
    let stepped = match conclude(scan, &key).unwrap() {
        DiscoveryOutcome::Complete(r) => r,
        DiscoveryOutcome::Cancelled { .. } => panic!("a finished scan was reported as stopped"),
    };
    assert_eq!(outline(&stepped.fds), outline(&direct.fds));
    assert_eq!(stepped.current_nf, "2NF");
    assert_eq!(direct.current_nf, "2NF");
    assert_eq!(stepped.proposals.len(), 1);
    assert_eq!(stepped.proposals[0].narrative, direct.proposals[0].narrative);
    assert_eq!(
        stepped.proposals[0].narrative,
        "The schema is in 2NF. To reach 3NF, these dependencies must go: {zip} -> {city}. Proposed tables: base (id, zip, land); by_zip (zip, city)."
    );
    let flat = report(DiscoveryOutcome::Complete(stepped));
    assert_eq!(flat.current_nf, "2NF");
    let beyond = Scan::begin(orders(), fields.clone(), FULL, 3).advance(100);
    assert!(beyond.is_done());
    let again = Scan::begin(orders(), fields, FULL, 3).finish().step();
    assert!(again.is_done());
    assert_eq!(again.into_found().len(), 3);
}

#[test]
fn finished_scan_with_a_foreign_key_field_is_inconsistent() {
    let fields = header(&["id", "zip", "city", "land"]);
    let scan = Scan::begin(orders(), fields, FULL, 3).finish();
    match conclude(scan, &header(&["id", "tenant"])) {
        Err(EngineError::InconsistentSchema { missing }) => assert_eq!(missing, "tenant"),
        _ => panic!("a key outside the schema was accepted"),
    }
}

#[test]
fn scan_over_malformed_input_is_complete_and_empty() {
    let scan = Scan::begin(Vec::new(), header(&["id"]), FULL, 3);
    assert!(scan.is_done());
    assert!(scan.step().into_found().is_empty());
    let twice = Scan::begin(orders(), header(&["id", "id"]), FULL, 3);
    assert!(twice.is_done());
    let unbounded = Scan::begin(orders(), header(&["id", "zip"]), Ratio { num: 2, den: 1 }, 3);
    assert!(unbounded.is_done());
    assert!(unbounded.into_found().is_empty());
}

#[test]
fn scan_respects_the_determinant_cap() {
    let fields = header(&["id", "zip", "city", "land"]);
    for cap in 0..3usize {
        let scan = Scan::begin(orders(), fields.clone(), FULL, cap).finish();
        let found = scan.into_found();
        assert_eq!(outline(&found), outline(&discover_bounded(&orders(), &fields, &FULL, cap)));
        assert!(found.iter().all(|fd| fd.determinant.len() <= cap));
    }
}

#[test]
fn summary_classifies_given_dependencies() {
    let fields = header(&["id", "zip", "city"]);
    let fds = vec![
        FunctionalDependency::declared(header(&["id"]), header(&["zip", "city"])),
        FunctionalDependency::declared(header(&["zip"]), header(&["city"])),
    ];
    let result = summarize(fds, &fields, &header(&["id"])).unwrap();
    assert_eq!(result.fds.len(), 2);
    assert_eq!(result.current_nf, "2NF");
    assert_eq!(result.proposals.len(), 1);
    assert_eq!(result.proposals[0].target_nf, "3NF");
    assert!(matches!(
        summarize(Vec::new(), &fields, &header(&["nope"])),
        Err(EngineError::InconsistentSchema { .. })
    ));
}

#[test]
fn attested_form_raises_only_a_schema_in_bcnf() {
    assert_eq!(apply_attested(NormalForm::BCNF, Some(NormalForm::Fourth)), NormalForm::Fourth);
    assert_eq!(apply_attested(NormalForm::BCNF, Some(NormalForm::Fifth)), NormalForm::Fifth);
    assert_eq!(apply_attested(NormalForm::BCNF, Some(NormalForm::Third)), NormalForm::BCNF);
    assert_eq!(apply_attested(NormalForm::BCNF, None), NormalForm::BCNF);
    assert_eq!(apply_attested(NormalForm::Third, Some(NormalForm::Fifth)), NormalForm::Third);
    assert_eq!(apply_attested(NormalForm::First, Some(NormalForm::Fourth)), NormalForm::First);
}

#[test]
fn errors_read_in_words() {
    assert_eq!(
        EngineError::InconsistentSchema { missing: "tenant".to_string() }.message(),
        "inconsistent schema: key field tenant is not a field of the collection"
    );
    assert_eq!(EngineError::UnknownProposal { id: "p9".to_string() }.message(), "unknown proposal: p9");
    assert_eq!(
        EngineError::NonLosslessProposal.message(),
        "the proposal is not lossless and needs to be acknowledged"
    );
    assert_eq!(
        EngineError::NonFDPreservingProposal.message(),
        "the proposal does not preserve every dependency and needs to be acknowledged"
    );
    assert_eq!(EngineError::CommitFailure { message: "disk full".to_string() }.message(), "disk full");
}

#[test]
fn mined_dependencies_are_well_formed_and_within_the_fields() {
    let fields = header(&["id", "zip", "city", "land"]);
    for fd in discover(&orders(), &fields, &FULL) {
        assert!(fd.belongs_to(&fields));
        assert_eq!(fd.is_well_formed(), !fd.is_degenerate());
        assert!(fd.discovered);
    }
    let declared = FunctionalDependency::declared(header(&["a"]), header(&["a", "b"]));
    assert!(!declared.is_well_formed());
    assert!(!declared.discovered);
    assert!(!declared.belongs_to(&fields));
    assert_eq!(declared.describe(), "{a} -> {a, b}");
}
