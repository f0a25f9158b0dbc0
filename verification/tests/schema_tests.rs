use formdb_studio::schema::{generate_fqldt, CollectionDef, FieldDef};

fn field(name: &str, field_type: &str, min: Option<i64>, max: Option<i64>, required: bool) -> FieldDef {
    FieldDef { name: name.to_string(), field_type: field_type.to_string(), min, max, required }
}

#[test]
fn generates_statement_for_every_field_type() {
    let collection = CollectionDef {
        name: "articles".to_string(),
        fields: vec![
            field("score", "number", Some(0), Some(100), false),
            field("views", "number", None, Some(5), false),
            field("title", "text", None, None, true),
            field("note", "text", None, None, false),
            field("trust", "confidence", None, None, false),
            field("prompt", "prompt_scores", None, None, false),
            field("blob", "binary", None, None, false),
        ],
    };
    let expected = "CREATE COLLECTION articles (\n  id : UUID,\n  score : BoundedNat 0 100,\n  views : Int,\n  title : NonEmptyString,\n  note : Option String,\n  trust : Confidence,\n  prompt : PromptScores,\n  blob : String\n) WITH DEPENDENT_TYPES, PROVENANCE_TRACKING;";
    assert_eq!(generate_fqldt(collection), Ok(expected.to_string()));
}

#[test]
fn generates_statement_without_fields() {
    let collection = CollectionDef { name: "empty".to_string(), fields: Vec::new() };
    assert_eq!(
        generate_fqldt(collection),
        Ok("CREATE COLLECTION empty (\n  id : UUID\n) WITH DEPENDENT_TYPES, PROVENANCE_TRACKING;".to_string())
    );
}

#[test]
fn bounded_number_needs_both_bounds() {
    let both = field("n", "number", Some(-5), Some(i64::MAX), true);
    let lower = field("n", "number", Some(1), None, true);
    let neither = field("n", "number", None, None, false);
    let render = |f: FieldDef| {
        generate_fqldt(CollectionDef { name: "c".to_string(), fields: vec![f] }).unwrap()
    };
    assert!(render(both).contains(",\n  n : BoundedNat -5 9223372036854775807\n"));
    assert!(render(lower).contains(",\n  n : Int\n"));
    assert!(render(neither).contains(",\n  n : Int\n"));
}
