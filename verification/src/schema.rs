//! Collection definitions and the FQLdt text generated from them.

use vstd::prelude::*;
use vstd::string::*;
use crate::text::{contains_text, occurs_in, render_signed, same_text, signed_decimal};

verus! {

/// One field of a collection as the schema editor describes it.
#[derive(Debug, Clone)]
pub struct FieldDef {
    pub name: String,
    pub field_type: String,
    pub min: Option<i64>,
    pub max: Option<i64>,
    pub required: bool,
}

/// A collection: its name and its fields in declaration order.
#[derive(Debug, Clone)]
pub struct CollectionDef {
    pub name: String,
    pub fields: Vec<FieldDef>,
}

/// The FQLdt type that a field definition maps to.
pub open spec fn field_type_text(f: FieldDef) -> Seq<char> {
    if f.field_type@ == "number"@ {
        if f.min is Some && f.max is Some {
            "BoundedNat "@ + signed_decimal(f.min->0 as int) + " "@ + signed_decimal(
                f.max->0 as int,
            )
        } else {
            "Int"@
        }
    } else if f.field_type@ == "text"@ {
        if f.required {
            "NonEmptyString"@
        } else {
            "Option String"@
        }
    } else if f.field_type@ == "confidence"@ {
        "Confidence"@
    } else if f.field_type@ == "prompt_scores"@ {
        "PromptScores"@
    } else {
        "String"@
    }
}

/// The declaration lines of the given fields, each led by a comma and a line break.
pub open spec fn field_lines(fields: Seq<FieldDef>) -> Seq<char>
    decreases fields.len(),
{
    if fields.len() == 0 {
        Seq::empty()
    } else {
        field_lines(fields.drop_last()) + ",\n  "@ + fields.last().name@ + " : "@
            + field_type_text(fields.last())
    }
}

/// The complete `CREATE COLLECTION` statement for a collection.
pub open spec fn fqldt_text(c: CollectionDef) -> Seq<char> {
    "CREATE COLLECTION "@ + c.name@ + " (\n  id : UUID"@ + field_lines(c.fields@)
        + "\n) WITH DEPENDENT_TYPES, PROVENANCE_TRACKING;"@
}

/// Renders the FQLdt type of one field.
pub fn field_type_name(field: &FieldDef) -> (s: String)
    ensures
        s@ == field_type_text(*field),
{
    let kind = field.field_type.as_str();
    if same_text(kind, "number") {
        match (field.min, field.max) {
            (Some(min), Some(max)) => {
                let mut s = String::from_str("BoundedNat ");
                let lo = render_signed(min);
                s.append(lo.as_str());
                s.append(" ");
                let hi = render_signed(max);
                s.append(hi.as_str());
                s
            },
            _ => String::from_str("Int"),
        }
    } else if same_text(kind, "text") {
        if field.required {
            String::from_str("NonEmptyString")
        } else {
            String::from_str("Option String")
        }
    } else if same_text(kind, "confidence") {
        String::from_str("Confidence")
    } else if same_text(kind, "prompt_scores") {
        String::from_str("PromptScores")
    } else {
        String::from_str("String")
    }
}

/// Generates the FQLdt statement that creates `collection`.
///
/// Generation never fails: the result is always `Ok`.
pub fn generate_fqldt(collection: CollectionDef) -> (res: Result<String, String>)
    ensures
        res is Ok,
        res->Ok_0@ == fqldt_text(collection),
{
    let mut fql = String::from_str("CREATE COLLECTION ");
    fql.append(collection.name.as_str());
    fql.append(" (\n  id : UUID");
    let ghost head = fql@;
    let mut i: usize = 0;
    while i < collection.fields.len()
        invariant
            i <= collection.fields.len(),
            fql@ == head + field_lines(collection.fields@.take(i as int)),
        decreases collection.fields.len() - i,
    {
        let field = &collection.fields[i];
        let type_str = field_type_name(field);
        proof {
            assert(collection.fields@.take(i + 1).drop_last() =~= collection.fields@.take(
                i as int,
            ));
        }
        fql.append(",\n  ");
        fql.append(field.name.as_str());
        fql.append(" : ");
        fql.append(type_str.as_str());
        i += 1;
    }
    proof {
        assert(collection.fields@.take(i as int) =~= collection.fields@);
    }
    fql.append("\n) WITH DEPENDENT_TYPES, PROVENANCE_TRACKING;");
    Ok(fql)
}

/// The outcome of validating FQLdt code.
#[derive(Debug)]
pub struct ValidationResult {
    pub valid: bool,
    pub errors: Vec<String>,
    pub proofs_generated: Vec<String>,
}

/// The proofs that validation reports for `code`: `bounds_valid` where the
/// code uses `BoundedNat`, none otherwise.
pub open spec fn proofs_for(code: Seq<char>) -> Seq<Seq<char>> {
    if occurs_in("BoundedNat"@, code) {
        seq!["bounds_valid"@]
    } else {
        Seq::empty()
    }
}

/// Validates FQLdt code. While no type checker is attached every code is
/// accepted without errors; code that uses `BoundedNat` is reported with
/// the proof `bounds_valid`.
pub fn validate_fqldt(code: String) -> (res: Result<ValidationResult, String>)
    ensures
        res matches Ok(v) && v.valid && v.errors@.len() == 0 && v.proofs_generated.deep_view()
            == proofs_for(code@),
{
    let mut proofs: Vec<String> = Vec::new();
    if contains_text(code.as_str(), "BoundedNat") {
        proofs.push(String::from_str("bounds_valid"));
        assert(proofs.deep_view() =~= seq!["bounds_valid"@]);
    } else {
        assert(proofs.deep_view() =~= Seq::<Seq<char>>::empty());
    }
    Ok(ValidationResult { valid: true, errors: Vec::new(), proofs_generated: proofs })
}

} // verus!
