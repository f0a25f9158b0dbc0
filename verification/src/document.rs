//! Data entry: documents with provenance and what inserting them reports.

use vstd::prelude::*;
use vstd::string::*;
use vstd::hash_map::StringHashMap;

verus! {

/// Where a document comes from and how far it is trusted.
#[derive(Debug, Clone)]
pub struct ProvenanceInfo {
    pub source: String,
    pub rationale: String,
    pub confidence: i32,
}

/// A document to insert, with its provenance.
pub struct DocumentWithProvenance {
    pub collection: String,
    pub data: StringHashMap<String>,
    pub provenance: ProvenanceInfo,
}

impl DocumentWithProvenance {
    /// A document of `collection` without any value yet.
    pub fn new(collection: String, provenance: ProvenanceInfo) -> (doc: DocumentWithProvenance)
        ensures
            doc.collection == collection,
            doc.provenance == provenance,
            doc.data@ == Map::<Seq<char>, String>::empty(),
    {
        DocumentWithProvenance { collection, data: StringHashMap::new(), provenance }
    }

    /// Gives `field` the value `value`, replacing an earlier one.
    pub fn set(&mut self, field: String, value: String)
        ensures
            final(self).collection == old(self).collection,
            final(self).provenance == old(self).provenance,
            final(self).data@ == old(self).data@.insert(field@, value),
    {
        self.data.insert(field, value);
    }
}

/// What an insert reports.
#[derive(Debug)]
pub struct InsertResult {
    pub success: bool,
    pub document_id: Option<String>,
    pub message: String,
    pub proofs: Vec<String>,
}

/// A way to repair a constraint violation.
#[derive(Debug, Clone)]
pub struct SuggestedFix {
    pub description: String,
    pub code: String,
    pub confidence: i32,
}

/// A value that breaks a constraint of the schema.
#[derive(Debug, Clone)]
pub struct ConstraintViolation {
    pub field: String,
    pub constraint: String,
    pub value: String,
    pub severity: String,
    pub explanation: String,
    pub suggested_fixes: Vec<SuggestedFix>,
}

/// The identifier of a document: `doc_` and the text of its UUID.
pub open spec fn document_id_text(uuid: Seq<char>) -> Seq<char> {
    "doc_"@ + uuid
}

/// Whether `r` reports the successful insert of the document `id`.
pub open spec fn reports_insert(r: InsertResult, id: Seq<char>) -> bool {
    &&& r.success
    &&& r.document_id matches Some(given) && given@ == id
    &&& r.message@ == "Document inserted with provenance tracking"@
    &&& r.proofs.deep_view() == seq!["constraints_satisfied"@]
}

/// A fresh random identifier in text form.
///
/// Calls `uuid::Uuid::new_v4` and renders the UUID with its `Display`
/// impl. Nothing is claimed of the identifier but what holds of every
/// UUID so rendered: the hyphenated form has 36 characters. The call
/// aborts where the operating system yields no random bytes.
#[verifier::external_body]
fn fresh_uuid() -> (s: String)
    ensures
        s@.len() == 36,
{
    uuid::Uuid::new_v4().to_string()
}

/// The identifier of the document whose UUID has the text `uuid`.
pub fn document_id(uuid: &str) -> (id: String)
    ensures
        id@ == document_id_text(uuid@),
{
    let mut id = String::from_str("doc_");
    id.append(uuid);
    id
}

/// The report of a successful insert under the UUID `uuid`.
pub fn insert_report(uuid: &str) -> (r: InsertResult)
    ensures
        reports_insert(r, document_id_text(uuid@)),
{
    let mut proofs: Vec<String> = Vec::new();
    proofs.push(String::from_str("constraints_satisfied"));
    assert(proofs.deep_view() =~= seq!["constraints_satisfied"@]);
    InsertResult {
        success: true,
        document_id: Some(document_id(uuid)),
        message: String::from_str("Document inserted with provenance tracking"),
        proofs,
    }
}

/// Accepts a document and gives it a fresh identifier: `doc_` and a random
/// UUID of 36 characters.
pub fn insert_document(doc: DocumentWithProvenance) -> (res: Result<InsertResult, String>)
    ensures
        res matches Ok(r) && exists|uuid: Seq<char>|
            uuid.len() == 36 && #[trigger] reports_insert(r, document_id_text(uuid)),
{
    let uuid = fresh_uuid();
    let r = insert_report(uuid.as_str());
    assert(reports_insert(r, document_id_text(uuid@)));
    Ok(r)
}

/// Checks a document against the constraints of its collection. While no
/// schema is attached no constraint is known, and no violation is reported.
pub fn validate_document(collection: String, data: StringHashMap<String>) -> (res: Result<
    Vec<ConstraintViolation>,
    String,
>)
    ensures
        res matches Ok(v) && v@.len() == 0,
{
    Ok(Vec::new())
}

} // verus!
