//! Normalization proposals: how they are built, explained and gated.

use vstd::prelude::*;
use vstd::string::*;
use crate::classifier::{classify, first_missing, level_above, strongest_form, violations_in, Classification};
use crate::dependency::{dependency_text, Dependency, FunctionalDependency, Ratio};
use crate::error::EngineError;
use crate::join_checks::{lossless, preserving};
use crate::miner::{
    all_minimal,
    all_reach,
    all_sound,
    discover,
    is_mining_result,
    well_posed,
    DEFAULT_MAX_DETERMINANT,
};
use crate::names::{copy_names, Name};
use crate::normal_form::NormalForm;
use crate::planner::{decompose, decomposed};
use crate::query::QueryRow;
use crate::scan::{is_partial_result, Scan};
use crate::table::{Table, TableChange};
use crate::text::{join, joined, same_text};

verus! {

/// A candidate schema transformation: the dependencies that motivate it,
/// the tables it would create, and whether it is safe to apply unseen.
#[derive(Debug, Clone)]
pub struct NormalizationProposal {
    pub id: String,
    pub current_nf: String,
    pub target_nf: String,
    pub violating_fds: Vec<FunctionalDependency>,
    pub proposed_tables: Vec<TableChange>,
    pub narrative: String,
    pub is_lossless: bool,
    pub preserves_fds: bool,
}

/// A proposal as specifications see it.
pub struct Proposal {
    pub id: Seq<char>,
    pub current_nf: Seq<char>,
    pub target_nf: Seq<char>,
    pub violating_fds: Seq<Dependency>,
    pub proposed_tables: Seq<Table>,
    pub narrative: Seq<char>,
    pub is_lossless: bool,
    pub preserves_fds: bool,
}

impl View for NormalizationProposal {
    type V = Proposal;

    open spec fn view(&self) -> Proposal {
        Proposal {
            id: self.id@,
            current_nf: self.current_nf@,
            target_nf: self.target_nf@,
            violating_fds: self.violating_fds.deep_view(),
            proposed_tables: self.proposed_tables.deep_view(),
            narrative: self.narrative@,
            is_lossless: self.is_lossless,
            preserves_fds: self.preserves_fds,
        }
    }
}

impl DeepView for NormalizationProposal {
    type V = Proposal;

    open spec fn deep_view(&self) -> Proposal {
        self.view()
    }
}

/// What one discovery run yields: the mined dependencies, the normal form
/// they leave the schema in, and the proposals to improve on it.
#[derive(Debug, Clone)]
pub struct DiscoveryResult {
    pub fds: Vec<FunctionalDependency>,
    pub current_nf: String,
    pub proposals: Vec<NormalizationProposal>,
}

/// `text`, or `unknown` where it is empty.
pub open spec fn or_unknown(text: Seq<char>) -> Seq<char> {
    if text.len() == 0 {
        "unknown"@
    } else {
        text
    }
}

/// The parts separated by semicolons, or `none` where there is none.
pub open spec fn list_or_none(parts: Seq<Seq<char>>) -> Seq<char> {
    if parts.len() == 0 {
        "none"@
    } else {
        joined(parts, "; "@)
    }
}

/// A table in words: `name (a, b)`.
pub open spec fn table_text(t: Table) -> Seq<char> {
    t.name + " ("@ + joined(t.fields, ", "@) + ")"@
}

/// Each dependency in words.
pub open spec fn dependency_texts(fds: Seq<Dependency>) -> Seq<Seq<char>> {
    Seq::new(fds.len(), |i: int| dependency_text(fds[i]))
}

/// Each table in words.
pub open spec fn table_texts(tables: Seq<Table>) -> Seq<Seq<char>> {
    Seq::new(tables.len(), |i: int| table_text(tables[i]))
}

/// The warning on a decomposition that fails the lossless-join test.
pub open spec fn lossless_note(is_lossless: bool) -> Seq<char> {
    if is_lossless {
        Seq::empty()
    } else {
        " Warning: rejoining these tables may not give back the rows they were cut from."@
    }
}

/// The warning on a decomposition that loses a dependency.
pub open spec fn preservation_note(preserves_fds: bool) -> Seq<char> {
    if preserves_fds {
        Seq::empty()
    } else {
        " Warning: some dependency can no longer be checked without a join."@
    }
}

/// The rationale of a proposal: the forms it leads from and to, the
/// violating dependencies, the proposed tables, and a warning for each
/// failed check. An empty form reads `unknown`, an empty list `none`.
pub open spec fn narrative_text(p: Proposal) -> Seq<char> {
    "The schema is in "@ + or_unknown(p.current_nf) + ". To reach "@ + or_unknown(p.target_nf)
        + ", these dependencies must go: "@ + list_or_none(dependency_texts(p.violating_fds))
        + ". Proposed tables: "@ + list_or_none(table_texts(p.proposed_tables)) + "."@
        + lossless_note(p.is_lossless) + preservation_note(p.preserves_fds)
}

/// The proposal that leads from `form` one level up by removing `violating`.
pub open spec fn proposal_for(fields: Seq<Name>, key: Seq<Name>, form: NormalForm, violating: Seq<Dependency>) -> Proposal {
    let target = level_above(form);
    let tables = decomposed(fields, key, violating);
    let draft = Proposal {
        id: "normalize_to_"@ + target.label_text(),
        current_nf: form.label_text(),
        target_nf: target.label_text(),
        violating_fds: violating,
        proposed_tables: tables,
        narrative: Seq::empty(),
        is_lossless: lossless(tables, violating),
        preserves_fds: preserving(tables, violating),
    };
    Proposal {
        id: draft.id,
        current_nf: draft.current_nf,
        target_nf: draft.target_nf,
        violating_fds: draft.violating_fds,
        proposed_tables: draft.proposed_tables,
        narrative: narrative_text(draft),
        is_lossless: draft.is_lossless,
        preserves_fds: draft.preserves_fds,
    }
}

/// The proposals for a schema under `fds`: none where nothing stands in
/// the way of the next form, else the one that removes what does.
pub open spec fn proposals_for(fields: Seq<Name>, key: Seq<Name>, fds: Seq<Dependency>) -> Seq<Proposal> {
    let form = strongest_form(fields.to_set(), key.to_set(), fds);
    let violating = violations_in(level_above(form), fds, fields.to_set(), key.to_set(), fds);
    if violating.len() == 0 {
        Seq::empty()
    } else {
        seq![proposal_for(fields, key, form, violating)]
    }
}

/// The first proposal with the identifier `id`.
pub open spec fn position_of(proposals: Seq<Proposal>, id: Seq<char>) -> Option<int>
    decreases proposals.len(),
{
    if proposals.len() == 0 {
        None
    } else if proposals[0].id == id {
        Some(0int)
    } else {
        match position_of(proposals.drop_first(), id) {
            Some(i) => Some(i + 1),
            None => None,
        }
    }
}

fn text_or_unknown(text: &String) -> (s: String)
    ensures
        s@ == or_unknown(text@),
{
    if text.as_str().unicode_len() == 0 {
        String::from_str("unknown")
    } else {
        text.clone()
    }
}

fn render_list(parts: &Vec<String>) -> (s: String)
    ensures
        s@ == list_or_none(parts.deep_view()),
{
    if parts.len() == 0 {
        String::from_str("none")
    } else {
        join(parts, "; ")
    }
}

fn render_table(table: &TableChange) -> (s: String)
    ensures
        s@ == table_text(table@),
{
    let mut s = table.name.clone();
    s.append(" (");
    let inner = join(&table.fields, ", ");
    s.append(inner.as_str());
    s.append(")");
    s
}

fn render_dependencies(fds: &Vec<FunctionalDependency>) -> (r: Vec<String>)
    ensures
        r.deep_view() == dependency_texts(fds.deep_view()),
{
    let mut r: Vec<String> = Vec::new();
    let mut i: usize = 0;
    while i < fds.len()
        invariant
            i <= fds.len(),
            r.len() == i,
            forall|j: int| 0 <= j < i ==> r[j]@ == dependency_text(fds[j]@),
        decreases fds.len() - i,
    {
        r.push(fds[i].describe());
        i += 1;
    }
    assert(r.deep_view() =~= dependency_texts(fds.deep_view()));
    r
}

fn render_tables(tables: &Vec<TableChange>) -> (r: Vec<String>)
    ensures
        r.deep_view() == table_texts(tables.deep_view()),
{
    let mut r: Vec<String> = Vec::new();
    let mut i: usize = 0;
    while i < tables.len()
        invariant
            i <= tables.len(),
            r.len() == i,
            forall|j: int| 0 <= j < i ==> r[j]@ == table_text(tables[j]@),
        decreases tables.len() - i,
    {
        r.push(render_table(&tables[i]));
        i += 1;
    }
    assert(r.deep_view() =~= table_texts(tables.deep_view()));
    r
}

/// Renders the rationale of a proposal from its forms, dependencies,
/// tables and flags; the narrative it already carries is not read.
pub fn explain(proposal: &NormalizationProposal) -> (s: String)
    ensures
        s@ == narrative_text(proposal@),
{
    let mut s = String::from_str("The schema is in ");
    let current = text_or_unknown(&proposal.current_nf);
    s.append(current.as_str());
    s.append(". To reach ");
    let target = text_or_unknown(&proposal.target_nf);
    s.append(target.as_str());
    s.append(", these dependencies must go: ");
    let rules = render_dependencies(&proposal.violating_fds);
    let rules_text = render_list(&rules);
    s.append(rules_text.as_str());
    s.append(". Proposed tables: ");
    let tables = render_tables(&proposal.proposed_tables);
    let tables_text = render_list(&tables);
    s.append(tables_text.as_str());
    s.append(".");
    if !proposal.is_lossless {
        s.append(" Warning: rejoining these tables may not give back the rows they were cut from.");
    } else {
        assert(s@ + lossless_note(true) =~= s@);
    }
    if !proposal.preserves_fds {
        s.append(" Warning: some dependency can no longer be checked without a join.");
    } else {
        assert(s@ + preservation_note(true) =~= s@);
    }
    s
}

fn copy_dependencies(fds: &Vec<FunctionalDependency>) -> (r: Vec<FunctionalDependency>)
    ensures
        r.deep_view() == fds.deep_view(),
{
    let mut r: Vec<FunctionalDependency> = Vec::new();
    let mut i: usize = 0;
    while i < fds.len()
        invariant
            i <= fds.len(),
            r.len() == i,
            forall|j: int| 0 <= j < i ==> r[j]@ == fds[j]@,
        decreases fds.len() - i,
    {
        r.push(fds[i].duplicate());
        i += 1;
    }
    assert(r.deep_view() =~= fds.deep_view());
    r
}

fn copy_tables(tables: &Vec<TableChange>) -> (r: Vec<TableChange>)
    ensures
        r.deep_view() == tables.deep_view(),
{
    let mut r: Vec<TableChange> = Vec::new();
    let mut i: usize = 0;
    while i < tables.len()
        invariant
            i <= tables.len(),
            r.len() == i,
            forall|j: int| 0 <= j < i ==> r[j]@ == tables[j]@,
        decreases tables.len() - i,
    {
        r.push(tables[i].duplicate());
        i += 1;
    }
    assert(r.deep_view() =~= tables.deep_view());
    r
}

fn target_of(form: NormalForm) -> (r: NormalForm)
    ensures
        r == level_above(form),
{
    match form {
        NormalForm::First => NormalForm::Second,
        NormalForm::Second => NormalForm::Third,
        _ => NormalForm::BCNF,
    }
}

/// Builds the proposal that follows from a classification: none where no
/// dependency is violating, else the decomposition that removes the
/// violating ones, with its checks and its rationale.
pub fn propose(fields: &Vec<String>, key: &Vec<String>, classification: &Classification) -> (r: Option<
    NormalizationProposal,
>)
    ensures
        r is None <==> classification.violating.len() == 0,
        r matches Some(p) ==> p@ == proposal_for(
            fields.deep_view(),
            key.deep_view(),
            classification.form,
            classification.violating.deep_view(),
        ),
{
    if classification.violating.len() == 0 {
        return None;
    }
    let target = target_of(classification.form);
    let plan = decompose(fields, key, &classification.violating);
    let mut id = String::from_str("normalize_to_");
    let target_label = target.label();
    id.append(target_label.as_str());
    let mut proposal = NormalizationProposal {
        id,
        current_nf: classification.form.label(),
        target_nf: target_label,
        violating_fds: copy_dependencies(&classification.violating),
        proposed_tables: plan.tables,
        narrative: String::new(),
        is_lossless: plan.is_lossless,
        preserves_fds: plan.preserves_fds,
    };
    let ghost draft = proposal@;
    let narrative = explain(&proposal);
    proposal.narrative = narrative;
    proof {
        assert(narrative_text(draft) == narrative_text(
            Proposal {
                id: draft.id,
                current_nf: draft.current_nf,
                target_nf: draft.target_nf,
                violating_fds: draft.violating_fds,
                proposed_tables: draft.proposed_tables,
                narrative: Seq::empty(),
                is_lossless: draft.is_lossless,
                preserves_fds: draft.preserves_fds,
            },
        ));
    }
    Some(proposal)
}

/// Classifies the schema under the mined dependencies `fds` and proposes
/// the decomposition that leads one form up.
///
/// Fails with `InconsistentSchema`, naming the first missing key field,
/// exactly when some key field is not among `fields`.
pub fn summarize(fds: Vec<FunctionalDependency>, fields: &Vec<String>, key: &Vec<String>) -> (res: Result<
    DiscoveryResult,
    EngineError,
>)
    ensures
        res is Ok <==> key.deep_view().to_set().subset_of(fields.deep_view().to_set()),
        res matches Err(e) ==> e matches EngineError::InconsistentSchema { missing }
            && first_missing(key.deep_view(), fields.deep_view().to_set()) == Some(missing@),
        res matches Ok(r) ==> {
            &&& r.fds.deep_view() == fds.deep_view()
            &&& r.current_nf@ == strongest_form(
                fields.deep_view().to_set(),
                key.deep_view().to_set(),
                fds.deep_view(),
            ).label_text()
            &&& r.proposals.deep_view() == proposals_for(
                fields.deep_view(),
                key.deep_view(),
                fds.deep_view(),
            )
        },
{
    match classify(fields, key, &fds) {
        Err(e) => Err(e),
        Ok(classification) => {
            let mut proposals: Vec<NormalizationProposal> = Vec::new();
            match propose(fields, key, &classification) {
                Some(p) => {
                    proposals.push(p);
                    assert(proposals.deep_view() =~= seq![p@]);
                },
                None => {
                    assert(proposals.deep_view() =~= Seq::<Proposal>::empty());
                },
            }
            Ok(DiscoveryResult { fds, current_nf: classification.form.label(), proposals })
        },
    }
}

/// One discovery run over the rows of a collection: mines the
/// dependencies, classifies the schema under them, and proposes the
/// decomposition that leads one form up.
///
/// Fails with `InconsistentSchema`, naming the first missing key field,
/// exactly when some key field is not among `fields`.
pub fn discover_fds(
    rows: &Vec<QueryRow>,
    fields: &Vec<String>,
    key: &Vec<String>,
    confidence_threshold: &Ratio,
) -> (res: Result<DiscoveryResult, EngineError>)
    ensures
        res is Ok <==> key.deep_view().to_set().subset_of(fields.deep_view().to_set()),
        res matches Err(e) ==> e matches EngineError::InconsistentSchema { missing }
            && first_missing(key.deep_view(), fields.deep_view().to_set()) == Some(missing@),
        res matches Ok(r) ==> {
            &&& is_mining_result(
                r.fds.deep_view(),
                rows.deep_view(),
                fields.deep_view(),
                *confidence_threshold,
                DEFAULT_MAX_DETERMINANT as nat,
            )
            &&& all_reach(r.fds.deep_view(), *confidence_threshold)
            &&& all_minimal(r.fds.deep_view())
            &&& all_sound(r.fds.deep_view(), fields.deep_view())
            &&& r.current_nf@ == strongest_form(
                fields.deep_view().to_set(),
                key.deep_view().to_set(),
                r.fds.deep_view(),
            ).label_text()
            &&& r.proposals.deep_view() == proposals_for(
                fields.deep_view(),
                key.deep_view(),
                r.fds.deep_view(),
            )
        },
{
    let fds = discover(rows, fields, confidence_threshold);
    summarize(fds, fields, key)
}

/// How a mining run in steps ended.
#[derive(Debug, Clone)]
pub enum DiscoveryOutcome {
    /// Every branch was mined: the dependencies, the form and the proposals.
    Complete(DiscoveryResult),
    /// The run was stopped: the dependencies found until then, and no
    /// claim of a normal form.
    Cancelled { fds: Vec<FunctionalDependency> },
}

/// Ends a mining run. A complete run is classified as `summarize` does; a
/// run that was stopped hands out what it found, without a classification.
pub fn conclude(scan: Scan, key: &Vec<String>) -> (res: Result<DiscoveryOutcome, EngineError>)
    ensures
        !scan@.complete ==> (res matches Ok(DiscoveryOutcome::Cancelled { fds }) && {
            &&& fds.deep_view() == scan@.found
            &&& all_reach(fds.deep_view(), scan@.threshold)
            &&& all_minimal(fds.deep_view())
            &&& all_sound(fds.deep_view(), scan@.fields)
            &&& well_posed(scan@.rows, scan@.fields, scan@.threshold) ==> is_partial_result(
                fds.deep_view(),
                scan@.rows,
                scan@.fields,
                scan@.threshold,
                scan@.cap,
                scan@.mined_branches,
            )
        }),
        scan@.complete ==> {
            &&& res is Ok <==> key.deep_view().to_set().subset_of(scan@.fields.to_set())
            &&& res matches Err(e) ==> e matches EngineError::InconsistentSchema { missing }
                && first_missing(key.deep_view(), scan@.fields.to_set()) == Some(missing@)
            &&& res matches Ok(outcome) ==> (outcome matches DiscoveryOutcome::Complete(r) && {
                &&& r.fds.deep_view() == scan@.found
                &&& is_mining_result(r.fds.deep_view(), scan@.rows, scan@.fields, scan@.threshold, scan@.cap)
                &&& all_reach(r.fds.deep_view(), scan@.threshold)
                &&& all_minimal(r.fds.deep_view())
                &&& all_sound(r.fds.deep_view(), scan@.fields)
                &&& r.current_nf@ == strongest_form(
                    scan@.fields.to_set(),
                    key.deep_view().to_set(),
                    r.fds.deep_view(),
                ).label_text()
                &&& r.proposals.deep_view() == proposals_for(scan@.fields, key.deep_view(), r.fds.deep_view())
            })
        },
{
    let done = scan.is_done();
    let fields = copy_names(scan.fields());
    let fds = scan.into_found();
    if !done {
        Ok(DiscoveryOutcome::Cancelled { fds })
    } else {
        match summarize(fds, &fields, key) {
            Err(e) => Err(e),
            Ok(r) => Ok(DiscoveryOutcome::Complete(r)),
        }
    }
}

/// The status that stands in the place of a normal form where a run was
/// stopped. It is the label of no normal form.
pub open spec fn cancelled_text() -> Seq<char> {
    "cancelled"@
}

/// No normal form is labelled `cancelled`: the status of a stopped run
/// cannot be taken for a classification.
pub proof fn lemma_cancelled_is_no_form(form: NormalForm)
    ensures
        form.label_text() != cancelled_text(),
{
    reveal_strlit("cancelled");
    reveal_strlit("1NF");
    reveal_strlit("2NF");
    reveal_strlit("3NF");
    reveal_strlit("BCNF");
    reveal_strlit("4NF");
    reveal_strlit("5NF");
    assert(cancelled_text().len() == 9);
    assert(form.label_text().len() <= 4);
}

/// Flattens an outcome into a discovery result. A run that was stopped
/// reports its dependencies with the status `cancelled` in the place of a
/// normal form, and no proposal.
pub fn report(outcome: DiscoveryOutcome) -> (r: DiscoveryResult)
    ensures
        outcome matches DiscoveryOutcome::Complete(done) ==> r == done,
        outcome matches DiscoveryOutcome::Cancelled { fds } ==> r.fds == fds && r.current_nf@
            == cancelled_text() && r.proposals@.len() == 0,
{
    match outcome {
        DiscoveryOutcome::Complete(done) => done,
        DiscoveryOutcome::Cancelled { fds } => DiscoveryResult {
            fds,
            current_nf: String::from_str("cancelled"),
            proposals: Vec::new(),
        },
    }
}

fn find_proposal(proposals: &Vec<NormalizationProposal>, id: &str) -> (r: Option<usize>)
    ensures
        match r {
            Some(i) => i < proposals.len() && position_of(proposals.deep_view(), id@) == Some(i as int),
            None => position_of(proposals.deep_view(), id@) is None,
        },
{
    let ghost ps = proposals.deep_view();
    let mut i: usize = 0;
    assert(ps.skip(0) =~= ps);
    while i < proposals.len()
        invariant
            i <= proposals.len(),
            ps == proposals.deep_view(),
            position_of(ps, id@) == match position_of(ps.skip(i as int), id@) {
                Some(k) => Some(k + i),
                None => None,
            },
        decreases proposals.len() - i,
    {
        proof {
            assert(ps.skip(i as int).drop_first() =~= ps.skip(i + 1));
            assert(ps.skip(i as int)[0] == proposals[i as int]@);
        }
        if same_text(proposals[i].id.as_str(), id) {
            return Some(i);
        }
        i += 1;
    }
    None
}

/// Decides whether the proposal `proposal_id` may be committed, and hands
/// out the tables to commit.
///
/// The first proposal with that identifier is meant; without one the call
/// fails with `UnknownProposal`. A proposal that is not lossless is
/// refused with `NonLosslessProposal` unless `acknowledged`; one that is
/// lossless but loses a dependency is refused with
/// `NonFDPreservingProposal` unless `acknowledged`. Otherwise the proposed
/// tables are returned, to be committed all or none.
pub fn apply_normalization(proposals: &Vec<NormalizationProposal>, proposal_id: &str, acknowledged: bool) -> (res:
    Result<Vec<TableChange>, EngineError>)
    ensures
        match position_of(proposals.deep_view(), proposal_id@) {
            None => res matches Err(EngineError::UnknownProposal { id }) && id@ == proposal_id@,
            Some(i) => {
                let p = proposals.deep_view()[i];
                if !p.is_lossless && !acknowledged {
                    res matches Err(EngineError::NonLosslessProposal)
                } else if !p.preserves_fds && !acknowledged {
                    res matches Err(EngineError::NonFDPreservingProposal)
                } else {
                    res matches Ok(tables) && tables.deep_view() == p.proposed_tables
                }
            },
        },
{
    match find_proposal(proposals, proposal_id) {
        None => Err(EngineError::UnknownProposal { id: String::from_str(proposal_id) }),
        Some(i) => {
            let p = &proposals[i];
            assert(proposals.deep_view()[i as int] == p@);
            if !p.is_lossless && !acknowledged {
                Err(EngineError::NonLosslessProposal)
            } else if !p.preserves_fds && !acknowledged {
                Err(EngineError::NonFDPreservingProposal)
            } else {
                Ok(copy_tables(&p.proposed_tables))
            }
        },
    }
}

/// Turns the answer of storage to a commit into the answer to the caller:
/// success, or `CommitFailure` with the message of storage word for word.
pub fn commit_outcome(outcome: Result<(), String>) -> (res: Result<bool, EngineError>)
    ensures
        outcome is Ok ==> res == Ok::<bool, EngineError>(true),
        outcome matches Err(m) ==> res matches Err(EngineError::CommitFailure { message }) && message == m,
{
    match outcome {
        Ok(_) => Ok(true),
        Err(message) => Err(EngineError::CommitFailure { message }),
    }
}

} // verus!
