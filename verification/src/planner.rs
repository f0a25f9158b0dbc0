//! Decomposition planning: synthesis of one table per violating dependency.

use vstd::prelude::*;
use vstd::string::*;
use crate::dependency::{dependency_text, Dependency, FunctionalDependency};
use crate::join_checks::{is_lossless_join, lossless, preserves_dependencies, preserving};
use crate::names::{
    copy_names,
    difference,
    intersection,
    is_subset,
    kept,
    lemma_kept,
    lemma_merged,
    merged,
    union_of,
    Name,
};
use crate::priority::{prioritize, prioritized};
use crate::table::{covered, Table, TableChange};
use crate::text::{join, joined};

verus! {

/// The fields that `fd` moves out of the remaining table: its dependents
/// that are neither determinant nor key fields.
pub open spec fn leaving(fd: Dependency, key: Seq<Name>) -> Seq<Name> {
    kept(kept(fd.dependent, fd.lhs(), false), key.to_set(), false)
}

/// Whether `fd` can still be synthesized: it is not degenerate, the
/// remaining table holds its determinant, and at least one field would move.
pub open spec fn applicable(fd: Dependency, residual: Seq<Name>, key: Seq<Name>) -> bool {
    &&& !fd.is_degenerate()
    &&& fd.lhs().subset_of(residual.to_set())
    &&& kept(residual, leaving(fd, key).to_set(), true).len() > 0
}

/// The table synthesized for `fd`: its determinant, then its dependents
/// that the schema knows.
pub open spec fn extracted_table(fd: Dependency, fields: Seq<Name>) -> Table {
    Table {
        name: "by_"@ + joined(fd.determinant, "_"@),
        fields: merged(fd.determinant, kept(fd.dependent, fields.to_set(), true)),
        reason: "split out by "@ + dependency_text(fd),
    }
}

/// The table that remains once the synthesized tables are cut off.
pub open spec fn base_table(residual: Seq<Name>) -> Table {
    Table {
        name: "base"@,
        fields: residual,
        reason: "keeps the key and the fields that no violating dependency moves"@,
    }
}

/// A decomposition under way: the fields still in the remaining table and
/// the tables synthesized so far.
pub struct Plan {
    pub residual: Seq<Name>,
    pub extracted: Seq<Table>,
}

/// Synthesizes `fd` if it is applicable; otherwise leaves the plan alone.
pub open spec fn plan_step(plan: Plan, fd: Dependency, fields: Seq<Name>, key: Seq<Name>) -> Plan {
    if applicable(fd, plan.residual, key) {
        Plan {
            residual: kept(plan.residual, leaving(fd, key).to_set(), false),
            extracted: plan.extracted.push(extracted_table(fd, fields)),
        }
    } else {
        plan
    }
}

/// The plan after the dependencies of `order` were taken in turn.
pub open spec fn planned(fields: Seq<Name>, key: Seq<Name>, order: Seq<Dependency>) -> Plan
    decreases order.len(),
{
    if order.len() == 0 {
        Plan { residual: fields, extracted: Seq::empty() }
    } else {
        plan_step(planned(fields, key, order.drop_last()), order.last(), fields, key)
    }
}

/// The proposed tables: the remaining table, then one table
/// per synthesized dependency, taken in synthesis order.
pub open spec fn decomposed(fields: Seq<Name>, key: Seq<Name>, fds: Seq<Dependency>) -> Seq<Table> {
    let plan = planned(fields, key, prioritized(fds));
    seq![base_table(plan.residual)] + plan.extracted
}

/// At every stage the remaining table and the synthesized tables together
/// hold exactly the fields of the schema.
pub proof fn lemma_plan_covers(fields: Seq<Name>, key: Seq<Name>, order: Seq<Dependency>)
    ensures
        planned(fields, key, order).residual.to_set().union(
            covered(planned(fields, key, order).extracted),
        ) == fields.to_set(),
        planned(fields, key, order).extracted.len() <= order.len(),
    decreases order.len(),
{
    let plan = planned(fields, key, order);
    if order.len() == 0 {
        assert(plan.residual.to_set().union(covered(plan.extracted)) =~= fields.to_set());
    } else {
        let before = planned(fields, key, order.drop_last());
        let fd = order.last();
        lemma_plan_covers(fields, key, order.drop_last());
        let whole = before.residual.to_set().union(covered(before.extracted));
        if applicable(fd, before.residual, key) {
            let out = leaving(fd, key).to_set();
            let table = extracted_table(fd, fields);
            let shown = kept(fd.dependent, fields.to_set(), true);
            lemma_kept(before.residual, out, false);
            lemma_kept(fd.dependent, fields.to_set(), true);
            lemma_kept(kept(fd.dependent, fd.lhs(), false), key.to_set(), false);
            lemma_kept(fd.dependent, fd.lhs(), false);
            lemma_merged(fd.determinant, shown);
            assert forall|n: Name| plan.residual.to_set().union(covered(plan.extracted)).contains(n)
                <==> fields.to_set().contains(n) by {
                if plan.residual.contains(n) {
                    assert(before.residual.to_set().contains(n));
                    assert(whole.contains(n));
                }
                if covered(plan.extracted).contains(n) {
                    let i = choose|i: int| 0 <= i < plan.extracted.len() && (#[trigger] plan.extracted[i]).fields.contains(n);
                    if i < before.extracted.len() {
                        assert(before.extracted[i].fields.contains(n));
                        assert(covered(before.extracted).contains(n));
                        assert(whole.contains(n));
                    } else {
                        assert(table.fields.to_set().contains(n));
                        if fd.determinant.to_set().contains(n) {
                            assert(before.residual.to_set().contains(n));
                            assert(whole.contains(n));
                        } else {
                            assert(shown.to_set().contains(n));
                            assert(shown.contains(n));
                        }
                    }
                }
                if fields.to_set().contains(n) {
                    assert(whole.contains(n));
                    if covered(before.extracted).contains(n) {
                        let i = choose|i: int| 0 <= i < before.extracted.len() && (#[trigger] before.extracted[i]).fields.contains(n);
                        assert(plan.extracted[i].fields.contains(n));
                    } else {
                        assert(before.residual.contains(n));
                        if out.contains(n) {
                            assert(leaving(fd, key).contains(n));
                            assert(fd.dependent.contains(n));
                            assert(shown.contains(n));
                            assert(shown.to_set().contains(n));
                            assert(table.fields.to_set().contains(n));
                            assert(plan.extracted[plan.extracted.len() - 1].fields.contains(n));
                        } else {
                            assert(plan.residual.contains(n));
                        }
                    }
                }
            }
            assert(plan.residual.to_set().union(covered(plan.extracted)) =~= fields.to_set());
        }
    }
}

/// Field coverage: the union of the field sets of the proposed tables is
/// the field set of the schema.
pub proof fn lemma_decomposition_covers(fields: Seq<Name>, key: Seq<Name>, fds: Seq<Dependency>)
    ensures
        covered(decomposed(fields, key, fds)) == fields.to_set(),
{
    let plan = planned(fields, key, prioritized(fds));
    let tables = decomposed(fields, key, fds);
    lemma_plan_covers(fields, key, prioritized(fds));
    assert forall|n: Name| covered(tables).contains(n) <==> fields.to_set().contains(n) by {
        if covered(tables).contains(n) {
            let i = choose|i: int| 0 <= i < tables.len() && (#[trigger] tables[i]).fields.contains(n);
            if i == 0 {
                assert(plan.residual.to_set().contains(n));
            } else {
                assert(tables[i] == plan.extracted[i - 1]);
                assert(covered(plan.extracted).contains(n));
            }
        }
        if fields.to_set().contains(n) {
            assert(plan.residual.to_set().union(covered(plan.extracted)).contains(n));
            if plan.residual.to_set().contains(n) {
                assert(tables[0].fields.contains(n));
            } else {
                let i = choose|i: int| 0 <= i < plan.extracted.len() && (#[trigger] plan.extracted[i]).fields.contains(n);
                assert(tables[i + 1] == plan.extracted[i]);
                assert(tables[i + 1].fields.contains(n));
            }
        }
    }
    assert(covered(tables) =~= fields.to_set());
}

/// With no violating dependency the decomposition is one table with the
/// fields of the schema in their order.
pub proof fn lemma_nothing_to_decompose(fields: Seq<Name>, key: Seq<Name>)
    ensures
        decomposed(fields, key, Seq::empty()) == seq![base_table(fields)],
{
    assert(decomposed(fields, key, Seq::empty()) =~= seq![base_table(fields)]);
}

/// A smaller remaining table makes no dependency applicable that was not.
proof fn lemma_applicable_shrinks(fd: Dependency, residual: Seq<Name>, out: Set<Name>, key: Seq<Name>)
    requires
        applicable(fd, kept(residual, out, false), key),
    ensures
        applicable(fd, residual, key),
{
    let smaller = kept(residual, out, false);
    let gone = leaving(fd, key).to_set();
    lemma_kept(residual, out, false);
    lemma_kept(smaller, gone, true);
    lemma_kept(residual, gone, true);
    let n = kept(smaller, gone, true)[0];
    assert(kept(smaller, gone, true).contains(n));
    assert(smaller.contains(n));
    assert(kept(residual, gone, true).contains(n));
    assert forall|m: Name| fd.lhs().contains(m) implies residual.to_set().contains(m) by {
        assert(smaller.to_set().contains(m));
        assert(smaller.contains(m));
    }
}

/// Once synthesized, a dependency moves nothing more.
proof fn lemma_applied_is_spent(fd: Dependency, residual: Seq<Name>, key: Seq<Name>)
    ensures
        !applicable(fd, kept(residual, leaving(fd, key).to_set(), false), key),
{
    let gone = leaving(fd, key).to_set();
    let smaller = kept(residual, gone, false);
    lemma_kept(residual, gone, false);
    lemma_kept(smaller, gone, true);
    if kept(smaller, gone, true).len() > 0 {
        let n = kept(smaller, gone, true)[0];
        assert(kept(smaller, gone, true).contains(n));
        assert(smaller.contains(n));
    }
}

/// The synthesis runs to its end: no dependency of `order` is applicable to
/// the table that remains.
pub proof fn lemma_plan_is_complete(fields: Seq<Name>, key: Seq<Name>, order: Seq<Dependency>)
    ensures
        forall|i: int|
            0 <= i < order.len() ==> !applicable(
                #[trigger] order[i],
                planned(fields, key, order).residual,
                key,
            ),
    decreases order.len(),
{
    if order.len() > 0 {
        let front = order.drop_last();
        let before = planned(fields, key, front);
        let fd = order.last();
        let after = planned(fields, key, order);
        lemma_plan_is_complete(fields, key, front);
        assert forall|i: int| 0 <= i < order.len() implies !applicable(#[trigger] order[i], after.residual, key) by {
            if applicable(fd, before.residual, key) {
                let out = leaving(fd, key).to_set();
                if i < front.len() {
                    assert(order[i] == front[i]);
                    if applicable(order[i], after.residual, key) {
                        lemma_applicable_shrinks(order[i], before.residual, out, key);
                    }
                } else {
                    lemma_applied_is_spent(fd, before.residual, key);
                }
            } else {
                if i < front.len() {
                    assert(order[i] == front[i]);
                }
            }
        }
    }
}

/// A proposed decomposition with the outcome of its two checks.
#[derive(Debug, Clone)]
pub struct Decomposition {
    pub tables: Vec<TableChange>,
    pub is_lossless: bool,
    pub preserves_fds: bool,
}

fn make_extracted(fd: &FunctionalDependency, fields: &Vec<String>) -> (t: TableChange)
    ensures
        t@ == extracted_table(fd@, fields.deep_view()),
{
    let mut name = String::from_str("by_");
    let stem = join(&fd.determinant, "_");
    name.append(stem.as_str());
    let known = intersection(&fd.dependent, fields);
    let table_fields = union_of(&fd.determinant, &known);
    let mut reason = String::from_str("split out by ");
    let rule = fd.describe();
    reason.append(rule.as_str());
    TableChange { name, fields: table_fields, reason }
}

fn make_base(residual: Vec<String>) -> (t: TableChange)
    ensures
        t@ == base_table(residual.deep_view()),
{
    TableChange {
        name: String::from_str("base"),
        fields: residual,
        reason: String::from_str("keeps the key and the fields that no violating dependency moves"),
    }
}

/// Plans the decomposition of the schema `fields` with primary key `key`
/// that removes the violating dependencies.
///
/// The dependencies are taken most confident first, ties in the lexical
/// order of their determinants. Each one that is still applicable gets a
/// table of its own — its determinant and its dependents — and its
/// dependents leave the table of the schema, key fields and the
/// determinant excepted. The first table returned is what remains of it.
/// The two flags report the lossless-join test and dependency preservation
/// of the result under `violating_fds`; a failed test never suppresses the
/// tables.
pub fn decompose(fields: &Vec<String>, key: &Vec<String>, violating_fds: &Vec<FunctionalDependency>) -> (r: Decomposition)
    ensures
        r.tables.deep_view() == decomposed(
            fields.deep_view(),
            key.deep_view(),
            violating_fds.deep_view(),
        ),
        r.is_lossless == lossless(r.tables.deep_view(), violating_fds.deep_view()),
        r.preserves_fds == preserving(r.tables.deep_view(), violating_fds.deep_view()),
        covered(r.tables.deep_view()) == fields.deep_view().to_set(),
        violating_fds.len() == 0 ==> r.tables.len() == 1 && r.tables[0]@.fields
            == fields.deep_view(),
{
    let ghost f = fields.deep_view();
    let ghost k = key.deep_view();
    let order = prioritize(violating_fds);
    let ghost ord = order.deep_view();
    let mut residual = copy_names(fields);
    let mut tables: Vec<TableChange> = Vec::new();
    let mut i: usize = 0;
    assert(tables.deep_view() =~= Seq::<Table>::empty());
    assert(ord.take(0).len() == 0);
    while i < order.len()
        invariant
            i <= order.len(),
            f == fields.deep_view(),
            k == key.deep_view(),
            ord == order.deep_view(),
            residual.deep_view() == planned(f, k, ord.take(i as int)).residual,
            tables.deep_view() == planned(f, k, ord.take(i as int)).extracted,
        decreases order.len() - i,
    {
        let fd = &order[i];
        proof {
            assert(ord.take(i + 1).drop_last() =~= ord.take(i as int));
            assert(ord.take(i + 1).last() == fd@);
        }
        if !fd.is_degenerate() && is_subset(&fd.determinant, &residual) {
            let free = difference(&fd.dependent, &fd.determinant);
            let out = difference(&free, key);
            let moved = intersection(&residual, &out);
            if moved.len() > 0 {
                let ghost before = tables;
                let table = make_extracted(fd, fields);
                tables.push(table);
                assert(tables.deep_view() =~= before.deep_view().push(table@));
                residual = difference(&residual, &out);
            }
        }
        i += 1;
    }
    assert(ord.take(i as int) =~= ord);
    let ghost extracted = tables.deep_view();
    let base = make_base(residual);
    tables.insert(0, base);
    proof {
        assert(tables.deep_view() =~= seq![base@] + extracted);
        lemma_decomposition_covers(f, k, violating_fds.deep_view());
        if violating_fds.len() == 0 {
            assert(violating_fds.deep_view() =~= Seq::<Dependency>::empty());
            lemma_nothing_to_decompose(f, k);
        }
    }
    let is_lossless = is_lossless_join(&tables, violating_fds);
    let preserves_fds = preserves_dependencies(&tables, violating_fds);
    Decomposition { tables, is_lossless, preserves_fds }
}

} // verus!
