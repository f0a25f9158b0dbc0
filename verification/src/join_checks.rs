//! The two checks on a decomposition: lossless join and dependency
//! preservation.

use vstd::prelude::*;
use vstd::string::*;
use crate::dependency::{
    closure,
    closure_of,
    lemma_closure_monotone,
    Dependency,
    FunctionalDependency,
};
use crate::names::{copy_names, intersection, is_subset, lemma_kept_set, lemma_merged, union_of, Name};
use crate::table::{Table, TableChange};

verus! {

/// Whether the fields that `a` and `b` share determine all of `a` or all of `b`.
pub open spec fn pair_joins(a: Table, b: Table, fds: Seq<Dependency>) -> bool {
    let reach = closure_of(a.fields.to_set().intersect(b.fields.to_set()), fds);
    a.fields.to_set().subset_of(reach) || b.fields.to_set().subset_of(reach)
}

/// The lossless-join test: every pair of tables joins without loss.
pub open spec fn lossless(tables: Seq<Table>, fds: Seq<Dependency>) -> bool {
    forall|i: int, j: int|
        0 <= i < j < tables.len() ==> pair_joins(#[trigger] tables[i], #[trigger] tables[j], fds)
}

/// What `s` determines inside one table: the closure of the part of `s`
/// in the table, cut back to the table.
pub open spec fn local_gain(s: Set<Name>, table: Table, fds: Seq<Dependency>) -> Set<Name> {
    closure_of(s.intersect(table.fields.to_set()), fds).intersect(table.fields.to_set())
}

/// Whether `s` is closed under the dependencies projected onto each table.
pub open spec fn locally_closed(s: Set<Name>, tables: Seq<Table>, fds: Seq<Dependency>) -> bool {
    forall|i: int| 0 <= i < tables.len() ==> local_gain(s, #[trigger] tables[i], fds).subset_of(s)
}

/// The closure of `x` under the union of the dependencies projected onto
/// the tables: what can be derived from `x` without a join.
pub open spec fn local_closure(x: Set<Name>, tables: Seq<Table>, fds: Seq<Dependency>) -> Set<Name> {
    Set::new(
        |n: Name|
            forall|s: Set<Name>|
                x.subset_of(s) && #[trigger] locally_closed(s, tables, fds) ==> s.contains(n),
    )
}

/// Whether `fd` still follows from the projected dependencies.
pub open spec fn preserved(fd: Dependency, tables: Seq<Table>, fds: Seq<Dependency>) -> bool {
    fd.rhs().subset_of(local_closure(fd.lhs(), tables, fds))
}

/// Dependency preservation: every dependency follows from the projected ones,
/// so that the projections have the closure of the given set.
pub open spec fn preserving(tables: Seq<Table>, fds: Seq<Dependency>) -> bool {
    forall|i: int| 0 <= i < fds.len() ==> preserved(#[trigger] fds[i], tables, fds)
}

/// How many entries of `list` are not in `s`.
spec fn absent(list: Seq<Name>, s: Set<Name>) -> nat
    decreases list.len(),
{
    if list.len() == 0 {
        0
    } else {
        absent(list.drop_last(), s) + if s.contains(list.last()) {
            0nat
        } else {
            1nat
        }
    }
}

proof fn lemma_absent_shrinks(list: Seq<Name>, s: Set<Name>, t: Set<Name>)
    requires
        s.subset_of(t),
    ensures
        absent(list, t) <= absent(list, s),
        (exists|n: Name| list.contains(n) && t.contains(n) && !s.contains(n)) ==> absent(list, t)
            < absent(list, s),
    decreases list.len(),
{
    if list.len() > 0 {
        let front = list.drop_last();
        lemma_absent_shrinks(front, s, t);
        if exists|n: Name| list.contains(n) && t.contains(n) && !s.contains(n) {
            let n = choose|n: Name| list.contains(n) && t.contains(n) && !s.contains(n);
            let j = choose|j: int| 0 <= j < list.len() && list[j] == n;
            if j < front.len() {
                assert(front[j] == n);
                assert(front.contains(n));
            }
        }
    }
}

fn check_pair(a: &TableChange, b: &TableChange, fds: &Vec<FunctionalDependency>) -> (r: bool)
    ensures
        r == pair_joins(a@, b@, fds.deep_view()),
{
    let common = intersection(&a.fields, &b.fields);
    proof {
        lemma_kept_set(a.fields.deep_view(), b.fields.deep_view().to_set(), true);
    }
    let reach = closure(&common, fds);
    is_subset(&a.fields, &reach) || is_subset(&b.fields, &reach)
}

/// Whether the tables pass the lossless-join test under `fds`: for every
/// two of them, the shared fields determine one of the two entirely.
pub fn is_lossless_join(tables: &Vec<TableChange>, fds: &Vec<FunctionalDependency>) -> (r: bool)
    ensures
        r == lossless(tables.deep_view(), fds.deep_view()),
{
    let ghost ts = tables.deep_view();
    let ghost all = fds.deep_view();
    let mut i: usize = 0;
    while i < tables.len()
        invariant
            i <= tables.len(),
            ts == tables.deep_view(),
            all == fds.deep_view(),
            forall|p: int, q: int| 0 <= p < q < ts.len() && p < i ==> pair_joins(#[trigger] ts[p], #[trigger] ts[q], all),
        decreases tables.len() - i,
    {
        let mut j: usize = i + 1;
        while j < tables.len()
            invariant
                i < j <= tables.len(),
                ts == tables.deep_view(),
                all == fds.deep_view(),
                forall|q: int| i < q < j ==> pair_joins(ts[i as int], #[trigger] ts[q], all),
            decreases tables.len() - j,
        {
            if !check_pair(&tables[i], &tables[j], fds) {
                assert(!pair_joins(ts[i as int], ts[j as int], all));
                return false;
            }
            j += 1;
        }
        i += 1;
    }
    true
}

/// All fields of all tables in one list.
fn all_fields(tables: &Vec<TableChange>) -> (r: Vec<String>)
    ensures
        forall|i: int| 0 <= i < tables.len() ==> (#[trigger] tables.deep_view()[i]).fields.to_set().subset_of(r.deep_view().to_set()),
{
    let mut r: Vec<String> = Vec::new();
    let mut i: usize = 0;
    while i < tables.len()
        invariant
            i <= tables.len(),
            forall|j: int| 0 <= j < i ==> (#[trigger] tables.deep_view()[j]).fields.to_set().subset_of(r.deep_view().to_set()),
        decreases tables.len() - i,
    {
        let grown = union_of(&r, &tables[i].fields);
        proof {
            lemma_merged(r.deep_view(), tables[i as int].fields.deep_view());
            assert(tables.deep_view()[i as int].fields == tables[i as int].fields.deep_view());
        }
        r = grown;
        i += 1;
    }
    r
}

/// The fields that follow from `start` by the dependencies projected onto
/// the tables.
pub fn local_reach(start: &Vec<String>, tables: &Vec<TableChange>, fds: &Vec<FunctionalDependency>) -> (r: Vec<String>)
    ensures
        r.deep_view().to_set() == local_closure(
            start.deep_view().to_set(),
            tables.deep_view(),
            fds.deep_view(),
        ),
{
    let ghost x = start.deep_view().to_set();
    let ghost ts = tables.deep_view();
    let ghost all = fds.deep_view();
    let universe = all_fields(tables);
    let ghost u = universe.deep_view();
    let mut reached = copy_names(start);
    let mut done = false;
    while !done
        invariant
            x == start.deep_view().to_set(),
            ts == tables.deep_view(),
            all == fds.deep_view(),
            u == universe.deep_view(),
            forall|i: int| 0 <= i < ts.len() ==> (#[trigger] ts[i]).fields.to_set().subset_of(u.to_set()),
            x.subset_of(reached.deep_view().to_set()),
            forall|s: Set<Name>|
                x.subset_of(s) && #[trigger] locally_closed(s, ts, all) ==> reached.deep_view().to_set().subset_of(s),
            done ==> locally_closed(reached.deep_view().to_set(), ts, all),
        decreases absent(u, reached.deep_view().to_set()) + if done { 0nat } else { 1nat },
    {
        let ghost at_start = reached.deep_view().to_set();
        let mut changed = false;
        let mut i: usize = 0;
        while i < tables.len()
            invariant
                i <= tables.len(),
                x == start.deep_view().to_set(),
                ts == tables.deep_view(),
                all == fds.deep_view(),
                u == universe.deep_view(),
                forall|i: int| 0 <= i < ts.len() ==> (#[trigger] ts[i]).fields.to_set().subset_of(u.to_set()),
                x.subset_of(reached.deep_view().to_set()),
                forall|s: Set<Name>|
                    x.subset_of(s) && #[trigger] locally_closed(s, ts, all) ==> reached.deep_view().to_set().subset_of(s),
                absent(u, reached.deep_view().to_set()) <= absent(u, at_start),
                changed ==> absent(u, reached.deep_view().to_set()) < absent(u, at_start),
                !changed ==> reached.deep_view().to_set() == at_start,
                !changed ==> forall|j: int| 0 <= j < i ==> local_gain(at_start, #[trigger] ts[j], all).subset_of(at_start),
            decreases tables.len() - i,
        {
            let ghost now = reached.deep_view().to_set();
            let ghost table = ts[i as int];
            let part = intersection(&reached, &tables[i].fields);
            let reach = closure(&part, fds);
            let gain = intersection(&reach, &tables[i].fields);
            proof {
                assert(table.fields == tables[i as int].fields.deep_view());
                lemma_kept_set(reached.deep_view(), table.fields.to_set(), true);
                lemma_kept_set(reach.deep_view(), table.fields.to_set(), true);
                assert(gain.deep_view().to_set() == local_gain(now, table, all));
            }
            if !is_subset(&gain, &reached) {
                let grown = union_of(&reached, &gain);
                proof {
                    lemma_merged(reached.deep_view(), gain.deep_view());
                    let after = grown.deep_view().to_set();
                    assert forall|s: Set<Name>|
                        x.subset_of(s) && #[trigger] locally_closed(s, ts, all) implies after.subset_of(s) by {
                        assert(now.subset_of(s));
                        lemma_closure_monotone(
                            now.intersect(table.fields.to_set()),
                            s.intersect(table.fields.to_set()),
                            all,
                        );
                        assert(local_gain(s, ts[i as int], all).subset_of(s));
                    }
                    let n = choose|n: Name| gain.deep_view().to_set().contains(n) && !now.contains(n);
                    assert(table.fields.to_set().contains(n));
                    assert(u.to_set().contains(n));
                    assert(u.contains(n) && after.contains(n) && !now.contains(n));
                    lemma_absent_shrinks(u, now, after);
                }
                reached = grown;
                changed = true;
            }
            i += 1;
        }
        if !changed {
            done = true;
        }
    }
    proof {
        let c = reached.deep_view().to_set();
        assert(c =~= local_closure(x, ts, all)) by {
            assert forall|n: Name| local_closure(x, ts, all).contains(n) implies c.contains(n) by {
                assert(locally_closed(c, ts, all));
            }
        }
    }
    reached
}

/// Whether the tables preserve every dependency of `fds`: each follows from
/// the dependencies projected onto the tables, without a join.
pub fn preserves_dependencies(tables: &Vec<TableChange>, fds: &Vec<FunctionalDependency>) -> (r: bool)
    ensures
        r == preserving(tables.deep_view(), fds.deep_view()),
{
    let ghost ts = tables.deep_view();
    let ghost all = fds.deep_view();
    let mut i: usize = 0;
    while i < fds.len()
        invariant
            i <= fds.len(),
            ts == tables.deep_view(),
            all == fds.deep_view(),
            forall|j: int| 0 <= j < i ==> preserved(#[trigger] all[j], ts, all),
        decreases fds.len() - i,
    {
        let reached = local_reach(&fds[i].determinant, tables, fds);
        assert(all[i as int] == fds[i as int]@);
        if !is_subset(&fds[i].dependent, &reached) {
            assert(!preserved(all[i as int], ts, all));
            return false;
        }
        i += 1;
    }
    true
}

} // verus!
