//! Functional dependencies, their confidence, and attribute closure.

use vstd::prelude::*;
use vstd::string::*;
use crate::names::{copy_names, is_disjoint, is_subset, lemma_merged, union_of, Name};
use crate::text::{join, joined};

verus! {

/// A fraction of rows: `num` out of `den`.
#[derive(Debug, Clone, Copy, PartialEq, Eq, Structural)]
pub struct Ratio {
    pub num: u64,
    pub den: u64,
}

impl Ratio {
    /// A proper fraction between zero and one.
    pub open spec fn well_formed(self) -> bool {
        self.den > 0 && self.num <= self.den
    }

    /// `self >= other` as fractions, by cross multiplication.
    pub open spec fn at_least(self, other: Ratio) -> bool {
        self.num * other.den >= other.num * self.den
    }

    /// The fraction one: every row.
    pub fn certain() -> (r: Ratio)
        ensures
            r == (Ratio { num: 1, den: 1 }),
            r.well_formed(),
    {
        Ratio { num: 1, den: 1 }
    }

    /// Whether the fraction lies between zero and one.
    pub fn is_well_formed(&self) -> (r: bool)
        ensures
            r == self.well_formed(),
    {
        self.den > 0 && self.num <= self.den
    }

    /// Whether this fraction is at least `other`.
    pub fn meets(&self, other: &Ratio) -> (r: bool)
        ensures
            r == self.at_least(*other),
    {
        let a: u128 = self.num as u128;
        let b: u128 = other.den as u128;
        let c: u128 = other.num as u128;
        let d: u128 = self.den as u128;
        assert(a * b <= 0xFFFF_FFFF_FFFF_FFFF * 0xFFFF_FFFF_FFFF_FFFF) by (nonlinear_arith)
            requires
                a <= 0xFFFF_FFFF_FFFF_FFFF,
                b <= 0xFFFF_FFFF_FFFF_FFFF,
        ;
        assert(c * d <= 0xFFFF_FFFF_FFFF_FFFF * 0xFFFF_FFFF_FFFF_FFFF) by (nonlinear_arith)
            requires
                c <= 0xFFFF_FFFF_FFFF_FFFF,
                d <= 0xFFFF_FFFF_FFFF_FFFF,
        ;
        a * b >= c * d
    }
}

/// A rule `determinant -> dependent`: rows that agree on the determinant
/// agree on the dependent fields.
#[derive(Debug, Clone)]
pub struct FunctionalDependency {
    pub determinant: Vec<String>,
    pub dependent: Vec<String>,
    pub confidence: Ratio,
    pub discovered: bool,
}

/// A functional dependency as specifications see it.
pub struct Dependency {
    pub determinant: Seq<Name>,
    pub dependent: Seq<Name>,
    pub confidence: Ratio,
    pub discovered: bool,
}

impl Dependency {
    /// The determining fields as a set.
    pub open spec fn lhs(self) -> Set<Name> {
        self.determinant.to_set()
    }

    /// The determined fields as a set.
    pub open spec fn rhs(self) -> Set<Name> {
        self.dependent.to_set()
    }

    /// A dependency on the empty determinant: its dependents are constant.
    pub open spec fn is_degenerate(self) -> bool {
        self.determinant.len() == 0
    }

    /// Whether every field of the dependency is in `fields`.
    pub open spec fn within(self, fields: Set<Name>) -> bool {
        self.lhs().subset_of(fields) && self.rhs().subset_of(fields)
    }

    /// Both sides are non-empty and share no field, and the confidence is a
    /// proper fraction.
    pub open spec fn well_formed(self) -> bool {
        &&& self.determinant.len() > 0
        &&& self.dependent.len() > 0
        &&& self.lhs().disjoint(self.rhs())
        &&& self.confidence.well_formed()
    }
}

/// A dependency in words: `{a, b} -> {c}`.
pub open spec fn dependency_text(fd: Dependency) -> Seq<char> {
    "{"@ + joined(fd.determinant, ", "@) + "} -> {"@ + joined(fd.dependent, ", "@) + "}"@
}

impl View for FunctionalDependency {
    type V = Dependency;

    open spec fn view(&self) -> Dependency {
        Dependency {
            determinant: self.determinant.deep_view(),
            dependent: self.dependent.deep_view(),
            confidence: self.confidence,
            discovered: self.discovered,
        }
    }
}

impl DeepView for FunctionalDependency {
    type V = Dependency;

    open spec fn deep_view(&self) -> Dependency {
        self.view()
    }
}

impl FunctionalDependency {
    /// A declared dependency, held with full confidence.
    pub fn declared(determinant: Vec<String>, dependent: Vec<String>) -> (fd: FunctionalDependency)
        ensures
            fd@.determinant == determinant.deep_view(),
            fd@.dependent == dependent.deep_view(),
            fd@.confidence == (Ratio { num: 1, den: 1 }),
            !fd@.discovered,
    {
        FunctionalDependency {
            determinant,
            dependent,
            confidence: Ratio::certain(),
            discovered: false,
        }
    }

    /// Whether the determinant is empty.
    pub fn is_degenerate(&self) -> (r: bool)
        ensures
            r == self@.is_degenerate(),
    {
        self.determinant.len() == 0
    }

    /// Whether both sides are non-empty and share no field, and the
    /// confidence is a proper fraction.
    pub fn is_well_formed(&self) -> (r: bool)
        ensures
            r == self@.well_formed(),
    {
        self.determinant.len() > 0 && self.dependent.len() > 0 && is_disjoint(
            &self.determinant,
            &self.dependent,
        ) && self.confidence.is_well_formed()
    }

    /// Whether every field of the dependency is one of `fields`.
    pub fn belongs_to(&self, fields: &Vec<String>) -> (r: bool)
        ensures
            r == self@.within(fields.deep_view().to_set()),
    {
        is_subset(&self.determinant, fields) && is_subset(&self.dependent, fields)
    }

    /// The dependency in words: `{a, b} -> {c}`.
    pub fn describe(&self) -> (s: String)
        ensures
            s@ == dependency_text(self@),
    {
        let mut s = String::from_str("{");
        let left = join(&self.determinant, ", ");
        s.append(left.as_str());
        s.append("} -> {");
        let right = join(&self.dependent, ", ");
        s.append(right.as_str());
        s.append("}");
        s
    }

    /// A copy of this dependency.
    pub fn duplicate(&self) -> (fd: FunctionalDependency)
        ensures
            fd@ == self@,
    {
        FunctionalDependency {
            determinant: copy_names(&self.determinant),
            dependent: copy_names(&self.dependent),
            confidence: self.confidence,
            discovered: self.discovered,
        }
    }
}

/// Whether `s` holds the dependents of every dependency whose determinant it holds.
pub open spec fn closed_under(s: Set<Name>, fds: Seq<Dependency>) -> bool {
    forall|i: int|
        0 <= i < fds.len() && (#[trigger] fds[i]).lhs().subset_of(s) ==> fds[i].rhs().subset_of(s)
}

/// The closure of `x`: the fields that every closed set around `x` holds.
pub open spec fn closure_of(x: Set<Name>, fds: Seq<Dependency>) -> Set<Name> {
    Set::new(
        |n: Name|
            forall|s: Set<Name>| x.subset_of(s) && #[trigger] closed_under(s, fds) ==> s.contains(n),
    )
}

/// Whether the closure of `x` covers all of `fields`.
pub open spec fn is_superkey_of(x: Set<Name>, fields: Set<Name>, fds: Seq<Dependency>) -> bool {
    fields.subset_of(closure_of(x, fds))
}

/// The closure contains its start, is closed, and lies in every closed set
/// around the start.
pub proof fn lemma_closure_is_least(x: Set<Name>, fds: Seq<Dependency>)
    ensures
        x.subset_of(closure_of(x, fds)),
        closed_under(closure_of(x, fds), fds),
        forall|s: Set<Name>|
            x.subset_of(s) && #[trigger] closed_under(s, fds) ==> closure_of(x, fds).subset_of(s),
{
    let c = closure_of(x, fds);
    assert forall|i: int| 0 <= i < fds.len() && (#[trigger] fds[i]).lhs().subset_of(
        c,
    ) implies fds[i].rhs().subset_of(c) by {
        assert forall|n: Name| fds[i].rhs().contains(n) implies c.contains(n) by {
            assert forall|s: Set<Name>| x.subset_of(s) && #[trigger] closed_under(
                s,
                fds,
            ) implies s.contains(n) by {
                assert(c.subset_of(s));
                assert(fds[i].lhs().subset_of(s));
            }
        }
    }
}

/// A larger start gives a larger closure.
pub proof fn lemma_closure_monotone(x: Set<Name>, y: Set<Name>, fds: Seq<Dependency>)
    requires
        x.subset_of(y),
    ensures
        closure_of(x, fds).subset_of(closure_of(y, fds)),
{
    lemma_closure_is_least(y, fds);
    lemma_closure_is_least(x, fds);
}

/// Closing a closure adds nothing.
pub proof fn lemma_closure_idempotent(x: Set<Name>, fds: Seq<Dependency>)
    ensures
        closure_of(closure_of(x, fds), fds) == closure_of(x, fds),
{
    let c = closure_of(x, fds);
    lemma_closure_is_least(x, fds);
    lemma_closure_is_least(c, fds);
    assert(closure_of(c, fds) =~= c);
}

/// How many flags are still unset.
spec fn unset_count(flags: Seq<bool>) -> nat
    decreases flags.len(),
{
    if flags.len() == 0 {
        0
    } else {
        unset_count(flags.drop_last()) + if flags.last() {
            0nat
        } else {
            1nat
        }
    }
}

proof fn lemma_set_flag(flags: Seq<bool>, i: int)
    requires
        0 <= i < flags.len(),
        !flags[i],
    ensures
        unset_count(flags.update(i, true)) + 1 == unset_count(flags),
    decreases flags.len(),
{
    let after = flags.update(i, true);
    if i == flags.len() - 1 {
        assert(after.drop_last() =~= flags.drop_last());
    } else {
        lemma_set_flag(flags.drop_last(), i);
        assert(after.drop_last() =~= flags.drop_last().update(i, true));
    }
}

/// The first dependency not yet applied whose determinant lies in `reached`.
fn next_applicable(fds: &Vec<FunctionalDependency>, applied: &Vec<bool>, reached: &Vec<String>) -> (r:
    Option<usize>)
    requires
        applied.len() == fds.len(),
    ensures
        match r {
            Some(i) => i < fds.len() && !applied[i as int] && fds[i as int]@.lhs().subset_of(
                reached.deep_view().to_set(),
            ),
            None => forall|j: int|
                0 <= j < fds.len() && !applied[j] ==> !(#[trigger] fds[j])@.lhs().subset_of(
                    reached.deep_view().to_set(),
                ),
        },
{
    let mut i: usize = 0;
    while i < fds.len()
        invariant
            i <= fds.len(),
            applied.len() == fds.len(),
            forall|j: int|
                0 <= j < i && !applied[j] ==> !(#[trigger] fds[j])@.lhs().subset_of(
                    reached.deep_view().to_set(),
                ),
        decreases fds.len() - i,
    {
        if !applied[i] && is_subset(&fds[i].determinant, reached) {
            return Some(i);
        }
        i += 1;
    }
    None
}

/// Computes the closure of `start` under `fds`: `start` first, then each
/// newly reached field in the order in which the dependencies yield it.
pub fn closure(start: &Vec<String>, fds: &Vec<FunctionalDependency>) -> (r: Vec<String>)
    ensures
        r.deep_view().to_set() == closure_of(start.deep_view().to_set(), fds.deep_view()),
        start.deep_view().no_duplicates() ==> r.deep_view().no_duplicates(),
{
    let ghost x = start.deep_view().to_set();
    let ghost all = fds.deep_view();
    let mut reached = copy_names(start);
    let mut applied: Vec<bool> = Vec::new();
    let mut k: usize = 0;
    while k < fds.len()
        invariant
            k <= fds.len(),
            applied.len() == k,
            forall|j: int| 0 <= j < k ==> !applied[j],
            unset_count(applied@) == k,
        decreases fds.len() - k,
    {
        let ghost before = applied@;
        applied.push(false);
        assert(applied@.drop_last() =~= before);
        k += 1;
    }
    let mut remaining: usize = fds.len();
    let mut done = false;
    while !done
        invariant
            all == fds.deep_view(),
            x == start.deep_view().to_set(),
            applied.len() == fds.len(),
            remaining == unset_count(applied@),
            x.subset_of(reached.deep_view().to_set()),
            start.deep_view().no_duplicates() ==> reached.deep_view().no_duplicates(),
            forall|s: Set<Name>|
                x.subset_of(s) && #[trigger] closed_under(s, all) ==> reached.deep_view().to_set().subset_of(
                    s,
                ),
            forall|j: int|
                0 <= j < fds.len() && applied[j] ==> (#[trigger] all[j]).rhs().subset_of(
                    reached.deep_view().to_set(),
                ),
            done ==> closed_under(reached.deep_view().to_set(), all),
        decreases remaining + if done { 0nat } else { 1nat },
    {
        match next_applicable(fds, &applied, &reached) {
            None => {
                proof {
                    assert forall|j: int|
                        0 <= j < all.len() && (#[trigger] all[j]).lhs().subset_of(
                            reached.deep_view().to_set(),
                        ) implies all[j].rhs().subset_of(reached.deep_view().to_set()) by {
                        assert(all[j] == fds[j]@);
                    }
                }
                done = true;
            },
            Some(i) => {
                let ghost old_set = reached.deep_view().to_set();
                let ghost old_applied = applied@;
                let grown = union_of(&reached, &fds[i].dependent);
                proof {
                    lemma_merged(reached.deep_view(), fds[i as int].dependent.deep_view());
                    lemma_set_flag(applied@, i as int);
                    assert(all[i as int] == fds[i as int]@);
                    assert forall|s: Set<Name>|
                        x.subset_of(s) && #[trigger] closed_under(
                            s,
                            all,
                        ) implies grown.deep_view().to_set().subset_of(s) by {
                        assert(old_set.subset_of(s));
                        assert(all[i as int].lhs().subset_of(s));
                        assert(all[i as int].rhs().subset_of(s));
                    }
                }
                reached = grown;
                applied.set(i, true);
                remaining = remaining - 1;
            },
        }
    }
    proof {
        lemma_closure_is_least(x, all);
        assert(reached.deep_view().to_set() =~= closure_of(x, all));
    }
    reached
}

/// Whether the closure of `x` under `fds` covers every field of `fields`.
pub fn is_superkey(x: &Vec<String>, fields: &Vec<String>, fds: &Vec<FunctionalDependency>) -> (r:
    bool)
    ensures
        r == is_superkey_of(
            x.deep_view().to_set(),
            fields.deep_view().to_set(),
            fds.deep_view(),
        ),
{
    let reached = closure(x, fds);
    is_subset(fields, &reached)
}

} // verus!
