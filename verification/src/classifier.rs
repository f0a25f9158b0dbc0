//! Normal-form classification of a schema under a set of dependencies.

use vstd::prelude::*;
use vstd::string::*;
use crate::dependency::{is_superkey, is_superkey_of, Dependency, FunctionalDependency};
use crate::error::EngineError;
use crate::names::{contains_name, is_disjoint, is_subset, Name};
use crate::normal_form::NormalForm;

verus! {

/// Whether some dependent field is neither a key field nor a determinant field.
pub open spec fn has_non_key_dependent(fd: Dependency, key: Set<Name>) -> bool {
    exists|i: int|
        0 <= i < fd.dependent.len() && !key.contains(#[trigger] fd.dependent[i])
            && !fd.lhs().contains(fd.dependent[i])
}

/// A partial dependency: a proper part of the key determines a non-key field.
pub open spec fn is_partial(fd: Dependency, key: Set<Name>) -> bool {
    &&& !fd.is_degenerate()
    &&& fd.lhs().subset_of(key)
    &&& !key.subset_of(fd.lhs())
    &&& has_non_key_dependent(fd, key)
}

/// A transitive dependency: non-key fields determine another non-key field.
pub open spec fn is_transitive(fd: Dependency, key: Set<Name>) -> bool {
    &&& !fd.is_degenerate()
    &&& fd.lhs().disjoint(key)
    &&& has_non_key_dependent(fd, key)
}

/// A non-trivial dependency whose determinant is no superkey.
pub open spec fn breaks_bcnf(fd: Dependency, fields: Set<Name>, all: Seq<Dependency>) -> bool {
    &&& !fd.is_degenerate()
    &&& !fd.rhs().subset_of(fd.lhs())
    &&& !is_superkey_of(fd.lhs(), fields, all)
}

/// Whether `fd` is a violation of `level`. Degenerate dependencies violate
/// nothing, and nothing here violates `First`, `Fourth` or `Fifth`.
pub open spec fn violates(
    level: NormalForm,
    fd: Dependency,
    fields: Set<Name>,
    key: Set<Name>,
    all: Seq<Dependency>,
) -> bool {
    match level {
        NormalForm::Second => is_partial(fd, key),
        NormalForm::Third => is_transitive(fd, key),
        NormalForm::BCNF => breaks_bcnf(fd, fields, all),
        _ => false,
    }
}

/// The dependencies of `part` that violate `level`, in order.
pub open spec fn violations_in(
    level: NormalForm,
    part: Seq<Dependency>,
    fields: Set<Name>,
    key: Set<Name>,
    all: Seq<Dependency>,
) -> Seq<Dependency>
    decreases part.len(),
{
    if part.len() == 0 {
        Seq::empty()
    } else {
        let front = violations_in(level, part.drop_last(), fields, key, all);
        if violates(level, part.last(), fields, key, all) {
            front.push(part.last())
        } else {
            front
        }
    }
}

/// No dependency violates `level` itself.
pub open spec fn free_of(level: NormalForm, fields: Set<Name>, key: Set<Name>, fds: Seq<Dependency>) -> bool {
    forall|i: int| 0 <= i < fds.len() ==> !violates(level, #[trigger] fds[i], fields, key, fds)
}

/// The schema satisfies `level`: no dependency violates it or any weaker
/// level. Without multivalued dependencies nothing is known to satisfy
/// `Fourth` or `Fifth`.
pub open spec fn satisfies(level: NormalForm, fields: Set<Name>, key: Set<Name>, fds: Seq<Dependency>) -> bool {
    match level {
        NormalForm::First => true,
        NormalForm::Second => free_of(NormalForm::Second, fields, key, fds),
        NormalForm::Third => {
            &&& free_of(NormalForm::Second, fields, key, fds)
            &&& free_of(NormalForm::Third, fields, key, fds)
        },
        NormalForm::BCNF => {
            &&& free_of(NormalForm::Second, fields, key, fds)
            &&& free_of(NormalForm::Third, fields, key, fds)
            &&& free_of(NormalForm::BCNF, fields, key, fds)
        },
        _ => false,
    }
}

/// The strongest form that the schema satisfies.
pub open spec fn strongest_form(fields: Set<Name>, key: Set<Name>, fds: Seq<Dependency>) -> NormalForm {
    if satisfies(NormalForm::BCNF, fields, key, fds) {
        NormalForm::BCNF
    } else if satisfies(NormalForm::Third, fields, key, fds) {
        NormalForm::Third
    } else if satisfies(NormalForm::Second, fields, key, fds) {
        NormalForm::Second
    } else {
        NormalForm::First
    }
}

/// The form to report once multivalued and join dependencies were looked
/// into elsewhere: a schema in `BCNF` that is attested a stronger form has
/// that form; any other schema keeps its own.
pub open spec fn with_attested(form: NormalForm, attested: Option<NormalForm>) -> NormalForm {
    match attested {
        Some(claim) => if form == NormalForm::BCNF && claim.rank() > form.rank() {
            claim
        } else {
            form
        },
        None => form,
    }
}

/// The level just above `form` on the way to `BCNF`; `BCNF` itself from there on.
pub open spec fn level_above(form: NormalForm) -> NormalForm {
    match form {
        NormalForm::First => NormalForm::Second,
        NormalForm::Second => NormalForm::Third,
        _ => NormalForm::BCNF,
    }
}

/// The first key field, in key order, that is not among `fields`.
pub open spec fn first_missing(key: Seq<Name>, fields: Set<Name>) -> Option<Name>
    decreases key.len(),
{
    if key.len() == 0 {
        None
    } else if !fields.contains(key[0]) {
        Some(key[0])
    } else {
        first_missing(key.drop_first(), fields)
    }
}

/// A key field is missing exactly when the key is no subset of the fields.
pub proof fn lemma_first_missing(key: Seq<Name>, fields: Set<Name>)
    ensures
        first_missing(key, fields) is None <==> key.to_set().subset_of(fields),
        first_missing(key, fields) matches Some(n) ==> key.contains(n) && !fields.contains(n),
    decreases key.len(),
{
    if key.len() > 0 {
        let rest = key.drop_first();
        lemma_first_missing(rest, fields);
        assert(key.to_set().contains(key[0]));
        if fields.contains(key[0]) {
            assert forall|n: Name| rest.contains(n) implies key.contains(n) by {
                let j = choose|j: int| 0 <= j < rest.len() && rest[j] == n;
                assert(key[j + 1] == n);
            }
            if rest.to_set().subset_of(fields) {
                assert forall|n: Name| key.to_set().contains(n) implies fields.contains(n) by {
                    let j = choose|j: int| 0 <= j < key.len() && key[j] == n;
                    if j > 0 {
                        assert(rest[j - 1] == n);
                        assert(rest.to_set().contains(n));
                    }
                }
            } else {
                let n = choose|n: Name| rest.to_set().contains(n) && !fields.contains(n);
                assert(key.to_set().contains(n));
            }
        }
    }
}

/// A schema that satisfies a form satisfies every weaker one: BCNF implies
/// 3NF, and 3NF implies 2NF, and everything is in 1NF.
pub proof fn lemma_stronger_form_implies_weaker(
    fields: Set<Name>,
    key: Set<Name>,
    fds: Seq<Dependency>,
    strong: NormalForm,
    weak: NormalForm,
)
    requires
        satisfies(strong, fields, key, fds),
        weak.rank() <= strong.rank(),
    ensures
        satisfies(weak, fields, key, fds),
{
}

/// The reported form is the strongest satisfied one: a level up to `BCNF`
/// is satisfied exactly when the reported form has at least its rank.
pub proof fn lemma_strongest_form(fields: Set<Name>, key: Set<Name>, fds: Seq<Dependency>, level: NormalForm)
    ensures
        satisfies(level, fields, key, fds) <==> level.rank() <= strongest_form(fields, key, fds).rank(),
        strongest_form(fields, key, fds).rank() <= NormalForm::BCNF.rank(),
{
}

/// The outcome of a classification: the strongest satisfied form and the
/// dependencies that stand in the way of the next one.
#[derive(Debug, Clone)]
pub struct Classification {
    pub form: NormalForm,
    pub violating: Vec<FunctionalDependency>,
}

/// Raises a classified form by what was attested from outside: `Fourth`
/// or `Fifth` for a schema that the classifier found in `BCNF`, and
/// nothing for any other.
pub fn apply_attested(form: NormalForm, attested: Option<NormalForm>) -> (r: NormalForm)
    ensures
        r == with_attested(form, attested),
{
    match attested {
        Some(claim) => {
            if form.level() == 4 && claim.level() > 4 {
                claim
            } else {
                form
            }
        },
        None => form,
    }
}

fn check_non_key_dependent(fd: &FunctionalDependency, key: &Vec<String>) -> (r: bool)
    ensures
        r == has_non_key_dependent(fd@, key.deep_view().to_set()),
{
    let mut i: usize = 0;
    while i < fd.dependent.len()
        invariant
            i <= fd.dependent.len(),
            forall|j: int|
                0 <= j < i ==> key.deep_view().to_set().contains(#[trigger] fd@.dependent[j])
                    || fd@.lhs().contains(fd@.dependent[j]),
        decreases fd.dependent.len() - i,
    {
        if !contains_name(key, &fd.dependent[i]) && !contains_name(&fd.determinant, &fd.dependent[i]) {
            assert(!key.deep_view().to_set().contains(fd@.dependent[i as int]));
            return true;
        }
        i += 1;
    }
    false
}

/// Whether `fd` violates `level` in the schema `fields` with primary key `key`.
pub fn check_violation(
    level: NormalForm,
    fd: &FunctionalDependency,
    fields: &Vec<String>,
    key: &Vec<String>,
    fds: &Vec<FunctionalDependency>,
) -> (r: bool)
    ensures
        r == violates(
            level,
            fd@,
            fields.deep_view().to_set(),
            key.deep_view().to_set(),
            fds.deep_view(),
        ),
{
    if fd.is_degenerate() {
        return false;
    }
    match level {
        NormalForm::Second => {
            is_subset(&fd.determinant, key) && !is_subset(key, &fd.determinant)
                && check_non_key_dependent(fd, key)
        },
        NormalForm::Third => {
            is_disjoint(&fd.determinant, key) && check_non_key_dependent(fd, key)
        },
        NormalForm::BCNF => {
            !is_subset(&fd.dependent, &fd.determinant) && !is_superkey(&fd.determinant, fields, fds)
        },
        _ => false,
    }
}

/// Copies of the dependencies that violate `level`, in their given order.
pub fn collect_violations(
    level: NormalForm,
    fields: &Vec<String>,
    key: &Vec<String>,
    fds: &Vec<FunctionalDependency>,
) -> (r: Vec<FunctionalDependency>)
    ensures
        r.deep_view() == violations_in(
            level,
            fds.deep_view(),
            fields.deep_view().to_set(),
            key.deep_view().to_set(),
            fds.deep_view(),
        ),
        r.len() == 0 <==> free_of(
            level,
            fields.deep_view().to_set(),
            key.deep_view().to_set(),
            fds.deep_view(),
        ),
{
    let ghost f = fields.deep_view().to_set();
    let ghost k = key.deep_view().to_set();
    let ghost all = fds.deep_view();
    let mut r: Vec<FunctionalDependency> = Vec::new();
    let mut i: usize = 0;
    assert(r.deep_view() =~= Seq::<Dependency>::empty());
    assert(all.take(0).len() == 0);
    while i < fds.len()
        invariant
            i <= fds.len(),
            f == fields.deep_view().to_set(),
            k == key.deep_view().to_set(),
            all == fds.deep_view(),
            r.deep_view() == violations_in(level, all.take(i as int), f, k, all),
            r.len() == 0 <==> forall|j: int| 0 <= j < i ==> !violates(level, #[trigger] all[j], f, k, all),
        decreases fds.len() - i,
    {
        proof {
            assert(all.take(i + 1).drop_last() =~= all.take(i as int));
            assert(all.take(i + 1).last() == fds[i as int]@);
            assert(all[i as int] == fds[i as int]@);
        }
        if check_violation(level, &fds[i], fields, key, fds) {
            let ghost before = r;
            let copy = fds[i].duplicate();
            r.push(copy);
            assert(r.deep_view() =~= before.deep_view().push(copy@));
        }
        i += 1;
    }
    assert(all.take(i as int) =~= all);
    r
}

/// The first key field that `fields` lacks, if any.
fn find_missing(key: &Vec<String>, fields: &Vec<String>) -> (r: Option<String>)
    ensures
        r is Some <==> first_missing(key.deep_view(), fields.deep_view().to_set()) is Some,
        r matches Some(n) ==> first_missing(key.deep_view(), fields.deep_view().to_set()) == Some(n@),
{
    let ghost f = fields.deep_view().to_set();
    let mut i: usize = 0;
    assert(key.deep_view().skip(0) =~= key.deep_view());
    while i < key.len()
        invariant
            i <= key.len(),
            f == fields.deep_view().to_set(),
            first_missing(key.deep_view(), f) == first_missing(key.deep_view().skip(i as int), f),
        decreases key.len() - i,
    {
        proof {
            assert(key.deep_view().skip(i as int).drop_first() =~= key.deep_view().skip(i + 1));
            assert(key.deep_view().skip(i as int)[0] == key[i as int]@);
        }
        if !contains_name(fields, &key[i]) {
            return Some(key[i].clone());
        }
        i += 1;
    }
    None
}

/// Classifies the schema `fields` with primary key `key` under `fds`.
///
/// Fails with `InconsistentSchema`, naming the first missing key field,
/// exactly when some key field is not among `fields`. Otherwise reports the
/// strongest satisfied form, at most `BCNF`, and the dependencies that
/// violate the level just above it (none at `BCNF`).
pub fn classify(fields: &Vec<String>, key: &Vec<String>, fds: &Vec<FunctionalDependency>) -> (res:
    Result<Classification, EngineError>)
    ensures
        res is Ok <==> key.deep_view().to_set().subset_of(fields.deep_view().to_set()),
        res matches Err(e) ==> e matches EngineError::InconsistentSchema { missing }
            && first_missing(key.deep_view(), fields.deep_view().to_set()) == Some(missing@),
        res matches Ok(c) ==> {
            &&& c.form == strongest_form(
                fields.deep_view().to_set(),
                key.deep_view().to_set(),
                fds.deep_view(),
            )
            &&& c.violating.deep_view() == violations_in(
                level_above(c.form),
                fds.deep_view(),
                fields.deep_view().to_set(),
                key.deep_view().to_set(),
                fds.deep_view(),
            )
        },
{
    proof {
        lemma_first_missing(key.deep_view(), fields.deep_view().to_set());
    }
    match find_missing(key, fields) {
        Some(missing) => Err(EngineError::InconsistentSchema { missing }),
        None => {
            let partial = collect_violations(NormalForm::Second, fields, key, fds);
            if partial.len() > 0 {
                return Ok(Classification { form: NormalForm::First, violating: partial });
            }
            let transitive = collect_violations(NormalForm::Third, fields, key, fds);
            if transitive.len() > 0 {
                return Ok(Classification { form: NormalForm::Second, violating: transitive });
            }
            let beyond = collect_violations(NormalForm::BCNF, fields, key, fds);
            if beyond.len() > 0 {
                Ok(Classification { form: NormalForm::Third, violating: beyond })
            } else {
                Ok(Classification { form: NormalForm::BCNF, violating: beyond })
            }
        },
    }
}

} // verus!
