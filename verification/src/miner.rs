//! The dependency miner: functional dependencies that a set of rows supports.

use vstd::prelude::*;
use vstd::string::*;
use crate::dependency::{Dependency, FunctionalDependency, Ratio};
use crate::names::{
    contains_name,
    copy_names,
    is_distinct,
    lemma_merged,
    lemma_push_view,
    union_of,
    Name,
};
use crate::query::{QueryRow, Row};

verus! {

/// The value of `field` in `row`; `None` where it is null.
pub open spec fn cell(row: Row, field: Name) -> Option<Seq<char>> {
    if row.contains_key(field) {
        Some(row[field])
    } else {
        None
    }
}

/// Whether `row` has a value for every field of `x`.
pub open spec fn defined_on(row: Row, x: Set<Name>) -> bool {
    forall|n: Name| x.contains(n) ==> #[trigger] row.contains_key(n)
}

/// Whether two rows have the same value, or both none, in every field of `x`.
pub open spec fn agree_on(a: Row, b: Row, x: Set<Name>) -> bool {
    forall|n: Name| x.contains(n) ==> #[trigger] cell(a, n) == cell(b, n)
}

/// Whether row `i` is consistent with the rule `x -> a`: its determinant is
/// not null, and every row that agrees with it on `x` agrees with it on `a`.
pub open spec fn row_supports(rows: Seq<Row>, i: int, x: Set<Name>, a: Name) -> bool {
    &&& defined_on(rows[i], x)
    &&& forall|j: int|
        0 <= j < rows.len() && agree_on(rows[i], #[trigger] rows[j], x) ==> cell(rows[i], a) == cell(
            rows[j],
            a,
        )
}

/// How many of the first `n` rows are consistent with `x -> a`.
pub open spec fn support(rows: Seq<Row>, n: int, x: Set<Name>, a: Name) -> nat
    decreases n,
{
    if n <= 0 {
        0
    } else {
        support(rows, n - 1, x, a) + if row_supports(rows, n - 1, x, a) {
            1nat
        } else {
            0nat
        }
    }
}

/// How many of the first `n` rows have a determinant that is not null.
pub open spec fn coverage(rows: Seq<Row>, n: int, x: Set<Name>) -> nat
    decreases n,
{
    if n <= 0 {
        0
    } else {
        coverage(rows, n - 1, x) + if defined_on(rows[n - 1], x) {
            1nat
        } else {
            0nat
        }
    }
}

/// Whether the rows support `x -> a` with confidence at least `t`: some
/// row has a determinant that is not null, and the consistent rows are at
/// least the fraction `t` of those.
pub open spec fn holds(rows: Seq<Row>, x: Set<Name>, a: Name, t: Ratio) -> bool {
    &&& coverage(rows, rows.len() as int, x) > 0
    &&& support(rows, rows.len() as int, x, a) * t.den >= t.num * coverage(rows, rows.len() as int, x)
}

/// Whether no proper part of `x` already determines `a` that well.
pub open spec fn minimal(rows: Seq<Row>, x: Set<Name>, a: Name, t: Ratio) -> bool {
    forall|s: Set<Name>| s.subset_of(x) && s != x ==> !#[trigger] holds(rows, s, a, t)
}

/// The consistent rows are among the rows with a determinant, and those
/// among the rows counted.
pub proof fn lemma_support_bounds(rows: Seq<Row>, n: int, x: Set<Name>, a: Name)
    requires
        0 <= n,
    ensures
        support(rows, n, x, a) <= coverage(rows, n, x) <= n,
    decreases n,
{
    if n > 0 {
        lemma_support_bounds(rows, n - 1, x, a);
    }
}

fn row_defined(row: &QueryRow, x: &Vec<String>) -> (r: bool)
    ensures
        r == defined_on(row@, x.deep_view().to_set()),
{
    let mut i: usize = 0;
    while i < x.len()
        invariant
            i <= x.len(),
            forall|j: int| 0 <= j < i ==> row@.contains_key(#[trigger] x.deep_view()[j]),
        decreases x.len() - i,
    {
        if !row.has(x[i].as_str()) {
            assert(x.deep_view().to_set().contains(x.deep_view()[i as int]));
            return false;
        }
        i += 1;
    }
    assert forall|n: Name| x.deep_view().to_set().contains(n) implies #[trigger] row@.contains_key(n) by {
        let j = choose|j: int| 0 <= j < x.deep_view().len() && x.deep_view()[j] == n;
        assert(row@.contains_key(x.deep_view()[j]));
    }
    true
}

fn cells_agree(a: &QueryRow, b: &QueryRow, field: &String) -> (r: bool)
    ensures
        r == (cell(a@, field@) == cell(b@, field@)),
{
    match (a.get(field.as_str()), b.get(field.as_str())) {
        (Some(u), Some(v)) => *u == *v,
        (None, None) => true,
        _ => false,
    }
}

fn rows_agree(a: &QueryRow, b: &QueryRow, x: &Vec<String>) -> (r: bool)
    ensures
        r == agree_on(a@, b@, x.deep_view().to_set()),
{
    let mut i: usize = 0;
    while i < x.len()
        invariant
            i <= x.len(),
            forall|j: int| 0 <= j < i ==> cell(a@, #[trigger] x.deep_view()[j]) == cell(b@, x.deep_view()[j]),
        decreases x.len() - i,
    {
        if !cells_agree(a, b, &x[i]) {
            assert(x.deep_view().to_set().contains(x.deep_view()[i as int]));
            return false;
        }
        i += 1;
    }
    assert forall|n: Name| x.deep_view().to_set().contains(n) implies #[trigger] cell(a@, n) == cell(b@, n) by {
        let j = choose|j: int| 0 <= j < x.deep_view().len() && x.deep_view()[j] == n;
        assert(cell(a@, x.deep_view()[j]) == cell(b@, x.deep_view()[j]));
    }
    true
}

fn check_row_supports(rows: &Vec<QueryRow>, i: usize, x: &Vec<String>, a: &String) -> (r: bool)
    requires
        i < rows.len(),
    ensures
        r == row_supports(rows.deep_view(), i as int, x.deep_view().to_set(), a@),
{
    let ghost rs = rows.deep_view();
    let ghost xs = x.deep_view().to_set();
    assert(rs[i as int] == rows[i as int]@);
    if !row_defined(&rows[i], x) {
        return false;
    }
    let mut j: usize = 0;
    while j < rows.len()
        invariant
            j <= rows.len(),
            i < rows.len(),
            rs == rows.deep_view(),
            xs == x.deep_view().to_set(),
            forall|q: int|
                0 <= q < j && agree_on(rs[i as int], #[trigger] rs[q], xs) ==> cell(rs[i as int], a@) == cell(
                    rs[q],
                    a@,
                ),
        decreases rows.len() - j,
    {
        assert(rs[j as int] == rows[j as int]@);
        if rows_agree(&rows[i], &rows[j], x) && !cells_agree(&rows[i], &rows[j], a) {
            return false;
        }
        j += 1;
    }
    true
}

/// Counts the rows consistent with `x -> a` and the rows whose determinant
/// is not null.
pub fn count_support(rows: &Vec<QueryRow>, x: &Vec<String>, a: &String) -> (r: (usize, usize))
    ensures
        r.0 == support(rows.deep_view(), rows.len() as int, x.deep_view().to_set(), a@),
        r.1 == coverage(rows.deep_view(), rows.len() as int, x.deep_view().to_set()),
        r.0 <= r.1,
{
    let ghost rs = rows.deep_view();
    let ghost xs = x.deep_view().to_set();
    let mut consistent: usize = 0;
    let mut covered: usize = 0;
    let mut i: usize = 0;
    while i < rows.len()
        invariant
            i <= rows.len(),
            rs == rows.deep_view(),
            xs == x.deep_view().to_set(),
            consistent == support(rs, i as int, xs, a@),
            covered == coverage(rs, i as int, xs),
            consistent <= covered <= i,
        decreases rows.len() - i,
    {
        assert(rs[i as int] == rows[i as int]@);
        if row_defined(&rows[i], x) {
            covered += 1;
            if check_row_supports(rows, i, x, a) {
                consistent += 1;
            }
        }
        i += 1;
    }
    (consistent, covered)
}

/// Whether `consistent` out of `covered` rows is a positive number of rows
/// and at least the fraction `t`.
fn reaches(consistent: usize, covered: usize, t: &Ratio) -> (r: bool)
    ensures
        r == (covered > 0 && consistent * t.den >= t.num * covered),
{
    let a: u128 = consistent as u128;
    let b: u128 = t.den as u128;
    let c: u128 = t.num as u128;
    let d: u128 = covered as u128;
    assert(a * b <= 0xFFFF_FFFF_FFFF_FFFF * 0xFFFF_FFFF_FFFF_FFFF) by (nonlinear_arith)
        requires
            a <= 0xFFFF_FFFF_FFFF_FFFF,
            b <= 0xFFFF_FFFF_FFFF_FFFF,
    ;
    assert(c * d <= 0xFFFF_FFFF_FFFF_FFFF * 0xFFFF_FFFF_FFFF_FFFF) by (nonlinear_arith)
        requires
            c <= 0xFFFF_FFFF_FFFF_FFFF,
            d <= 0xFFFF_FFFF_FFFF_FFFF,
    ;
    covered > 0 && a * b >= c * d
}

/// Whether the rows support `x -> a` with confidence at least `t`.
pub fn check_holds(rows: &Vec<QueryRow>, x: &Vec<String>, a: &String, t: &Ratio) -> (r: bool)
    ensures
        r == holds(rows.deep_view(), x.deep_view().to_set(), a@, *t),
{
    let (consistent, covered) = count_support(rows, x, a);
    reaches(consistent, covered, t)
}

/// The entries of `x` that `mask` selects, in order.
spec fn selected(x: Seq<Name>, mask: Seq<bool>) -> Seq<Name>
    recommends
        mask.len() == x.len(),
    decreases x.len(),
{
    if x.len() == 0 {
        Seq::empty()
    } else {
        let front = selected(x.drop_last(), mask.drop_last());
        if mask.last() {
            front.push(x.last())
        } else {
            front
        }
    }
}

/// Whether `full` decides every one of `len` entries and starts with `mask`.
spec fn completes(full: Seq<bool>, mask: Seq<bool>, len: nat) -> bool {
    full.len() == len && mask.len() <= len && full.take(mask.len() as int) == mask
}

/// Whether `mask` leaves at least one entry out.
spec fn has_gap(mask: Seq<bool>) -> bool {
    exists|k: int| 0 <= k < mask.len() && !#[trigger] mask[k]
}

/// Whether some proper selection of `x` that starts with `mask` determines `a`.
spec fn part_holds(rows: Seq<Row>, x: Seq<Name>, a: Name, t: Ratio, mask: Seq<bool>) -> bool {
    exists|full: Seq<bool>|
        #[trigger] completes(full, mask, x.len()) && has_gap(full) && holds(
            rows,
            selected(x, full).to_set(),
            a,
            t,
        )
}

proof fn lemma_selected_members(x: Seq<Name>, mask: Seq<bool>)
    requires
        mask.len() == x.len(),
    ensures
        forall|n: Name| #[trigger]
            selected(x, mask).contains(n) <==> exists|k: int| 0 <= k < x.len() && mask[k] && #[trigger] x[k] == n,
    decreases x.len(),
{
    if x.len() > 0 {
        let fx = x.drop_last();
        let fm = mask.drop_last();
        let front = selected(fx, fm);
        let r = selected(x, mask);
        lemma_selected_members(fx, fm);
        assert forall|n: Name| #[trigger]
            r.contains(n) <==> exists|k: int| 0 <= k < x.len() && mask[k] && #[trigger] x[k] == n by {
            if r.contains(n) {
                let i = choose|i: int| 0 <= i < r.len() && r[i] == n;
                if i < front.len() {
                    assert(front.contains(n));
                    let k = choose|k: int| 0 <= k < fx.len() && fm[k] && #[trigger] fx[k] == n;
                    assert(mask[k] && x[k] == n);
                } else {
                    assert(mask[x.len() - 1] && x[x.len() - 1] == n);
                }
            }
            if exists|k: int| 0 <= k < x.len() && mask[k] && #[trigger] x[k] == n {
                let k = choose|k: int| 0 <= k < x.len() && mask[k] && #[trigger] x[k] == n;
                if k < fx.len() {
                    assert(fm[k] && fx[k] == n);
                    assert(front.contains(n));
                    let i = choose|i: int| 0 <= i < front.len() && front[i] == n;
                    assert(r[i] == n);
                } else {
                    assert(r[r.len() - 1] == n);
                }
            }
        }
    }
}

/// A determinant without duplicates is minimal exactly when no proper
/// selection of its entries determines the field.
proof fn lemma_minimal_by_masks(rows: Seq<Row>, x: Seq<Name>, a: Name, t: Ratio)
    requires
        x.no_duplicates(),
    ensures
        minimal(rows, x.to_set(), a, t) <==> !part_holds(rows, x, a, t, Seq::empty()),
{
    if part_holds(rows, x, a, t, Seq::empty()) {
        let full = choose|full: Seq<bool>|
            #[trigger] completes(full, Seq::empty(), x.len()) && has_gap(full) && holds(
                rows,
                selected(x, full).to_set(),
                a,
                t,
            );
        let s = selected(x, full).to_set();
        lemma_selected_members(x, full);
        let gap = choose|k: int| 0 <= k < full.len() && !#[trigger] full[k];
        assert(x.to_set().contains(x[gap]));
        assert(!s.contains(x[gap])) by {
            if selected(x, full).contains(x[gap]) {
                let k = choose|k: int| 0 <= k < x.len() && full[k] && #[trigger] x[k] == x[gap];
                assert(k != gap);
            }
        }
        assert(s.subset_of(x.to_set())) by {
            assert forall|n: Name| s.contains(n) implies x.to_set().contains(n) by {
                assert(selected(x, full).contains(n));
                let k = choose|k: int| 0 <= k < x.len() && full[k] && #[trigger] x[k] == n;
            }
        }
        assert(s != x.to_set());
        assert(holds(rows, s, a, t));
        assert(!minimal(rows, x.to_set(), a, t));
    }
    if !minimal(rows, x.to_set(), a, t) {
        let s = choose|s: Set<Name>| s.subset_of(x.to_set()) && s != x.to_set() && #[trigger] holds(rows, s, a, t);
        let full = Seq::new(x.len(), |k: int| s.contains(x[k]));
        lemma_selected_members(x, full);
        assert(selected(x, full).to_set() =~= s) by {
            assert forall|n: Name| selected(x, full).to_set().contains(n) <==> s.contains(n) by {
                if selected(x, full).contains(n) {
                    let k = choose|k: int| 0 <= k < x.len() && full[k] && #[trigger] x[k] == n;
                }
                if s.contains(n) {
                    assert(x.to_set().contains(n));
                    let k = choose|k: int| 0 <= k < x.len() && x[k] == n;
                    assert(full[k] && x[k] == n);
                }
            }
        }
        assert(has_gap(full)) by {
            assert(!(s =~= x.to_set()));
            let n = choose|n: Name| s.contains(n) != x.to_set().contains(n);
            assert(x.to_set().contains(n) && !s.contains(n));
            let k = choose|k: int| 0 <= k < x.len() && x[k] == n;
            assert(!full[k]);
        }
        assert(full.take(0) =~= Seq::<bool>::empty());
        assert(completes(full, Seq::empty(), x.len()));
        assert(part_holds(rows, x, a, t, Seq::empty()));
    }
}

/// Whether some proper selection of `x` determines `a`, among the
/// selections that decide the first `pos` entries as `chosen` records.
fn smaller_holds(
    rows: &Vec<QueryRow>,
    x: &Vec<String>,
    a: &String,
    t: &Ratio,
    pos: usize,
    chosen: &Vec<String>,
    dropped: bool,
    Ghost(mask): Ghost<Seq<bool>>,
) -> (found: bool)
    requires
        pos <= x.len(),
        mask.len() == pos,
        chosen.deep_view() == selected(x.deep_view().take(pos as int), mask),
        dropped == has_gap(mask),
    ensures
        found == part_holds(rows.deep_view(), x.deep_view(), a@, *t, mask),
    decreases x.len() - pos,
{
    let ghost rs = rows.deep_view();
    let ghost xs = x.deep_view();
    if pos == x.len() {
        let r = dropped && check_holds(rows, chosen, a, t);
        proof {
            assert(xs.take(pos as int) =~= xs);
            if r {
                assert(mask.take(mask.len() as int) =~= mask);
                assert(completes(mask, mask, xs.len()));
            }
            if part_holds(rs, xs, a@, *t, mask) {
                let full = choose|full: Seq<bool>|
                    #[trigger] completes(full, mask, xs.len()) && has_gap(full) && holds(
                        rs,
                        selected(xs, full).to_set(),
                        a@,
                        *t,
                    );
                assert(full.take(mask.len() as int) =~= full);
            }
        }
        r
    } else {
        let mut with = copy_names(chosen);
        let ghost before = with;
        let name = x[pos].clone();
        with.push(name);
        let ghost taken = mask.push(true);
        let ghost left = mask.push(false);
        proof {
            lemma_push_view(before, with, name);
            assert(xs.take(pos + 1).drop_last() =~= xs.take(pos as int));
            assert(xs.take(pos + 1).last() == x[pos as int]@);
            assert(taken.drop_last() =~= mask);
            assert(left.drop_last() =~= mask);
            assert(has_gap(left)) by {
                assert(!left[pos as int]);
            }
            assert(has_gap(taken) == dropped) by {
                if has_gap(mask) {
                    let k = choose|k: int| 0 <= k < mask.len() && !#[trigger] mask[k];
                    assert(!taken[k]);
                }
                if has_gap(taken) {
                    let k = choose|k: int| 0 <= k < taken.len() && !#[trigger] taken[k];
                    assert(!mask[k]);
                }
            }
        }
        let first = smaller_holds(rows, x, a, t, pos + 1, &with, dropped, Ghost(taken));
        let second = if first {
            true
        } else {
            smaller_holds(rows, x, a, t, pos + 1, chosen, true, Ghost(left))
        };
        proof {
            if first {
                let full = choose|full: Seq<bool>|
                    #[trigger] completes(full, taken, xs.len()) && has_gap(full) && holds(
                        rs,
                        selected(xs, full).to_set(),
                        a@,
                        *t,
                    );
                assert(full.take(pos as int) =~= full.take(pos + 1).take(pos as int));
                assert(taken.take(pos as int) =~= mask);
                assert(completes(full, mask, xs.len()));
            } else if second {
                let full = choose|full: Seq<bool>|
                    #[trigger] completes(full, left, xs.len()) && has_gap(full) && holds(
                        rs,
                        selected(xs, full).to_set(),
                        a@,
                        *t,
                    );
                assert(full.take(pos as int) =~= full.take(pos + 1).take(pos as int));
                assert(left.take(pos as int) =~= mask);
                assert(completes(full, mask, xs.len()));
            }
            if part_holds(rs, xs, a@, *t, mask) {
                let full = choose|full: Seq<bool>|
                    #[trigger] completes(full, mask, xs.len()) && has_gap(full) && holds(
                        rs,
                        selected(xs, full).to_set(),
                        a@,
                        *t,
                    );
                if full[pos as int] {
                    assert(full.take(pos + 1) =~= taken);
                    assert(completes(full, taken, xs.len()));
                } else {
                    assert(full.take(pos + 1) =~= left);
                    assert(completes(full, left, xs.len()));
                }
            }
        }
        second
    }
}

/// Whether no proper part of the determinant `x` already determines `a`
/// with confidence at least `t`.
pub fn check_minimal(rows: &Vec<QueryRow>, x: &Vec<String>, a: &String, t: &Ratio) -> (r: bool)
    ensures
        r == minimal(rows.deep_view(), x.deep_view().to_set(), a@, *t),
{
    let chosen: Vec<String> = Vec::new();
    let once = union_of(&chosen, x);
    proof {
        lemma_merged(chosen.deep_view(), x.deep_view());
        assert(chosen.deep_view() =~= Seq::<Name>::empty());
        assert(once.deep_view().to_set() =~= x.deep_view().to_set());
        assert(once.deep_view().take(0) =~= Seq::<Name>::empty());
        lemma_minimal_by_masks(rows.deep_view(), once.deep_view(), a@, *t);
    }
    !smaller_holds(rows, &once, a, t, 0, &chosen, false, Ghost(Seq::empty()))
}

/// The largest determinant that `discover` tries.
pub const DEFAULT_MAX_DETERMINANT: usize = 3;

/// Whether `a` is reported as a dependent of the determinant `x`: it lies
/// outside `x`, the rows support `x -> a` well enough, and no proper part
/// of `x` does.
pub open spec fn reportable(rows: Seq<Row>, x: Set<Name>, a: Name, t: Ratio) -> bool {
    !x.contains(a) && holds(rows, x, a, t) && minimal(rows, x, a, t)
}

/// The fields of `part`, in order, that are reported as dependents of `x`.
pub open spec fn dependents_in(rows: Seq<Row>, part: Seq<Name>, x: Set<Name>, t: Ratio) -> Seq<Name>
    decreases part.len(),
{
    if part.len() == 0 {
        Seq::empty()
    } else {
        let front = dependents_in(rows, part.drop_last(), x, t);
        if reportable(rows, x, part.last(), t) {
            front.push(part.last())
        } else {
            front
        }
    }
}

/// The smallest number of consistent rows among the rules `x -> d` for `d`
/// in `deps`; the number of rows with a determinant where `deps` is empty.
pub open spec fn weakest_support(rows: Seq<Row>, deps: Seq<Name>, x: Set<Name>) -> nat
    decreases deps.len(),
{
    if deps.len() == 0 {
        coverage(rows, rows.len() as int, x)
    } else {
        let front = weakest_support(rows, deps.drop_last(), x);
        let last = support(rows, rows.len() as int, x, deps.last());
        if last < front {
            last
        } else {
            front
        }
    }
}

/// The dependency mined for the determinant `x`: all its reportable
/// dependents in field order, with the confidence of the weakest of them.
pub open spec fn mined(rows: Seq<Row>, fields: Seq<Name>, x: Seq<Name>, t: Ratio) -> Dependency {
    let deps = dependents_in(rows, fields, x.to_set(), t);
    Dependency {
        determinant: x,
        dependent: deps,
        confidence: Ratio {
            num: weakest_support(rows, deps, x.to_set()) as u64,
            den: coverage(rows, rows.len() as int, x.to_set()) as u64,
        },
        discovered: true,
    }
}

/// Whether `idx` lists positions below `n` in strictly rising order.
pub open spec fn ascending(idx: Seq<usize>, n: nat) -> bool {
    &&& forall|k: int| 0 <= k < idx.len() ==> (#[trigger] idx[k]) < n
    &&& forall|k: int, m: int| 0 <= k < m < idx.len() ==> (#[trigger] idx[k]) < (#[trigger] idx[m])
}

/// The fields at the positions `idx`.
pub open spec fn named(fields: Seq<Name>, idx: Seq<usize>) -> Seq<Name> {
    Seq::new(idx.len(), |k: int| fields[idx[k] as int])
}

/// Whether `x` is a candidate determinant: at most `cap` of the fields, in
/// field order.
pub open spec fn is_candidate(fields: Seq<Name>, x: Seq<Name>, cap: nat) -> bool {
    exists|idx: Seq<usize>| ascending(idx, fields.len()) && idx.len() <= cap && #[trigger] named(fields, idx) == x
}

/// Whether the miner has anything to work on: at least two rows, at least
/// one field, no field named twice, and a threshold between zero and one.
pub open spec fn well_posed(rows: Seq<Row>, fields: Seq<Name>, t: Ratio) -> bool {
    rows.len() >= 2 && fields.len() > 0 && fields.no_duplicates() && t.well_formed()
}

/// The reported dependents are the reportable fields of `part`.
pub proof fn lemma_dependents_members(rows: Seq<Row>, part: Seq<Name>, x: Set<Name>, t: Ratio)
    ensures
        forall|n: Name| #[trigger]
            dependents_in(rows, part, x, t).contains(n) <==> part.contains(n) && reportable(rows, x, n, t),
    decreases part.len(),
{
    if part.len() > 0 {
        let front = part.drop_last();
        let fd = dependents_in(rows, front, x, t);
        let r = dependents_in(rows, part, x, t);
        lemma_dependents_members(rows, front, x, t);
        assert forall|n: Name| #[trigger]
            r.contains(n) <==> part.contains(n) && reportable(rows, x, n, t) by {
            if r.contains(n) {
                let i = choose|i: int| 0 <= i < r.len() && r[i] == n;
                if i < fd.len() {
                    assert(fd.contains(n));
                    let j = choose|j: int| 0 <= j < front.len() && front[j] == n;
                    assert(part[j] == n);
                } else {
                    assert(part[part.len() - 1] == n);
                }
            }
            if part.contains(n) && reportable(rows, x, n, t) {
                let j = choose|j: int| 0 <= j < part.len() && part[j] == n;
                if j < front.len() {
                    assert(front[j] == n);
                    assert(fd.contains(n));
                    let i = choose|i: int| 0 <= i < fd.len() && fd[i] == n;
                    assert(r[i] == n);
                } else {
                    assert(r[r.len() - 1] == n);
                }
            }
        }
    }
}

proof fn lemma_weakest_support(rows: Seq<Row>, deps: Seq<Name>, x: Set<Name>, t: Ratio)
    requires
        forall|k: int| 0 <= k < deps.len() ==> holds(rows, x, #[trigger] deps[k], t),
    ensures
        weakest_support(rows, deps, x) <= coverage(rows, rows.len() as int, x),
        deps.len() > 0 ==> weakest_support(rows, deps, x) * t.den >= t.num * coverage(
            rows,
            rows.len() as int,
            x,
        ),
        deps.len() > 0 ==> coverage(rows, rows.len() as int, x) > 0,
    decreases deps.len(),
{
    if deps.len() > 0 {
        let front = deps.drop_last();
        assert forall|k: int| 0 <= k < front.len() implies holds(rows, x, #[trigger] front[k], t) by {
            assert(front[k] == deps[k]);
        }
        lemma_weakest_support(rows, front, x, t);
        assert(holds(rows, x, deps[deps.len() - 1], t));
        lemma_support_bounds(rows, rows.len() as int, x, deps.last());
    }
}

/// Every mined dependency with a dependent reaches the threshold: its
/// confidence is a proper fraction and at least `t`.
pub proof fn lemma_mined_confidence(rows: Seq<Row>, fields: Seq<Name>, x: Seq<Name>, t: Ratio)
    requires
        rows.len() <= u64::MAX,
        mined(rows, fields, x, t).dependent.len() > 0,
    ensures
        mined(rows, fields, x, t).confidence.well_formed(),
        mined(rows, fields, x, t).confidence.at_least(t),
{
    let deps = dependents_in(rows, fields, x.to_set(), t);
    lemma_dependents_members(rows, fields, x.to_set(), t);
    assert forall|k: int| 0 <= k < deps.len() implies holds(rows, x.to_set(), #[trigger] deps[k], t) by {
        assert(deps.contains(deps[k]));
    }
    lemma_weakest_support(rows, deps, x.to_set(), t);
    lemma_support_bounds(rows, rows.len() as int, x.to_set(), deps[0]);
}

/// A dependency mined for a candidate determinant stays within the fields
/// and keeps its two sides apart; with a dependent and a determinant that
/// is not empty it is well formed.
pub proof fn lemma_mined_well_formed(rows: Seq<Row>, fields: Seq<Name>, x: Seq<Name>, t: Ratio, cap: nat)
    requires
        rows.len() <= u64::MAX,
        is_candidate(fields, x, cap),
    ensures
        mined(rows, fields, x, t).within(fields.to_set()),
        mined(rows, fields, x, t).lhs().disjoint(mined(rows, fields, x, t).rhs()),
        mined(rows, fields, x, t).dependent.len() > 0 && x.len() > 0 ==> mined(rows, fields, x, t).well_formed(),
{
    let fd = mined(rows, fields, x, t);
    lemma_dependents_members(rows, fields, x.to_set(), t);
    let idx = choose|idx: Seq<usize>| ascending(idx, fields.len()) && idx.len() <= cap && #[trigger] named(fields, idx) == x;
    assert forall|n: Name| fd.lhs().contains(n) implies fields.to_set().contains(n) by {
        let k = choose|k: int| 0 <= k < x.len() && x[k] == n;
        assert(fields[idx[k] as int] == n);
    }
    assert forall|n: Name| fd.rhs().contains(n) implies fields.to_set().contains(n) && !fd.lhs().contains(n) by {
        assert(fd.dependent.contains(n));
    }
    if fd.dependent.len() > 0 {
        lemma_mined_confidence(rows, fields, x, t);
    }
}

/// Minimality: a dependency mined for a determinant shares no dependent
/// with the one mined for a proper part of that determinant.
pub proof fn lemma_mined_minimal(rows: Seq<Row>, fields: Seq<Name>, x: Seq<Name>, part: Seq<Name>, t: Ratio)
    requires
        part.to_set().subset_of(x.to_set()),
        part.to_set() != x.to_set(),
    ensures
        mined(rows, fields, x, t).rhs().disjoint(mined(rows, fields, part, t).rhs()),
{
    lemma_dependents_members(rows, fields, x.to_set(), t);
    lemma_dependents_members(rows, fields, part.to_set(), t);
    assert forall|n: Name| mined(rows, fields, x, t).rhs().contains(n) implies !mined(
        rows,
        fields,
        part,
        t,
    ).rhs().contains(n) by {
        if mined(rows, fields, part, t).rhs().contains(n) {
            assert(dependents_in(rows, fields, x.to_set(), t).contains(n));
            assert(dependents_in(rows, fields, part.to_set(), t).contains(n));
            assert(holds(rows, part.to_set(), n, t));
            assert(minimal(rows, x.to_set(), n, t));
        }
    }
}

/// Distinct fields give different names to different picks.
pub proof fn lemma_named_injective(fields: Seq<Name>, a: Seq<usize>, b: Seq<usize>)
    requires
        fields.no_duplicates(),
        ascending(a, fields.len()),
        ascending(b, fields.len()),
        named(fields, a) == named(fields, b),
    ensures
        a == b,
{
    assert(a.len() == named(fields, a).len());
    assert(b.len() == named(fields, b).len());
    assert forall|k: int| 0 <= k < a.len() implies a[k] == b[k] by {
        assert(named(fields, a)[k] == fields[a[k] as int]);
        assert(named(fields, b)[k] == fields[b[k] as int]);
    }
    assert(a =~= b);
}

fn count_covered(rows: &Vec<QueryRow>, x: &Vec<String>) -> (r: usize)
    ensures
        r == coverage(rows.deep_view(), rows.len() as int, x.deep_view().to_set()),
{
    let ghost rs = rows.deep_view();
    let ghost xs = x.deep_view().to_set();
    let mut covered: usize = 0;
    let mut i: usize = 0;
    while i < rows.len()
        invariant
            i <= rows.len(),
            rs == rows.deep_view(),
            xs == x.deep_view().to_set(),
            covered == coverage(rs, i as int, xs),
            covered <= i,
        decreases rows.len() - i,
    {
        assert(rs[i as int] == rows[i as int]@);
        if row_defined(&rows[i], x) {
            covered += 1;
        }
        i += 1;
    }
    covered
}

/// Mines the dependency of one determinant; `None` where it has no
/// reportable dependent.
pub fn evaluate(rows: &Vec<QueryRow>, fields: &Vec<String>, x: &Vec<String>, t: &Ratio) -> (r: Option<
    FunctionalDependency,
>)
    ensures
        r is Some <==> mined(rows.deep_view(), fields.deep_view(), x.deep_view(), *t).dependent.len() > 0,
        r matches Some(fd) ==> fd@ == mined(rows.deep_view(), fields.deep_view(), x.deep_view(), *t),
{
    let ghost rs = rows.deep_view();
    let ghost fs = fields.deep_view();
    let ghost xs = x.deep_view().to_set();
    let covered = count_covered(rows, x);
    let mut deps: Vec<String> = Vec::new();
    let mut weakest: usize = covered;
    let mut i: usize = 0;
    assert(deps.deep_view() =~= Seq::<Name>::empty());
    assert(fs.take(0).len() == 0);
    while i < fields.len()
        invariant
            i <= fields.len(),
            rs == rows.deep_view(),
            fs == fields.deep_view(),
            xs == x.deep_view().to_set(),
            covered == coverage(rs, rs.len() as int, xs),
            deps.deep_view() == dependents_in(rs, fs.take(i as int), xs, *t),
            weakest == weakest_support(rs, deps.deep_view(), xs),
        decreases fields.len() - i,
    {
        let a = &fields[i];
        proof {
            assert(fs.take(i + 1).drop_last() =~= fs.take(i as int));
            assert(fs.take(i + 1).last() == a@);
        }
        if !contains_name(x, a) {
            let (consistent, over) = count_support(rows, x, a);
            if reaches(consistent, over, t) && check_minimal(rows, x, a, t) {
                let ghost before = deps;
                let name = a.clone();
                deps.push(name);
                proof {
                    lemma_push_view(before, deps, name);
                    assert(deps.deep_view().drop_last() =~= before.deep_view());
                }
                if consistent < weakest {
                    weakest = consistent;
                }
            }
        }
        i += 1;
    }
    assert(fs.take(i as int) =~= fs);
    if deps.len() == 0 {
        None
    } else {
        Some(
            FunctionalDependency {
                determinant: copy_names(x),
                dependent: deps,
                confidence: Ratio { num: weakest as u64, den: covered as u64 },
                discovered: true,
            },
        )
    }
}

/// Whether the pick `idx` continues the pick `cur`.
pub open spec fn extends(idx: Seq<usize>, cur: Seq<usize>) -> bool {
    cur.len() <= idx.len() && idx.take(cur.len() as int) == cur
}

/// Whether `idx` picks a candidate determinant with a reportable dependent.
pub open spec fn productive(rows: Seq<Row>, fields: Seq<Name>, idx: Seq<usize>, t: Ratio, cap: nat) -> bool {
    &&& ascending(idx, fields.len())
    &&& idx.len() <= cap
    &&& mined(rows, fields, named(fields, idx), t).dependent.len() > 0
}

/// Whether `found` is what mining yields: nothing where the input is not
/// well posed; otherwise exactly one dependency for each candidate
/// determinant that has a reportable dependent, and no other.
pub open spec fn is_mining_result(
    found: Seq<Dependency>,
    rows: Seq<Row>,
    fields: Seq<Name>,
    t: Ratio,
    cap: nat,
) -> bool {
    if !well_posed(rows, fields, t) {
        found.len() == 0
    } else {
        &&& forall|i: int|
            0 <= i < found.len() ==> {
                &&& is_candidate(fields, (#[trigger] found[i]).determinant, cap)
                &&& found[i] == mined(rows, fields, found[i].determinant, t)
                &&& found[i].dependent.len() > 0
            }
        &&& forall|x: Seq<Name>|
            is_candidate(fields, x, cap) && (#[trigger] mined(rows, fields, x, t)).dependent.len() > 0
                ==> found.contains(mined(rows, fields, x, t))
        &&& forall|i: int, j: int|
            0 <= i < j < found.len() ==> (#[trigger] found[i]).determinant != (#[trigger] found[j]).determinant
    }
}

/// Whether every dependency of `found` is a discovered one whose
/// confidence is a proper fraction and at least `t`.
pub open spec fn all_reach(found: Seq<Dependency>, t: Ratio) -> bool {
    forall|i: int|
        0 <= i < found.len() ==> {
            &&& (#[trigger] found[i]).confidence.at_least(t)
            &&& found[i].confidence.well_formed()
            &&& found[i].discovered
        }
}

/// Whether no dependency of `found` shares a dependent with another one
/// whose determinant is a proper part of its own.
pub open spec fn all_minimal(found: Seq<Dependency>) -> bool {
    forall|i: int, j: int|
        0 <= i < found.len() && 0 <= j < found.len() && (#[trigger] found[j]).lhs().subset_of(
            (#[trigger] found[i]).lhs(),
        ) && found[j].lhs() != found[i].lhs() ==> found[i].rhs().disjoint(found[j].rhs())
}

/// Whether every dependency of `found` stays within `fields`, keeps its
/// two sides apart and has a dependent, and is well formed unless it is
/// degenerate.
pub open spec fn all_sound(found: Seq<Dependency>, fields: Seq<Name>) -> bool {
    forall|i: int|
        0 <= i < found.len() ==> {
            &&& (#[trigger] found[i]).within(fields.to_set())
            &&& found[i].lhs().disjoint(found[i].rhs())
            &&& found[i].dependent.len() > 0
            &&& !found[i].is_degenerate() ==> found[i].well_formed()
        }
}

/// Every mining result reaches the threshold, keeps only minimal
/// determinants, and holds sound dependencies.
pub proof fn lemma_mining_result_laws(found: Seq<Dependency>, rows: Seq<Row>, fields: Seq<Name>, t: Ratio, cap: nat)
    requires
        is_mining_result(found, rows, fields, t, cap),
        rows.len() <= u64::MAX,
    ensures
        all_reach(found, t),
        all_minimal(found),
        all_sound(found, fields),
{
    if well_posed(rows, fields, t) {
        assert forall|i: int| 0 <= i < found.len() implies {
            &&& (#[trigger] found[i]).within(fields.to_set())
            &&& found[i].lhs().disjoint(found[i].rhs())
            &&& found[i].dependent.len() > 0
            &&& !found[i].is_degenerate() ==> found[i].well_formed()
        } by {
            lemma_mined_well_formed(rows, fields, found[i].determinant, t, cap);
        }
        assert forall|i: int| 0 <= i < found.len() implies {
            &&& (#[trigger] found[i]).confidence.at_least(t)
            &&& found[i].confidence.well_formed()
            &&& found[i].discovered
        } by {
            lemma_mined_confidence(rows, fields, found[i].determinant, t);
        }
        assert forall|i: int, j: int|
            0 <= i < found.len() && 0 <= j < found.len() && (#[trigger] found[j]).lhs().subset_of(
                (#[trigger] found[i]).lhs(),
            ) && found[j].lhs() != found[i].lhs() implies found[i].rhs().disjoint(found[j].rhs()) by {
            lemma_mined_minimal(rows, fields, found[i].determinant, found[j].determinant, t);
        }
    }
}

fn copy_indices(list: &Vec<usize>) -> (r: Vec<usize>)
    ensures
        r@ == list@,
{
    let mut r: Vec<usize> = Vec::new();
    let mut i: usize = 0;
    while i < list.len()
        invariant
            i <= list.len(),
            r@ == list@.take(i as int),
        decreases list.len() - i,
    {
        r.push(list[i]);
        assert(list@.take(i + 1) =~= list@.take(i as int).push(list@[i as int]));
        i += 1;
    }
    assert(list@.take(i as int) =~= list@);
    r
}

/// Mines every candidate that continues the pick `current`, whose fields
/// are `names`.
pub(crate) fn explore(
    rows: &Vec<QueryRow>,
    fields: &Vec<String>,
    t: &Ratio,
    cap: usize,
    current: &Vec<usize>,
    names: &Vec<String>,
) -> (r: (Vec<FunctionalDependency>, Ghost<Seq<Seq<usize>>>))
    requires
        fields.deep_view().no_duplicates(),
        ascending(current@, fields.len() as nat),
        current.len() <= cap,
        names.deep_view() == named(fields.deep_view(), current@),
    ensures
        r.0.len() == r.1@.len(),
        forall|i: int|
            0 <= i < r.0.len() ==> {
                &&& productive(rows.deep_view(), fields.deep_view(), #[trigger] r.1@[i], *t, cap as nat)
                &&& extends(r.1@[i], current@)
                &&& r.0.deep_view()[i] == mined(
                    rows.deep_view(),
                    fields.deep_view(),
                    named(fields.deep_view(), r.1@[i]),
                    *t,
                )
            },
        forall|i: int, j: int| 0 <= i < j < r.1@.len() ==> r.1@[i] != r.1@[j],
        forall|idx: Seq<usize>|
            #[trigger] productive(rows.deep_view(), fields.deep_view(), idx, *t, cap as nat) && extends(
                idx,
                current@,
            ) ==> r.1@.contains(idx),
    decreases cap - current.len(),
{
    let ghost rs = rows.deep_view();
    let ghost fs = fields.deep_view();
    let ghost cur = current@;
    let mut found: Vec<FunctionalDependency> = Vec::new();
    let ghost mut ids: Seq<Seq<usize>> = Seq::empty();
    proof {
        assert(cur.take(cur.len() as int) =~= cur);
    }
    match evaluate(rows, fields, names, t) {
        Some(fd) => {
            found.push(fd);
            proof {
                ids = ids.push(cur);
                assert(ids[0] == cur);
            }
        },
        None => {},
    }
    let start: usize = if current.len() == 0 {
        0
    } else {
        current[current.len() - 1] + 1
    };
    let mut j: usize = start;
    if current.len() < cap {
        while j < fields.len()
            invariant
                start <= j,
                rs == rows.deep_view(),
                fs == fields.deep_view(),
                cur == current@,
                fs.no_duplicates(),
                ascending(cur, fs.len()),
                current.len() < cap,
                names.deep_view() == named(fs, cur),
                cur.len() > 0 ==> start == cur[cur.len() - 1] + 1,
                found.len() == ids.len(),
                forall|i: int|
                    0 <= i < found.len() ==> {
                        &&& productive(rs, fs, #[trigger] ids[i], *t, cap as nat)
                        &&& extends(ids[i], cur)
                        &&& found.deep_view()[i] == mined(rs, fs, named(fs, ids[i]), *t)
                        &&& (ids[i].len() == cur.len() || (ids[i].len() > cur.len() && ids[i][cur.len() as int] < j))
                    },
                forall|p: int, q: int| 0 <= p < q < ids.len() ==> ids[p] != ids[q],
                productive(rs, fs, cur, *t, cap as nat) ==> ids.contains(cur),
                forall|idx: Seq<usize>|
                    #[trigger] productive(rs, fs, idx, *t, cap as nat) && extends(idx, cur) && idx.len()
                        > cur.len() && idx[cur.len() as int] < j ==> ids.contains(idx),
            decreases fields.len() - j,
        {
            let mut next = copy_indices(current);
            next.push(j);
            let mut next_names = copy_names(names);
            let ghost names_before = next_names;
            let name = fields[j].clone();
            next_names.push(name);
            proof {
                lemma_push_view(names_before, next_names, name);
                assert(next_names.deep_view() =~= named(fs, next@));
                assert(ascending(next@, fs.len())) by {
                    assert forall|k: int, m: int| 0 <= k < m < next@.len() implies (#[trigger] next@[k]) < (#[trigger] next@[m]) by {
                        if m == cur.len() && cur.len() > 0 {
                            if k < cur.len() - 1 {
                                assert(cur[k] < cur[cur.len() - 1]);
                            }
                        }
                    }
                }
            }
            let (mut sub, Ghost(sub_ids)) = explore(rows, fields, t, cap, &next, &next_names);
            let ghost old_found = found.deep_view();
            let ghost old_ids = ids;
            let ghost sub_found = sub.deep_view();
            found.append(&mut sub);
            proof {
                ids = ids + sub_ids;
                assert(found.deep_view() =~= old_found + sub_found);
                assert forall|i: int| 0 <= i < found.len() implies {
                    &&& productive(rs, fs, #[trigger] ids[i], *t, cap as nat)
                    &&& extends(ids[i], cur)
                    &&& found.deep_view()[i] == mined(rs, fs, named(fs, ids[i]), *t)
                    &&& (ids[i].len() == cur.len() || (ids[i].len() > cur.len() && ids[i][cur.len() as int] < j + 1))
                } by {
                    if i >= old_ids.len() {
                        let s = sub_ids[i - old_ids.len()];
                        assert(ids[i] == s);
                        assert(extends(s, next@));
                        assert(s.take(next@.len() as int)[cur.len() as int] == next@[cur.len() as int]);
                        assert(s.take(cur.len() as int) =~= s.take(next@.len() as int).take(cur.len() as int));
                        assert(next@.take(cur.len() as int) =~= cur);
                    } else {
                        assert(ids[i] == old_ids[i]);
                    }
                }
                assert forall|p: int, q: int| 0 <= p < q < ids.len() implies ids[p] != ids[q] by {
                    if q >= old_ids.len() {
                        let s = sub_ids[q - old_ids.len()];
                        assert(ids[q] == s);
                        assert(extends(s, next@));
                        assert(s.take(next@.len() as int)[cur.len() as int] == next@[cur.len() as int]);
                        if p >= old_ids.len() {
                            assert(ids[p] == sub_ids[p - old_ids.len()]);
                        } else {
                            assert(ids[p] == old_ids[p]);
                        }
                    } else {
                        assert(ids[p] == old_ids[p] && ids[q] == old_ids[q]);
                    }
                }
                assert forall|idx: Seq<usize>|
                    #[trigger] productive(rs, fs, idx, *t, cap as nat) && extends(idx, cur) && idx.len()
                        > cur.len() && idx[cur.len() as int] < j + 1 implies ids.contains(idx) by {
                    if idx[cur.len() as int] < j {
                        assert(old_ids.contains(idx));
                        let i = choose|i: int| 0 <= i < old_ids.len() && old_ids[i] == idx;
                        assert(ids[i] == idx);
                    } else {
                        assert(idx.take(next@.len() as int) =~= next@) by {
                            assert forall|k: int| 0 <= k < next@.len() implies idx.take(next@.len() as int)[k] == next@[k] by {
                                if k < cur.len() {
                                    assert(idx.take(cur.len() as int)[k] == cur[k]);
                                }
                            }
                        }
                        assert(extends(idx, next@));
                        assert(sub_ids.contains(idx));
                        let i = choose|i: int| 0 <= i < sub_ids.len() && sub_ids[i] == idx;
                        assert(ids[old_ids.len() + i] == idx);
                    }
                }
                if productive(rs, fs, cur, *t, cap as nat) {
                    let i = choose|i: int| 0 <= i < old_ids.len() && old_ids[i] == cur;
                    assert(ids[i] == cur);
                }
            }
            j += 1;
        }
    }
    proof {
        assert forall|idx: Seq<usize>|
            #[trigger] productive(rs, fs, idx, *t, cap as nat) && extends(idx, cur) implies ids.contains(idx) by {
            if idx.len() == cur.len() {
                assert(idx.take(cur.len() as int) =~= idx);
            } else {
                assert(current.len() < cap);
                let q = idx[cur.len() as int];
                assert(q < fs.len());
                if cur.len() > 0 {
                    assert(idx.take(cur.len() as int)[cur.len() - 1] == cur[cur.len() - 1]);
                    assert(idx[cur.len() - 1] < idx[cur.len() as int]);
                }
            }
        }
    }
    (found, Ghost(ids))
}

/// Mines the functional dependencies that `rows` support over `fields`
/// with confidence at least `threshold`, trying determinants of up to
/// `max_determinant` fields.
///
/// The result is empty where there are fewer than two rows, no field, a
/// field named twice, or a threshold that is no fraction between zero and
/// one. Otherwise it holds one dependency for each determinant — a choice
/// of at most `max_determinant` fields, in field order — that has a
/// reportable dependent: its dependents are all fields outside it that it
/// determines with confidence at least `threshold` and that no proper part
/// of it determines that well. A constant field is reported under the empty
/// determinant.
pub fn discover_bounded(
    rows: &Vec<QueryRow>,
    fields: &Vec<String>,
    threshold: &Ratio,
    max_determinant: usize,
) -> (r: Vec<FunctionalDependency>)
    ensures
        is_mining_result(
            r.deep_view(),
            rows.deep_view(),
            fields.deep_view(),
            *threshold,
            max_determinant as nat,
        ),
        all_reach(r.deep_view(), *threshold),
        all_minimal(r.deep_view()),
        all_sound(r.deep_view(), fields.deep_view()),
{
    let ghost rs = rows.deep_view();
    let ghost fs = fields.deep_view();
    let ghost cap = max_determinant as nat;
    if rows.len() < 2 || fields.len() == 0 || !is_distinct(fields) || !threshold.is_well_formed() {
        let r: Vec<FunctionalDependency> = Vec::new();
        assert(r.deep_view().len() == 0);
        return r;
    }
    let current: Vec<usize> = Vec::new();
    let names: Vec<String> = Vec::new();
    assert(names.deep_view() =~= named(fs, current@));
    let (found, Ghost(ids)) = explore(rows, fields, threshold, max_determinant, &current, &names);
    proof {
        let out = found.deep_view();
        assert forall|i: int| 0 <= i < out.len() implies {
            &&& is_candidate(fs, (#[trigger] out[i]).determinant, cap)
            &&& out[i] == mined(rs, fs, out[i].determinant, *threshold)
            &&& out[i].dependent.len() > 0
        } by {
            assert(productive(rs, fs, ids[i], *threshold, cap));
            assert(named(fs, ids[i]) == out[i].determinant);
        }
        assert forall|x: Seq<Name>|
            is_candidate(fs, x, cap) && (#[trigger] mined(rs, fs, x, *threshold)).dependent.len() > 0 implies out.contains(
            mined(rs, fs, x, *threshold),
        ) by {
            let idx = choose|idx: Seq<usize>| ascending(idx, fs.len()) && idx.len() <= cap && #[trigger] named(fs, idx) == x;
            assert(productive(rs, fs, idx, *threshold, cap));
            assert(idx.take(0) =~= current@);
            assert(extends(idx, current@));
            assert(ids.contains(idx));
            let i = choose|i: int| 0 <= i < ids.len() && ids[i] == idx;
            assert(out[i] == mined(rs, fs, x, *threshold));
        }
        assert forall|i: int, j: int| 0 <= i < j < out.len() implies (#[trigger] out[i]).determinant != (#[trigger] out[j]).determinant by {
            assert(productive(rs, fs, ids[i], *threshold, cap));
            assert(productive(rs, fs, ids[j], *threshold, cap));
            if out[i].determinant == out[j].determinant {
                lemma_named_injective(fs, ids[i], ids[j]);
            }
        }
        lemma_mining_result_laws(out, rs, fs, *threshold, cap);
    }
    found
}

/// Mines the functional dependencies that `rows` support over `fields`
/// with confidence at least `threshold`, with determinants of up to
/// `DEFAULT_MAX_DETERMINANT` fields.
pub fn discover(rows: &Vec<QueryRow>, fields: &Vec<String>, threshold: &Ratio) -> (r: Vec<FunctionalDependency>)
    ensures
        is_mining_result(
            r.deep_view(),
            rows.deep_view(),
            fields.deep_view(),
            *threshold,
            DEFAULT_MAX_DETERMINANT as nat,
        ),
        all_reach(r.deep_view(), *threshold),
        all_minimal(r.deep_view()),
        all_sound(r.deep_view(), fields.deep_view()),
{
    discover_bounded(rows, fields, threshold, DEFAULT_MAX_DETERMINANT)
}

} // verus!
