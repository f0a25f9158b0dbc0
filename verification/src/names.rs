//! Lists of field names read as ordered sets.
//!
//! A field name is modelled by its characters, a list of names by the
//! sequence of those, and the set it stands for by `to_set()` of that
//! sequence.

use vstd::prelude::*;
use vstd::string::*;

verus! {

/// A field name as specifications see it.
pub type Name = Seq<char>;

/// `a` followed by the names of `b` that are not yet present, first occurrence first.
pub open spec fn merged(a: Seq<Name>, b: Seq<Name>) -> Seq<Name>
    decreases b.len(),
{
    if b.len() == 0 {
        a
    } else {
        let m = merged(a, b.drop_last());
        if m.contains(b.last()) {
            m
        } else {
            m.push(b.last())
        }
    }
}

/// The names of `a`, in order, whose membership in `s` equals `inside`.
pub open spec fn kept(a: Seq<Name>, s: Set<Name>, inside: bool) -> Seq<Name>
    decreases a.len(),
{
    if a.len() == 0 {
        Seq::empty()
    } else {
        let k = kept(a.drop_last(), s, inside);
        if s.contains(a.last()) == inside {
            k.push(a.last())
        } else {
            k
        }
    }
}

/// `merged` stands for the union, starts with `a`, and adds no duplicate.
pub proof fn lemma_merged(a: Seq<Name>, b: Seq<Name>)
    ensures
        merged(a, b).to_set() == a.to_set().union(b.to_set()),
        a.len() <= merged(a, b).len(),
        merged(a, b).take(a.len() as int) == a,
        a.no_duplicates() ==> merged(a, b).no_duplicates(),
    decreases b.len(),
{
    if b.len() == 0 {
        assert(a.to_set().union(b.to_set()) =~= a.to_set());
        assert(a.take(a.len() as int) =~= a);
    } else {
        let front = b.drop_last();
        let m = merged(a, front);
        lemma_merged(a, front);
        let r = merged(a, b);
        assert forall|n: Name| r.to_set().contains(n) <==> a.to_set().union(
            b.to_set(),
        ).contains(n) by {
            if r.contains(n) {
                let i = choose|i: int| 0 <= i < r.len() && r[i] == n;
                if i < m.len() {
                    assert(m.contains(n));
                    assert(m.to_set().contains(n));
                    if front.to_set().contains(n) {
                        let j = choose|j: int| 0 <= j < front.len() && front[j] == n;
                        assert(b[j] == n);
                    }
                } else {
                    assert(b[b.len() - 1] == n);
                }
            }
            if a.contains(n) {
                let i = choose|i: int| 0 <= i < a.len() && a[i] == n;
                assert(m.take(a.len() as int)[i] == n);
                assert(r[i] == n);
            }
            if b.contains(n) {
                let j = choose|j: int| 0 <= j < b.len() && b[j] == n;
                if j < front.len() {
                    assert(front[j] == n);
                    assert(front.to_set().contains(n));
                    assert(m.to_set().contains(n));
                    let i = choose|i: int| 0 <= i < m.len() && m[i] == n;
                    assert(r[i] == n);
                } else {
                    if m.contains(n) {
                        let i = choose|i: int| 0 <= i < m.len() && m[i] == n;
                        assert(r[i] == n);
                    } else {
                        assert(r[r.len() - 1] == n);
                    }
                }
            }
        }
        assert(r.to_set() =~= a.to_set().union(b.to_set()));
        assert(r.take(a.len() as int) =~= m.take(a.len() as int));
    }
}

/// `kept` stands for the intersection or the difference, and adds no duplicate.
pub proof fn lemma_kept(a: Seq<Name>, s: Set<Name>, inside: bool)
    ensures
        forall|n: Name| #[trigger]
            kept(a, s, inside).contains(n) <==> (a.contains(n) && s.contains(n) == inside),
        kept(a, s, inside).len() <= a.len(),
        a.no_duplicates() ==> kept(a, s, inside).no_duplicates(),
    decreases a.len(),
{
    if a.len() > 0 {
        let front = a.drop_last();
        let k = kept(front, s, inside);
        lemma_kept(front, s, inside);
        let r = kept(a, s, inside);
        assert forall|n: Name| #[trigger]
            r.contains(n) <==> (a.contains(n) && s.contains(n) == inside) by {
            if r.contains(n) {
                let i = choose|i: int| 0 <= i < r.len() && r[i] == n;
                if i < k.len() {
                    assert(k.contains(n));
                    let j = choose|j: int| 0 <= j < front.len() && front[j] == n;
                    assert(a[j] == n);
                } else {
                    assert(a[a.len() - 1] == n);
                }
            }
            if a.contains(n) && s.contains(n) == inside {
                let j = choose|j: int| 0 <= j < a.len() && a[j] == n;
                if j < front.len() {
                    assert(front[j] == n);
                    assert(k.contains(n));
                    let i = choose|i: int| 0 <= i < k.len() && k[i] == n;
                    assert(r[i] == n);
                } else {
                    assert(r[r.len() - 1] == n);
                }
            }
        }
        if a.no_duplicates() {
            assert(front.no_duplicates());
            if s.contains(a.last()) == inside {
                assert(!k.contains(a.last())) by {
                    if k.contains(a.last()) {
                        let j = choose|j: int| 0 <= j < front.len() && front[j] == a.last();
                        assert(a[j] == a[a.len() - 1]);
                    }
                }
            }
        }
    }
}

/// The set that `kept` stands for.
pub proof fn lemma_kept_set(a: Seq<Name>, s: Set<Name>, inside: bool)
    ensures
        inside ==> kept(a, s, inside).to_set() == a.to_set().intersect(s),
        !inside ==> kept(a, s, inside).to_set() == a.to_set().difference(s),
{
    lemma_kept(a, s, inside);
    if inside {
        assert(kept(a, s, inside).to_set() =~= a.to_set().intersect(s));
    } else {
        assert(kept(a, s, inside).to_set() =~= a.to_set().difference(s));
    }
}

/// The view of a list grown by one name.
pub proof fn lemma_push_view(before: Vec<String>, after: Vec<String>, name: String)
    requires
        after@ == before@.push(name),
    ensures
        after.deep_view() == before.deep_view().push(name@),
{
    assert(after.deep_view() =~= before.deep_view().push(name@));
}

/// Copies a list of names.
pub fn copy_names(list: &Vec<String>) -> (r: Vec<String>)
    ensures
        r.deep_view() == list.deep_view(),
{
    let mut r: Vec<String> = Vec::new();
    let mut i: usize = 0;
    while i < list.len()
        invariant
            i <= list.len(),
            r.len() == i,
            forall|j: int| 0 <= j < i ==> r[j]@ == list[j]@,
        decreases list.len() - i,
    {
        r.push(list[i].clone());
        i += 1;
    }
    assert(r.deep_view() =~= list.deep_view());
    r
}

/// Whether `name` is one of `list`.
pub fn contains_name(list: &Vec<String>, name: &String) -> (r: bool)
    ensures
        r == list.deep_view().contains(name@),
{
    let mut i: usize = 0;
    while i < list.len()
        invariant
            i <= list.len(),
            forall|j: int| 0 <= j < i ==> list[j]@ != name@,
        decreases list.len() - i,
    {
        if list[i] == *name {
            assert(list.deep_view()[i as int] == name@);
            return true;
        }
        i += 1;
    }
    assert(!list.deep_view().contains(name@)) by {
        if list.deep_view().contains(name@) {
            let j = choose|j: int| 0 <= j < list.deep_view().len() && list.deep_view()[j] == name@;
            assert(list[j]@ == name@);
        }
    }
    false
}

/// Whether every name of `a` is one of `b`.
pub fn is_subset(a: &Vec<String>, b: &Vec<String>) -> (r: bool)
    ensures
        r == a.deep_view().to_set().subset_of(b.deep_view().to_set()),
{
    let mut i: usize = 0;
    while i < a.len()
        invariant
            i <= a.len(),
            forall|j: int| 0 <= j < i ==> b.deep_view().contains(#[trigger] a.deep_view()[j]),
        decreases a.len() - i,
    {
        if !contains_name(b, &a[i]) {
            assert(a.deep_view().to_set().contains(a.deep_view()[i as int]));
            return false;
        }
        i += 1;
    }
    assert(a.deep_view().to_set().subset_of(b.deep_view().to_set())) by {
        assert forall|n: Name| a.deep_view().to_set().contains(n) implies b.deep_view().to_set().contains(
            n,
        ) by {
            let j = choose|j: int| 0 <= j < a.deep_view().len() && a.deep_view()[j] == n;
            assert(b.deep_view().contains(a.deep_view()[j]));
        }
    }
    true
}

/// Whether two lists stand for the same set of names.
pub fn same_set(a: &Vec<String>, b: &Vec<String>) -> (r: bool)
    ensures
        r == (a.deep_view().to_set() == b.deep_view().to_set()),
{
    let r = is_subset(a, b) && is_subset(b, a);
    proof {
        if r {
            assert(a.deep_view().to_set() =~= b.deep_view().to_set());
        }
    }
    r
}

/// Whether no name occurs twice in `list`.
pub fn is_distinct(list: &Vec<String>) -> (r: bool)
    ensures
        r == list.deep_view().no_duplicates(),
{
    let mut i: usize = 0;
    while i < list.len()
        invariant
            i <= list.len(),
            forall|p: int, q: int|
                0 <= p < q < i ==> #[trigger] list.deep_view()[p] != #[trigger] list.deep_view()[q],
        decreases list.len() - i,
    {
        let mut j: usize = 0;
        while j < i
            invariant
                j <= i < list.len(),
                forall|p: int| 0 <= p < j ==> #[trigger] list.deep_view()[p] != list.deep_view()[i as int],
            decreases i - j,
        {
            if list[j] == list[i] {
                assert(list.deep_view()[j as int] == list.deep_view()[i as int]);
                return false;
            }
            j += 1;
        }
        i += 1;
    }
    true
}

/// The names of `a`, then those of `b` that are new, each copied.
pub fn union_of(a: &Vec<String>, b: &Vec<String>) -> (r: Vec<String>)
    ensures
        r.deep_view() == merged(a.deep_view(), b.deep_view()),
{
    let mut r = copy_names(a);
    let mut i: usize = 0;
    assert(b.deep_view().take(0).len() == 0);
    while i < b.len()
        invariant
            i <= b.len(),
            r.deep_view() == merged(a.deep_view(), b.deep_view().take(i as int)),
        decreases b.len() - i,
    {
        proof {
            assert(b.deep_view().take(i + 1).drop_last() =~= b.deep_view().take(i as int));
            assert(b.deep_view().take(i + 1).last() == b[i as int]@);
        }
        if !contains_name(&r, &b[i]) {
            let ghost before = r;
            let name = b[i].clone();
            r.push(name);
            proof {
                lemma_push_view(before, r, name);
            }
        }
        i += 1;
    }
    assert(b.deep_view().take(i as int) =~= b.deep_view());
    r
}

/// The names of `a`, in order, whose membership in `b` equals `inside`.
fn select_by(a: &Vec<String>, b: &Vec<String>, inside: bool) -> (r: Vec<String>)
    ensures
        r.deep_view() == kept(a.deep_view(), b.deep_view().to_set(), inside),
{
    let mut r: Vec<String> = Vec::new();
    let mut i: usize = 0;
    assert(r.deep_view() =~= Seq::<Name>::empty());
    assert(a.deep_view().take(0).len() == 0);
    while i < a.len()
        invariant
            i <= a.len(),
            r.deep_view() == kept(a.deep_view().take(i as int), b.deep_view().to_set(), inside),
        decreases a.len() - i,
    {
        proof {
            assert(a.deep_view().take(i + 1).drop_last() =~= a.deep_view().take(i as int));
            assert(a.deep_view().take(i + 1).last() == a[i as int]@);
        }
        if contains_name(b, &a[i]) == inside {
            let ghost before = r;
            let name = a[i].clone();
            r.push(name);
            proof {
                lemma_push_view(before, r, name);
            }
        }
        i += 1;
    }
    assert(a.deep_view().take(i as int) =~= a.deep_view());
    r
}

/// The names of `a` that are not in `b`, in the order of `a`.
pub fn difference(a: &Vec<String>, b: &Vec<String>) -> (r: Vec<String>)
    ensures
        r.deep_view() == kept(a.deep_view(), b.deep_view().to_set(), false),
{
    select_by(a, b, false)
}

/// The names of `a` that are also in `b`, in the order of `a`.
pub fn intersection(a: &Vec<String>, b: &Vec<String>) -> (r: Vec<String>)
    ensures
        r.deep_view() == kept(a.deep_view(), b.deep_view().to_set(), true),
{
    select_by(a, b, true)
}

} // verus!

verus! {

/// Whether no name of `a` is one of `b`.
pub fn is_disjoint(a: &Vec<String>, b: &Vec<String>) -> (r: bool)
    ensures
        r == a.deep_view().to_set().disjoint(b.deep_view().to_set()),
{
    let mut i: usize = 0;
    while i < a.len()
        invariant
            i <= a.len(),
            forall|j: int| 0 <= j < i ==> !b.deep_view().contains(#[trigger] a.deep_view()[j]),
        decreases a.len() - i,
    {
        if contains_name(b, &a[i]) {
            assert(a.deep_view().to_set().contains(a.deep_view()[i as int]));
            assert(b.deep_view().to_set().contains(a.deep_view()[i as int]));
            return false;
        }
        i += 1;
    }
    assert(a.deep_view().to_set().disjoint(b.deep_view().to_set())) by {
        assert forall|n: Name| a.deep_view().to_set().contains(n) implies !b.deep_view().to_set().contains(
            n,
        ) by {
            let j = choose|j: int| 0 <= j < a.deep_view().len() && a.deep_view()[j] == n;
            assert(!b.deep_view().contains(a.deep_view()[j]));
        }
    }
    true
}

} // verus!
