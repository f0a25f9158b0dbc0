//! The order in which violating dependencies are synthesized: most
//! confident first, ties broken by the determinant's field names.

use vstd::prelude::*;
use vstd::string::*;
use vstd::utf8::{encode_utf8, encode_utf8_decode_utf8};
use crate::dependency::{Dependency, FunctionalDependency};
use crate::names::Name;

verus! {

/// Strict lexicographic order on byte strings.
pub open spec fn bytes_before(a: Seq<u8>, b: Seq<u8>) -> bool
    decreases a.len(),
{
    if b.len() == 0 {
        false
    } else if a.len() == 0 {
        true
    } else if a[0] != b[0] {
        a[0] < b[0]
    } else {
        bytes_before(a.drop_first(), b.drop_first())
    }
}

/// Lexical order on names: the order of their UTF-8 encodings.
pub open spec fn name_before(a: Name, b: Name) -> bool {
    bytes_before(encode_utf8(a), encode_utf8(b))
}

/// Strict lexicographic order on lists of names.
pub open spec fn list_before(a: Seq<Name>, b: Seq<Name>) -> bool
    decreases a.len(),
{
    if b.len() == 0 {
        false
    } else if a.len() == 0 {
        true
    } else if a[0] != b[0] {
        name_before(a[0], b[0])
    } else {
        list_before(a.drop_first(), b.drop_first())
    }
}

/// Whether `a` is to be synthesized strictly before `b`: it is more
/// confident, or as confident with the lexically smaller determinant.
pub open spec fn comes_before(a: Dependency, b: Dependency) -> bool {
    let a_over_b = a.confidence.num * b.confidence.den;
    let b_over_a = b.confidence.num * a.confidence.den;
    a_over_b > b_over_a || (a_over_b == b_over_a && list_before(a.determinant, b.determinant))
}

/// `sorted` with `fd` placed behind every entry that it does not come before.
pub open spec fn inserted(sorted: Seq<Dependency>, fd: Dependency) -> Seq<Dependency>
    decreases sorted.len(),
{
    if sorted.len() == 0 {
        seq![fd]
    } else if comes_before(fd, sorted.last()) {
        inserted(sorted.drop_last(), fd).push(sorted.last())
    } else {
        sorted.push(fd)
    }
}

/// The dependencies in synthesis order: a stable insertion of each in turn.
pub open spec fn prioritized(fds: Seq<Dependency>) -> Seq<Dependency>
    decreases fds.len(),
{
    if fds.len() == 0 {
        Seq::empty()
    } else {
        inserted(prioritized(fds.drop_last()), fds.last())
    }
}

/// Inserting at the place that the scan from the back finds.
proof fn lemma_inserted_at(sorted: Seq<Dependency>, fd: Dependency, p: int)
    requires
        0 <= p <= sorted.len(),
        forall|j: int| p <= j < sorted.len() ==> comes_before(fd, #[trigger] sorted[j]),
        p > 0 ==> !comes_before(fd, sorted[p - 1]),
    ensures
        inserted(sorted, fd) == sorted.insert(p, fd),
    decreases sorted.len(),
{
    if sorted.len() == 0 {
        assert(sorted.insert(p, fd) =~= seq![fd]);
    } else if p == sorted.len() {
        assert(sorted.insert(p, fd) =~= sorted.push(fd));
    } else {
        assert(comes_before(fd, sorted[sorted.len() - 1]));
        let front = sorted.drop_last();
        assert forall|j: int| p <= j < front.len() implies comes_before(fd, #[trigger] front[j]) by {
            assert(front[j] == sorted[j]);
        }
        lemma_inserted_at(front, fd, p);
        assert(sorted.insert(p, fd) =~= front.insert(p, fd).push(sorted.last()));
    }
}

/// Insertion adds exactly the one entry.
pub proof fn lemma_inserted_members(sorted: Seq<Dependency>, fd: Dependency)
    ensures
        inserted(sorted, fd).len() == sorted.len() + 1,
        forall|d: Dependency| #[trigger] inserted(sorted, fd).contains(d) <==> (d == fd || sorted.contains(d)),
    decreases sorted.len(),
{
    let r = inserted(sorted, fd);
    if sorted.len() == 0 {
        assert(r[0] == fd);
    } else if comes_before(fd, sorted.last()) {
        let front = sorted.drop_last();
        let inner = inserted(front, fd);
        lemma_inserted_members(front, fd);
        assert forall|d: Dependency| #[trigger] r.contains(d) <==> (d == fd || sorted.contains(d)) by {
            if r.contains(d) {
                let i = choose|i: int| 0 <= i < r.len() && r[i] == d;
                if i < inner.len() {
                    assert(inner.contains(d));
                    if front.contains(d) {
                        let j = choose|j: int| 0 <= j < front.len() && front[j] == d;
                        assert(sorted[j] == d);
                    }
                } else {
                    assert(sorted[sorted.len() - 1] == d);
                }
            }
            if d == fd || sorted.contains(d) {
                if d == fd {
                    assert(inner.contains(d));
                    let i = choose|i: int| 0 <= i < inner.len() && inner[i] == d;
                    assert(r[i] == d);
                } else {
                    let j = choose|j: int| 0 <= j < sorted.len() && sorted[j] == d;
                    if j < front.len() {
                        assert(front[j] == d);
                        assert(inner.contains(d));
                        let i = choose|i: int| 0 <= i < inner.len() && inner[i] == d;
                        assert(r[i] == d);
                    } else {
                        assert(r[r.len() - 1] == d);
                    }
                }
            }
        }
    } else {
        assert forall|d: Dependency| #[trigger] r.contains(d) <==> (d == fd || sorted.contains(d)) by {
            if r.contains(d) {
                let i = choose|i: int| 0 <= i < r.len() && r[i] == d;
                if i < sorted.len() {
                    assert(sorted[i] == d);
                }
            }
            if sorted.contains(d) {
                let j = choose|j: int| 0 <= j < sorted.len() && sorted[j] == d;
                assert(r[j] == d);
            }
            if d == fd {
                assert(r[r.len() - 1] == d);
            }
        }
    }
}

/// The synthesis order rearranges the dependencies: none is lost, none added.
pub proof fn lemma_prioritized_members(fds: Seq<Dependency>)
    ensures
        prioritized(fds).len() == fds.len(),
        forall|d: Dependency| #[trigger] prioritized(fds).contains(d) <==> fds.contains(d),
    decreases fds.len(),
{
    if fds.len() > 0 {
        let front = fds.drop_last();
        lemma_prioritized_members(front);
        lemma_inserted_members(prioritized(front), fds.last());
        assert forall|d: Dependency| #[trigger] prioritized(fds).contains(d) <==> fds.contains(d) by {
            if fds.contains(d) {
                let j = choose|j: int| 0 <= j < fds.len() && fds[j] == d;
                if j < front.len() {
                    assert(front[j] == d);
                }
            }
            if front.contains(d) {
                let j = choose|j: int| 0 <= j < front.len() && front[j] == d;
                assert(fds[j] == d);
            }
            if d == fds.last() {
                assert(fds[fds.len() - 1] == d);
            }
        }
    }
}

/// Byte strings are strictly and totally ordered.
proof fn lemma_bytes_order(a: Seq<u8>, b: Seq<u8>)
    ensures
        !(bytes_before(a, b) && bytes_before(b, a)),
        a != b ==> bytes_before(a, b) || bytes_before(b, a),
    decreases a.len(),
{
    if a.len() > 0 && b.len() > 0 {
        if a[0] == b[0] {
            lemma_bytes_order(a.drop_first(), b.drop_first());
            if a.drop_first() == b.drop_first() {
                assert(a =~= seq![a[0]] + a.drop_first());
                assert(b =~= seq![b[0]] + b.drop_first());
            }
        }
    } else if a.len() == 0 && b.len() == 0 {
        assert(a =~= b);
    }
}

proof fn lemma_bytes_transitive(a: Seq<u8>, b: Seq<u8>, c: Seq<u8>)
    requires
        bytes_before(a, b),
        bytes_before(b, c),
    ensures
        bytes_before(a, c),
    decreases a.len(),
{
    if a.len() > 0 && a[0] == b[0] && b[0] == c[0] {
        lemma_bytes_transitive(a.drop_first(), b.drop_first(), c.drop_first());
    }
}

/// Names are strictly and totally ordered: of two different names exactly
/// one comes before the other.
pub proof fn lemma_name_order(a: Name, b: Name)
    ensures
        !(name_before(a, b) && name_before(b, a)),
        a != b ==> name_before(a, b) || name_before(b, a),
{
    lemma_bytes_order(encode_utf8(a), encode_utf8(b));
    encode_utf8_decode_utf8(a);
    encode_utf8_decode_utf8(b);
}

/// The order of names is transitive.
pub proof fn lemma_name_transitive(a: Name, b: Name, c: Name)
    requires
        name_before(a, b),
        name_before(b, c),
    ensures
        name_before(a, c),
{
    lemma_bytes_transitive(encode_utf8(a), encode_utf8(b), encode_utf8(c));
}

/// Lists of names are strictly and totally ordered.
pub proof fn lemma_list_order(a: Seq<Name>, b: Seq<Name>)
    ensures
        !(list_before(a, b) && list_before(b, a)),
        a != b ==> list_before(a, b) || list_before(b, a),
    decreases a.len(),
{
    if a.len() > 0 && b.len() > 0 {
        if a[0] == b[0] {
            lemma_list_order(a.drop_first(), b.drop_first());
            if a.drop_first() == b.drop_first() {
                assert(a =~= seq![a[0]] + a.drop_first());
                assert(b =~= seq![b[0]] + b.drop_first());
            }
        } else {
            lemma_name_order(a[0], b[0]);
        }
    } else if a.len() == 0 && b.len() == 0 {
        assert(a =~= b);
    }
}

/// The order of lists of names is transitive.
pub proof fn lemma_list_transitive(a: Seq<Name>, b: Seq<Name>, c: Seq<Name>)
    requires
        list_before(a, b),
        list_before(b, c),
    ensures
        list_before(a, c),
    decreases a.len(),
{
    if a.len() > 0 {
        if a[0] == b[0] && b[0] == c[0] {
            lemma_list_transitive(a.drop_first(), b.drop_first(), c.drop_first());
        } else if a[0] != b[0] && b[0] != c[0] {
            lemma_name_transitive(a[0], b[0], c[0]);
            lemma_name_order(a[0], b[0]);
        }
    }
}

/// Whether every dependency has a confidence with a denominator.
pub open spec fn all_weighted(fds: Seq<Dependency>) -> bool {
    forall|i: int| 0 <= i < fds.len() ==> (#[trigger] fds[i]).confidence.den > 0
}

/// Whether no dependency stands behind one that it comes before.
pub open spec fn in_priority_order(fds: Seq<Dependency>) -> bool {
    forall|i: int, j: int| 0 <= i < j < fds.len() ==> !comes_before(#[trigger] fds[j], #[trigger] fds[i])
}

/// Of two dependencies at most one comes before the other.
pub proof fn lemma_priority_asymmetric(a: Dependency, b: Dependency)
    ensures
        !(comes_before(a, b) && comes_before(b, a)),
{
    lemma_list_order(a.determinant, b.determinant);
}

/// Where `a` does not come before `b`, nor `b` before `c`, `a` does not
/// come before `c`.
pub proof fn lemma_priority_chains(a: Dependency, b: Dependency, c: Dependency)
    requires
        a.confidence.den > 0,
        b.confidence.den > 0,
        c.confidence.den > 0,
        !comes_before(a, b),
        !comes_before(b, c),
    ensures
        !comes_before(a, c),
{
    let an = a.confidence.num as int;
    let ad = a.confidence.den as int;
    let bn = b.confidence.num as int;
    let bd = b.confidence.den as int;
    let cn = c.confidence.num as int;
    let cd = c.confidence.den as int;
    assert(an * bd <= bn * ad);
    assert(bn * cd <= cn * bd);
    assert(an * cd <= cn * ad) by (nonlinear_arith)
        requires
            an * bd <= bn * ad,
            bn * cd <= cn * bd,
            ad > 0,
            bd > 0,
            cd > 0,
            an >= 0,
            bn >= 0,
            cn >= 0,
    ;
    if an * cd == cn * ad {
        assert(an * bd == bn * ad && bn * cd == cn * bd) by (nonlinear_arith)
            requires
                an * bd <= bn * ad,
                bn * cd <= cn * bd,
                an * cd == cn * ad,
                ad > 0,
                bd > 0,
                cd > 0,
                an >= 0,
                bn >= 0,
                cn >= 0,
        ;
        lemma_list_order(a.determinant, b.determinant);
        lemma_list_order(b.determinant, c.determinant);
        lemma_list_order(a.determinant, c.determinant);
        if a.determinant != b.determinant && b.determinant != c.determinant {
            lemma_list_transitive(c.determinant, b.determinant, a.determinant);
        }
    }
}

proof fn lemma_inserted_in_order(sorted: Seq<Dependency>, fd: Dependency)
    requires
        in_priority_order(sorted),
        all_weighted(sorted),
        fd.confidence.den > 0,
    ensures
        in_priority_order(inserted(sorted, fd)),
        all_weighted(inserted(sorted, fd)),
    decreases sorted.len(),
{
    let r = inserted(sorted, fd);
    lemma_inserted_members(sorted, fd);
    assert forall|i: int| 0 <= i < r.len() implies (#[trigger] r[i]).confidence.den > 0 by {
        assert(r.contains(r[i]));
        if sorted.contains(r[i]) {
            let k = choose|k: int| 0 <= k < sorted.len() && sorted[k] == r[i];
        }
    }
    if sorted.len() > 0 {
        let last = sorted.last();
        let front = sorted.drop_last();
        if comes_before(fd, last) {
            lemma_inserted_in_order(front, fd);
            lemma_inserted_members(front, fd);
            let inner = inserted(front, fd);
            assert forall|i: int, j: int| 0 <= i < j < r.len() implies !comes_before(#[trigger] r[j], #[trigger] r[i]) by {
                if j == r.len() - 1 {
                    assert(inner.contains(inner[i]));
                    if inner[i] == fd {
                        lemma_priority_asymmetric(fd, last);
                    } else {
                        let k = choose|k: int| 0 <= k < front.len() && front[k] == inner[i];
                        assert(sorted[k] == inner[i]);
                        assert(!comes_before(sorted[sorted.len() - 1], sorted[k]));
                    }
                } else {
                    assert(r[i] == inner[i] && r[j] == inner[j]);
                }
            }
        } else {
            assert forall|i: int, j: int| 0 <= i < j < r.len() implies !comes_before(#[trigger] r[j], #[trigger] r[i]) by {
                if j == r.len() - 1 {
                    if i < sorted.len() - 1 {
                        assert(!comes_before(sorted[sorted.len() - 1], sorted[i]));
                        lemma_priority_chains(fd, last, sorted[i]);
                    }
                } else {
                    assert(r[i] == sorted[i] && r[j] == sorted[j]);
                }
            }
        }
    }
}

/// The synthesis order is sorted: where every confidence has a
/// denominator, no dependency stands behind one that it comes before. More
/// confident dependencies stand first, and among equally confident ones
/// those with the lexically smaller determinant.
pub proof fn lemma_prioritized_in_order(fds: Seq<Dependency>)
    requires
        all_weighted(fds),
    ensures
        in_priority_order(prioritized(fds)),
        all_weighted(prioritized(fds)),
    decreases fds.len(),
{
    if fds.len() > 0 {
        let front = fds.drop_last();
        assert forall|i: int| 0 <= i < front.len() implies (#[trigger] front[i]).confidence.den > 0 by {
            assert(front[i] == fds[i]);
        }
        lemma_prioritized_in_order(front);
        assert(fds[fds.len() - 1].confidence.den > 0);
        lemma_inserted_in_order(prioritized(front), fds.last());
    }
}

/// Whether the bytes of `a` come strictly before those of `b`.
fn check_bytes_before(a: &[u8], b: &[u8]) -> (r: bool)
    ensures
        r == bytes_before(a@, b@),
{
    let mut i: usize = 0;
    assert(a@.skip(0) =~= a@);
    assert(b@.skip(0) =~= b@);
    while i < a.len() && i < b.len()
        invariant
            i <= a.len(),
            i <= b.len(),
            bytes_before(a@, b@) == bytes_before(a@.skip(i as int), b@.skip(i as int)),
        decreases a.len() - i,
    {
        proof {
            assert(a@.skip(i as int).drop_first() =~= a@.skip(i + 1));
            assert(b@.skip(i as int).drop_first() =~= b@.skip(i + 1));
        }
        if a[i] != b[i] {
            return a[i] < b[i];
        }
        i += 1;
    }
    i < b.len()
}

/// Whether the name `a` comes strictly before `b` in lexical order.
pub fn check_name_before(a: &String, b: &String) -> (r: bool)
    ensures
        r == name_before(a@, b@),
{
    check_bytes_before(a.as_str().as_bytes(), b.as_str().as_bytes())
}

/// Whether the list `a` comes strictly before `b` in lexical order.
pub fn check_list_before(a: &Vec<String>, b: &Vec<String>) -> (r: bool)
    ensures
        r == list_before(a.deep_view(), b.deep_view()),
{
    let mut i: usize = 0;
    assert(a.deep_view().skip(0) =~= a.deep_view());
    assert(b.deep_view().skip(0) =~= b.deep_view());
    while i < a.len() && i < b.len()
        invariant
            i <= a.len(),
            i <= b.len(),
            list_before(a.deep_view(), b.deep_view()) == list_before(
                a.deep_view().skip(i as int),
                b.deep_view().skip(i as int),
            ),
        decreases a.len() - i,
    {
        proof {
            assert(a.deep_view().skip(i as int).drop_first() =~= a.deep_view().skip(i + 1));
            assert(b.deep_view().skip(i as int).drop_first() =~= b.deep_view().skip(i + 1));
            assert(a.deep_view().skip(i as int)[0] == a[i as int]@);
            assert(b.deep_view().skip(i as int)[0] == b[i as int]@);
        }
        if a[i] != b[i] {
            return check_name_before(&a[i], &b[i]);
        }
        i += 1;
    }
    i < b.len()
}

/// Whether `a` is to be synthesized strictly before `b`.
pub fn check_comes_before(a: &FunctionalDependency, b: &FunctionalDependency) -> (r: bool)
    ensures
        r == comes_before(a@, b@),
{
    let a_num: u128 = a.confidence.num as u128;
    let a_den: u128 = a.confidence.den as u128;
    let b_num: u128 = b.confidence.num as u128;
    let b_den: u128 = b.confidence.den as u128;
    assert(a_num * b_den <= 0xFFFF_FFFF_FFFF_FFFF * 0xFFFF_FFFF_FFFF_FFFF) by (nonlinear_arith)
        requires
            a_num <= 0xFFFF_FFFF_FFFF_FFFF,
            b_den <= 0xFFFF_FFFF_FFFF_FFFF,
    ;
    assert(b_num * a_den <= 0xFFFF_FFFF_FFFF_FFFF * 0xFFFF_FFFF_FFFF_FFFF) by (nonlinear_arith)
        requires
            b_num <= 0xFFFF_FFFF_FFFF_FFFF,
            a_den <= 0xFFFF_FFFF_FFFF_FFFF,
    ;
    let a_over_b = a_num * b_den;
    let b_over_a = b_num * a_den;
    if a_over_b > b_over_a {
        true
    } else if a_over_b == b_over_a {
        check_list_before(&a.determinant, &b.determinant)
    } else {
        false
    }
}

/// Copies the dependencies into synthesis order.
pub fn prioritize(fds: &Vec<FunctionalDependency>) -> (r: Vec<FunctionalDependency>)
    ensures
        r.deep_view() == prioritized(fds.deep_view()),
{
    let ghost all = fds.deep_view();
    let mut r: Vec<FunctionalDependency> = Vec::new();
    let mut i: usize = 0;
    assert(r.deep_view() =~= Seq::<Dependency>::empty());
    assert(all.take(0).len() == 0);
    while i < fds.len()
        invariant
            i <= fds.len(),
            all == fds.deep_view(),
            r.deep_view() == prioritized(all.take(i as int)),
        decreases fds.len() - i,
    {
        proof {
            assert(all.take(i + 1).drop_last() =~= all.take(i as int));
            assert(all.take(i + 1).last() == fds[i as int]@);
        }
        let mut p: usize = r.len();
        while p > 0 && check_comes_before(&fds[i], &r[p - 1])
            invariant
                p <= r.len(),
                i < fds.len(),
                forall|j: int| p <= j < r.len() ==> comes_before(fds[i as int]@, #[trigger] r.deep_view()[j]),
            decreases p,
        {
            p -= 1;
        }
        let ghost before = r;
        let copy = fds[i].duplicate();
        r.insert(p, copy);
        proof {
            assert(r.deep_view() =~= before.deep_view().insert(p as int, copy@));
            lemma_inserted_at(before.deep_view(), copy@, p as int);
        }
        i += 1;
    }
    assert(all.take(i as int) =~= all);
    r
}

} // verus!
