//! Mining in steps, so that a caller can stop between two of them.
//!
//! The candidate determinants fall into branches: the empty determinant is
//! branch 0, and the determinants that start with the field at position
//! `j` are branch `j + 1`. A scan mines one branch per step.

use vstd::prelude::*;
use vstd::string::*;
use crate::dependency::{Dependency, FunctionalDependency, Ratio};
use crate::miner::{
    all_minimal,
    all_reach,
    all_sound,
    ascending,
    evaluate,
    explore,
    extends,
    is_candidate,
    is_mining_result,
    lemma_mined_confidence,
    lemma_mined_minimal,
    lemma_mined_well_formed,
    lemma_named_injective,
    mined,
    named,
    productive,
    well_posed,
};
use crate::names::{is_distinct, Name};
use crate::query::{QueryRow, Row};

verus! {

/// The branch of the pick `idx`.
pub open spec fn branch_of(idx: Seq<usize>) -> nat {
    if idx.len() == 0 {
        0
    } else {
        (idx[0] + 1) as nat
    }
}

/// Whether `fd` is the dependency mined for the productive pick `idx`.
pub open spec fn covers(
    fd: Dependency,
    rows: Seq<Row>,
    fields: Seq<Name>,
    idx: Seq<usize>,
    t: Ratio,
    cap: nat,
) -> bool {
    productive(rows, fields, idx, t, cap) && fd == mined(rows, fields, named(fields, idx), t)
}

/// Whether `fd` is the dependency mined for some productive pick of the
/// branches below `branches`.
pub open spec fn mined_below(
    fd: Dependency,
    rows: Seq<Row>,
    fields: Seq<Name>,
    t: Ratio,
    cap: nat,
    branches: nat,
) -> bool {
    exists|idx: Seq<usize>| #[trigger] covers(fd, rows, fields, idx, t, cap) && branch_of(idx) < branches
}

/// Whether `found` is what mining the branches below `branches` yields:
/// exactly one dependency for each candidate determinant of those branches
/// that has a reportable dependent.
pub open spec fn is_partial_result(
    found: Seq<Dependency>,
    rows: Seq<Row>,
    fields: Seq<Name>,
    t: Ratio,
    cap: nat,
    branches: nat,
) -> bool {
    &&& forall|i: int| 0 <= i < found.len() ==> mined_below(#[trigger] found[i], rows, fields, t, cap, branches)
    &&& forall|idx: Seq<usize>|
        #[trigger] productive(rows, fields, idx, t, cap) && branch_of(idx) < branches ==> found.contains(
            mined(rows, fields, named(fields, idx), t),
        )
    &&& forall|i: int, j: int|
        0 <= i < j < found.len() ==> (#[trigger] found[i]).determinant != (#[trigger] found[j]).determinant
}

/// Once every branch is mined the partial result is the mining result.
pub proof fn lemma_all_branches(found: Seq<Dependency>, rows: Seq<Row>, fields: Seq<Name>, t: Ratio, cap: nat)
    requires
        well_posed(rows, fields, t),
        is_partial_result(found, rows, fields, t, cap, fields.len() + 1),
    ensures
        is_mining_result(found, rows, fields, t, cap),
{
    assert forall|i: int| 0 <= i < found.len() implies {
        &&& is_candidate(fields, (#[trigger] found[i]).determinant, cap)
        &&& found[i] == mined(rows, fields, found[i].determinant, t)
        &&& found[i].dependent.len() > 0
    } by {
        let idx = choose|idx: Seq<usize>|
            #[trigger] covers(found[i], rows, fields, idx, t, cap) && branch_of(idx) < fields.len() + 1;
        assert(named(fields, idx) == found[i].determinant);
    }
    assert forall|x: Seq<Name>|
        is_candidate(fields, x, cap) && (#[trigger] mined(rows, fields, x, t)).dependent.len()
            > 0 implies found.contains(mined(rows, fields, x, t)) by {
        let idx = choose|idx: Seq<usize>|
            ascending(idx, fields.len()) && idx.len() <= cap && #[trigger] named(fields, idx) == x;
        assert(productive(rows, fields, idx, t, cap));
        if idx.len() > 0 {
            assert(idx[0] < fields.len());
        }
    }
}

/// What holds of every mining result holds of every partial one: each
/// dependency reaches the threshold, and none shares a dependent with one
/// whose determinant is a proper part of its own.
pub proof fn lemma_partial_result_laws(
    found: Seq<Dependency>,
    rows: Seq<Row>,
    fields: Seq<Name>,
    t: Ratio,
    cap: nat,
    branches: nat,
)
    requires
        is_partial_result(found, rows, fields, t, cap, branches),
        rows.len() <= u64::MAX,
    ensures
        all_reach(found, t),
        all_minimal(found),
        all_sound(found, fields),
{
    assert forall|i: int| 0 <= i < found.len() implies found[i] == mined(rows, fields, (#[trigger] found[i]).determinant, t)
        && found[i].dependent.len() > 0 && is_candidate(fields, found[i].determinant, cap) by {
        assert(mined_below(found[i], rows, fields, t, cap, branches));
        let idx = choose|idx: Seq<usize>|
            #[trigger] covers(found[i], rows, fields, idx, t, cap) && branch_of(idx) < branches;
        assert(named(fields, idx) == found[i].determinant);
    }
    assert forall|i: int| 0 <= i < found.len() implies {
        &&& (#[trigger] found[i]).within(fields.to_set())
        &&& found[i].lhs().disjoint(found[i].rhs())
        &&& found[i].dependent.len() > 0
        &&& !found[i].is_degenerate() ==> found[i].well_formed()
    } by {
        lemma_mined_well_formed(rows, fields, found[i].determinant, t, cap);
    }
    assert forall|i: int| 0 <= i < found.len() implies {
        &&& (#[trigger] found[i]).confidence.at_least(t)
        &&& found[i].confidence.well_formed()
        &&& found[i].discovered
    } by {
        lemma_mined_confidence(rows, fields, found[i].determinant, t);
    }
    assert forall|i: int, j: int|
        0 <= i < found.len() && 0 <= j < found.len() && (#[trigger] found[j]).lhs().subset_of(
            (#[trigger] found[i]).lhs(),
        ) && found[j].lhs() != found[i].lhs() implies found[i].rhs().disjoint(found[j].rhs()) by {
        lemma_mined_minimal(rows, fields, found[i].determinant, found[j].determinant, t);
    }
}

/// A mining run under way.
pub struct Scan {
    rows: Vec<QueryRow>,
    fields: Vec<String>,
    threshold: Ratio,
    cap: usize,
    fds: Vec<FunctionalDependency>,
    next_branch: usize,
    done: bool,
}

/// A mining run as specifications see it: its input, what it has found,
/// and how many branches it has mined.
pub struct ScanView {
    pub rows: Seq<Row>,
    pub fields: Seq<Name>,
    pub threshold: Ratio,
    pub cap: nat,
    pub found: Seq<Dependency>,
    pub mined_branches: nat,
    pub complete: bool,
}

impl View for Scan {
    type V = ScanView;

    closed spec fn view(&self) -> ScanView {
        ScanView {
            rows: self.rows.deep_view(),
            fields: self.fields.deep_view(),
            threshold: self.threshold,
            cap: self.cap as nat,
            found: self.fds.deep_view(),
            mined_branches: if self.done {
                (self.fields.len() + 1) as nat
            } else {
                self.next_branch as nat
            },
            complete: self.done,
        }
    }
}

impl Scan {
    #[verifier::type_invariant]
    spec fn inv(self) -> bool {
        &&& self.next_branch <= self.fields.len()
        &&& if well_posed(self.rows.deep_view(), self.fields.deep_view(), self.threshold) {
            is_partial_result(
                self.fds.deep_view(),
                self.rows.deep_view(),
                self.fields.deep_view(),
                self.threshold,
                self.cap as nat,
                self@.mined_branches,
            )
        } else {
            self.done && self.fds.len() == 0
        }
    }

    /// Begins a run over `rows` and `fields`. Input that is not well posed
    /// leaves nothing to mine: the run is complete at once.
    pub fn begin(rows: Vec<QueryRow>, fields: Vec<String>, threshold: Ratio, max_determinant: usize) -> (scan:
        Scan)
        ensures
            scan@.rows == rows.deep_view(),
            scan@.fields == fields.deep_view(),
            scan@.threshold == threshold,
            scan@.cap == max_determinant,
            scan@.found.len() == 0,
            scan@.complete == !well_posed(rows.deep_view(), fields.deep_view(), threshold),
            !scan@.complete ==> scan@.mined_branches == 0,
    {
        let posed = rows.len() >= 2 && fields.len() > 0 && is_distinct(&fields) && threshold.is_well_formed();
        let fds: Vec<FunctionalDependency> = Vec::new();
        assert(fds.deep_view().len() == 0);
        Scan { rows, fields, threshold, cap: max_determinant, fds, next_branch: 0, done: !posed }
    }

    /// The fields that the run mines over.
    pub fn fields(&self) -> (r: &Vec<String>)
        ensures
            r.deep_view() == self@.fields,
    {
        &self.fields
    }

    /// Whether every branch has been mined.
    pub fn is_done(&self) -> (r: bool)
        ensures
            r == self@.complete,
    {
        self.done
    }

    /// The number of branches mined so far.
    pub fn branches_mined(&self) -> (r: usize)
        ensures
            !self@.complete ==> r == self@.mined_branches,
            self@.complete ==> r == self@.fields.len(),
    {
        proof {
            use_type_invariant(self);
        }
        if self.done {
            self.fields.len()
        } else {
            self.next_branch
        }
    }

    /// What the run has found so far, and what that is: the result of the
    /// branches mined, and the full mining result once the run is complete.
    pub fn into_found(self) -> (r: Vec<FunctionalDependency>)
        ensures
            r.deep_view() == self@.found,
            well_posed(self@.rows, self@.fields, self@.threshold) ==> is_partial_result(
                r.deep_view(),
                self@.rows,
                self@.fields,
                self@.threshold,
                self@.cap,
                self@.mined_branches,
            ),
            self@.complete ==> is_mining_result(
                r.deep_view(),
                self@.rows,
                self@.fields,
                self@.threshold,
                self@.cap,
            ),
            all_reach(r.deep_view(), self@.threshold),
            all_minimal(r.deep_view()),
            all_sound(r.deep_view(), self@.fields),
    {
        proof {
            use_type_invariant(&self);
            if well_posed(self@.rows, self@.fields, self@.threshold) {
                assert(self@.rows.len() == self.rows.len());
                lemma_partial_result_laws(
                    self@.found,
                    self@.rows,
                    self@.fields,
                    self@.threshold,
                    self@.cap,
                    self@.mined_branches,
                );
                if self.done {
                    lemma_all_branches(self@.found, self@.rows, self@.fields, self@.threshold, self@.cap);
                }
            }
        }
        self.fds
    }

    /// Mines up to `steps` further branches, fewer where the run completes
    /// before.
    pub fn advance(self, steps: usize) -> (next: Scan)
        ensures
            next@.rows == self@.rows,
            next@.fields == self@.fields,
            next@.threshold == self@.threshold,
            next@.cap == self@.cap,
            self@.complete ==> next@ == self@,
            !self@.complete ==> {
                &&& self@.mined_branches + steps <= self@.fields.len() + 1 ==> next@.mined_branches
                    == self@.mined_branches + steps
                &&& self@.mined_branches + steps > self@.fields.len() + 1 ==> next@.mined_branches
                    == self@.fields.len() + 1
                &&& next@.complete == (next@.mined_branches == self@.fields.len() + 1)
                &&& self@.found.len() <= next@.found.len()
                &&& next@.found.take(self@.found.len() as int) == self@.found
            },
    {
        proof {
            use_type_invariant(&self);
        }
        let ghost start = self@;
        let mut scan = self;
        let mut taken: usize = 0;
        assert(start.found.take(start.found.len() as int) =~= start.found);
        while taken < steps && !scan.is_done()
            invariant
                taken <= steps,
                scan@.rows == start.rows,
                scan@.fields == start.fields,
                scan@.threshold == start.threshold,
                scan@.cap == start.cap,
                start.complete ==> scan@ == start,
                !start.complete ==> {
                    &&& scan@.mined_branches == start.mined_branches + taken
                    &&& scan@.mined_branches <= start.fields.len() + 1
                    &&& scan@.complete == (scan@.mined_branches == start.fields.len() + 1)
                    &&& start.found.len() <= scan@.found.len()
                    &&& scan@.found.take(start.found.len() as int) == start.found
                },
            decreases steps - taken,
        {
            let ghost before = scan@;
            scan = scan.step();
            proof {
                assert(scan@.found.take(start.found.len() as int) =~= scan@.found.take(
                    before.found.len() as int,
                ).take(start.found.len() as int));
                use_type_invariant(&scan);
            }
            taken += 1;
        }
        scan
    }

    /// Mines every remaining branch.
    pub fn finish(self) -> (next: Scan)
        ensures
            next@.rows == self@.rows,
            next@.fields == self@.fields,
            next@.threshold == self@.threshold,
            next@.cap == self@.cap,
            next@.complete,
            self@.found.len() <= next@.found.len(),
            next@.found.take(self@.found.len() as int) == self@.found,
    {
        proof {
            use_type_invariant(&self);
        }
        let ghost start = self@;
        let mut scan = self;
        assert(start.found.take(start.found.len() as int) =~= start.found);
        while !scan.is_done()
            invariant
                scan@.rows == start.rows,
                scan@.fields == start.fields,
                scan@.threshold == start.threshold,
                scan@.cap == start.cap,
                !scan@.complete ==> scan@.mined_branches <= start.fields.len(),
                start.found.len() <= scan@.found.len(),
                scan@.found.take(start.found.len() as int) == start.found,
            decreases start.fields.len() + 1 - scan@.mined_branches,
        {
            let ghost before = scan@;
            scan = scan.step();
            proof {
                assert(scan@.found.take(start.found.len() as int) =~= scan@.found.take(
                    before.found.len() as int,
                ).take(start.found.len() as int));
                use_type_invariant(&scan);
            }
        }
        scan
    }

    /// Mines the next branch. A complete run is returned as it is.
    pub fn step(self) -> (next: Scan)
        ensures
            next@.rows == self@.rows,
            next@.fields == self@.fields,
            next@.threshold == self@.threshold,
            next@.cap == self@.cap,
            self@.complete ==> next@ == self@,
            !self@.complete ==> {
                &&& next@.mined_branches == self@.mined_branches + 1
                &&& next@.complete == (next@.mined_branches == self@.fields.len() + 1)
                &&& self@.found.len() <= next@.found.len()
                &&& next@.found.take(self@.found.len() as int) == self@.found
            },
    {
        proof {
            use_type_invariant(&self);
        }
        if self.done {
            return self;
        }
        let ghost before = self@;
        let Scan { rows, fields, threshold, cap, mut fds, next_branch, done } = self;
        let ghost rs = rows.deep_view();
        let ghost fs = fields.deep_view();
        let ghost c = cap as nat;
        let ghost old_found = fds.deep_view();
        let ghost b = next_branch as nat;
        let ghost mut ids: Seq<Seq<usize>> = Seq::empty();
        if next_branch == 0 {
            let none: Vec<String> = Vec::new();
            let ghost empty: Seq<usize> = Seq::empty();
            assert(none.deep_view() =~= named(fs, empty));
            match evaluate(&rows, &fields, &none, &threshold) {
                Some(fd) => {
                    fds.push(fd);
                    proof {
                        ids = ids.push(empty);
                        assert(fds.deep_view() =~= old_found.push(fd@));
                    }
                },
                None => {},
            }
            proof {
                assert(old_found.len() == 0) by {
                    if old_found.len() > 0 {
                        let idx = choose|idx: Seq<usize>|
                            #[trigger] covers(old_found[0], rs, fs, idx, threshold, c) && branch_of(idx) < 0;
                    }
                }
                assert forall|idx: Seq<usize>|
                    #[trigger] productive(rs, fs, idx, threshold, c) && branch_of(idx) < 1 implies fds.deep_view().contains(
                    mined(rs, fs, named(fs, idx), threshold),
                ) by {
                    assert(idx =~= empty);
                    assert(fds.deep_view()[0] == mined(rs, fs, named(fs, idx), threshold));
                }
                assert forall|i: int| 0 <= i < fds.len() implies mined_below(
                    #[trigger] fds.deep_view()[i],
                    rs,
                    fs,
                    threshold,
                    c,
                    1,
                ) by {
                    assert(covers(fds.deep_view()[i], rs, fs, empty, threshold, c));
                }
            }
        } else if cap >= 1 {
            let j: usize = next_branch - 1;
            let mut current: Vec<usize> = Vec::new();
            current.push(j);
            let mut names: Vec<String> = Vec::new();
            names.push(fields[j].clone());
            assert(names.deep_view() =~= named(fs, current@));
            let (mut sub, Ghost(sub_ids)) = explore(&rows, &fields, &threshold, cap, &current, &names);
            let ghost sub_found = sub.deep_view();
            fds.append(&mut sub);
            proof {
                ids = sub_ids;
                assert(fds.deep_view() =~= old_found + sub_found);
                assert forall|k: int| 0 <= k < sub_ids.len() implies branch_of(#[trigger] sub_ids[k]) == b by {
                    assert(extends(sub_ids[k], current@));
                    assert(sub_ids[k].take(1)[0] == current@[0]);
                }
                assert forall|i: int| 0 <= i < fds.len() implies mined_below(
                    #[trigger] fds.deep_view()[i],
                    rs,
                    fs,
                    threshold,
                    c,
                    b + 1,
                ) by {
                    if i < old_found.len() {
                        let idx = choose|idx: Seq<usize>|
                            #[trigger] covers(old_found[i], rs, fs, idx, threshold, c) && branch_of(idx) < b;
                        assert(covers(fds.deep_view()[i], rs, fs, idx, threshold, c));
                    } else {
                        let k = i - old_found.len();
                        assert(productive(rs, fs, sub_ids[k], threshold, c));
                        assert(covers(fds.deep_view()[i], rs, fs, sub_ids[k], threshold, c));
                    }
                }
                assert forall|idx: Seq<usize>|
                    #[trigger] productive(rs, fs, idx, threshold, c) && branch_of(idx) < b + 1 implies fds.deep_view().contains(
                    mined(rs, fs, named(fs, idx), threshold),
                ) by {
                    let wanted = mined(rs, fs, named(fs, idx), threshold);
                    if branch_of(idx) < b {
                        assert(old_found.contains(wanted));
                        let i = choose|i: int| 0 <= i < old_found.len() && old_found[i] == wanted;
                        assert(fds.deep_view()[i] == wanted);
                    } else {
                        assert(idx.take(1) =~= current@);
                        assert(extends(idx, current@));
                        assert(sub_ids.contains(idx));
                        let k = choose|k: int| 0 <= k < sub_ids.len() && sub_ids[k] == idx;
                        assert(fds.deep_view()[old_found.len() + k] == wanted);
                    }
                }
                assert forall|p: int, q: int| 0 <= p < q < fds.len() implies (#[trigger] fds.deep_view()[p]).determinant
                    != (#[trigger] fds.deep_view()[q]).determinant by {
                    if q >= old_found.len() {
                        let kq = q - old_found.len();
                        assert(productive(rs, fs, sub_ids[kq], threshold, c));
                        if p >= old_found.len() {
                            let kp = p - old_found.len();
                            assert(productive(rs, fs, sub_ids[kp], threshold, c));
                            if fds.deep_view()[p].determinant == fds.deep_view()[q].determinant {
                                lemma_named_injective(fs, sub_ids[kp], sub_ids[kq]);
                            }
                        } else {
                            let idx = choose|idx: Seq<usize>|
                                #[trigger] covers(old_found[p], rs, fs, idx, threshold, c) && branch_of(idx) < b;
                            if fds.deep_view()[p].determinant == fds.deep_view()[q].determinant {
                                lemma_named_injective(fs, idx, sub_ids[kq]);
                            }
                        }
                    } else {
                        assert(fds.deep_view()[p] == old_found[p] && fds.deep_view()[q] == old_found[q]);
                    }
                }
            }
        } else {
            proof {
                assert forall|i: int| 0 <= i < fds.len() implies mined_below(
                    #[trigger] fds.deep_view()[i],
                    rs,
                    fs,
                    threshold,
                    c,
                    b + 1,
                ) by {
                    let idx = choose|idx: Seq<usize>|
                        #[trigger] covers(old_found[i], rs, fs, idx, threshold, c) && branch_of(idx) < b;
                    assert(covers(fds.deep_view()[i], rs, fs, idx, threshold, c));
                }
            }
        }
        assert(fds.deep_view().take(old_found.len() as int) =~= old_found);
        if next_branch == fields.len() {
            Scan { rows, fields, threshold, cap, fds, next_branch, done: true }
        } else {
            Scan { rows, fields, threshold, cap, fds, next_branch: next_branch + 1, done: false }
        }
    }
}

} // verus!
