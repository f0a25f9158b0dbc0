//! The normal-form ladder.

use vstd::prelude::*;
use vstd::string::*;
use crate::text::same_text;

verus! {

/// A tier of schema design quality, weakest first.
#[derive(Debug, Clone, Copy, PartialEq, Eq, Structural, Hash)]
pub enum NormalForm {
    First,
    Second,
    Third,
    BCNF,
    Fourth,
    Fifth,
}

impl NormalForm {
    /// The position on the ladder, from 1 for `First` to 6 for `Fifth`.
    pub open spec fn rank(self) -> int {
        match self {
            NormalForm::First => 1,
            NormalForm::Second => 2,
            NormalForm::Third => 3,
            NormalForm::BCNF => 4,
            NormalForm::Fourth => 5,
            NormalForm::Fifth => 6,
        }
    }

    /// The conventional short name.
    pub open spec fn label_text(self) -> Seq<char> {
        match self {
            NormalForm::First => "1NF"@,
            NormalForm::Second => "2NF"@,
            NormalForm::Third => "3NF"@,
            NormalForm::BCNF => "BCNF"@,
            NormalForm::Fourth => "4NF"@,
            NormalForm::Fifth => "5NF"@,
        }
    }

    /// The position on the ladder.
    pub fn level(&self) -> (r: u8)
        ensures
            r == self.rank(),
    {
        match self {
            NormalForm::First => 1,
            NormalForm::Second => 2,
            NormalForm::Third => 3,
            NormalForm::BCNF => 4,
            NormalForm::Fourth => 5,
            NormalForm::Fifth => 6,
        }
    }

    /// Whether this form is `other` or a stronger one.
    pub fn at_least(&self, other: &NormalForm) -> (r: bool)
        ensures
            r == (self.rank() >= other.rank()),
    {
        self.level() >= other.level()
    }

    /// Whether this form is strictly weaker than `other`.
    pub fn below(&self, other: &NormalForm) -> (r: bool)
        ensures
            r == (self.rank() < other.rank()),
    {
        self.level() < other.level()
    }

    /// The next stronger form; `Fifth` has none.
    pub fn next(&self) -> (r: Option<NormalForm>)
        ensures
            self.rank() < 6 ==> r is Some && r->0.rank() == self.rank() + 1,
            self.rank() == 6 ==> r is None,
    {
        match self {
            NormalForm::First => Some(NormalForm::Second),
            NormalForm::Second => Some(NormalForm::Third),
            NormalForm::Third => Some(NormalForm::BCNF),
            NormalForm::BCNF => Some(NormalForm::Fourth),
            NormalForm::Fourth => Some(NormalForm::Fifth),
            NormalForm::Fifth => None,
        }
    }

    /// The conventional short name: `1NF`, `2NF`, `3NF`, `BCNF`, `4NF`, `5NF`.
    pub fn label(&self) -> (s: String)
        ensures
            s@ == self.label_text(),
    {
        match self {
            NormalForm::First => String::from_str("1NF"),
            NormalForm::Second => String::from_str("2NF"),
            NormalForm::Third => String::from_str("3NF"),
            NormalForm::BCNF => String::from_str("BCNF"),
            NormalForm::Fourth => String::from_str("4NF"),
            NormalForm::Fifth => String::from_str("5NF"),
        }
    }

    /// Reads a short name back; `None` for any other text.
    pub fn from_label(label: &str) -> (r: Option<NormalForm>)
        ensures
            match r {
                Some(form) => form.label_text() == label@,
                None => forall|form: NormalForm| form.label_text() != label@,
            },
    {
        if same_text(label, "1NF") {
            Some(NormalForm::First)
        } else if same_text(label, "2NF") {
            Some(NormalForm::Second)
        } else if same_text(label, "3NF") {
            Some(NormalForm::Third)
        } else if same_text(label, "BCNF") {
            Some(NormalForm::BCNF)
        } else if same_text(label, "4NF") {
            Some(NormalForm::Fourth)
        } else if same_text(label, "5NF") {
            Some(NormalForm::Fifth)
        } else {
            None
        }
    }
}

/// The ladder is a strict total order: two forms compare by rank, and only
/// equal forms share a rank.
pub proof fn lemma_rank_orders_forms(a: NormalForm, b: NormalForm)
    ensures
        1 <= a.rank() <= 6,
        a.rank() == b.rank() <==> a == b,
        a.rank() < b.rank() || a.rank() > b.rank() || a == b,
{
}

} // verus!
