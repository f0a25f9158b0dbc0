//! Tables that a decomposition proposes.

use vstd::prelude::*;
use vstd::string::*;
use crate::names::{copy_names, Name};

verus! {

/// A proposed table: a named projection of fields and why it is proposed.
#[derive(Debug, Clone)]
pub struct TableChange {
    pub name: String,
    pub fields: Vec<String>,
    pub reason: String,
}

/// A proposed table as specifications see it.
pub struct Table {
    pub name: Seq<char>,
    pub fields: Seq<Name>,
    pub reason: Seq<char>,
}

impl View for TableChange {
    type V = Table;

    open spec fn view(&self) -> Table {
        Table { name: self.name@, fields: self.fields.deep_view(), reason: self.reason@ }
    }
}

impl DeepView for TableChange {
    type V = Table;

    open spec fn deep_view(&self) -> Table {
        self.view()
    }
}

impl TableChange {
    /// A copy of this table.
    pub fn duplicate(&self) -> (t: TableChange)
        ensures
            t@ == self@,
    {
        TableChange {
            name: self.name.clone(),
            fields: copy_names(&self.fields),
            reason: self.reason.clone(),
        }
    }
}

/// The fields that at least one of the tables holds.
pub open spec fn covered(tables: Seq<Table>) -> Set<Name> {
    Set::new(|n: Name| exists|i: int| 0 <= i < tables.len() && (#[trigger] tables[i]).fields.contains(n))
}

} // verus!
