//! Queries and the rows they return.

use vstd::prelude::*;
use vstd::string::*;
use vstd::hash_map::StringHashMap;
use crate::names::Name;
use crate::text::{decimal, render_unsigned};

verus! {

/// One condition of a query.
#[derive(Debug, Clone)]
pub struct QueryFilter {
    pub field: String,
    pub operator: String,
    pub value: String,
}

/// A query against one collection.
#[derive(Debug, Clone)]
pub struct QueryDef {
    pub collection: String,
    pub filters: Vec<QueryFilter>,
    pub limit: Option<i64>,
    pub include_provenance: bool,
}

/// A row as specifications see it: the value of each field that is not null.
pub type Row = Map<Name, Seq<char>>;

/// One materialized row: a value for each field that is not null.
pub struct QueryRow {
    pub data: StringHashMap<String>,
}

impl View for QueryRow {
    type V = Row;

    open spec fn view(&self) -> Row {
        Map::new(|k: Name| self.data@.contains_key(k), |k: Name| self.data@[k]@)
    }
}

impl DeepView for QueryRow {
    type V = Row;

    open spec fn deep_view(&self) -> Row {
        self.view()
    }
}

/// The row that the pairs of field and value describe; of two values for
/// one field the later one stays.
pub open spec fn row_of(pairs: Seq<(String, String)>) -> Row
    decreases pairs.len(),
{
    if pairs.len() == 0 {
        Map::empty()
    } else {
        row_of(pairs.drop_last()).insert(pairs.last().0@, pairs.last().1@)
    }
}

impl QueryRow {
    /// The row with the given values; of two values for one field the
    /// later one stays.
    pub fn from_pairs(pairs: Vec<(String, String)>) -> (row: QueryRow)
        ensures
            row@ == row_of(pairs@),
    {
        let mut row = QueryRow::new();
        let mut i: usize = 0;
        assert(pairs@.take(0).len() == 0);
        while i < pairs.len()
            invariant
                i <= pairs.len(),
                row@ == row_of(pairs@.take(i as int)),
            decreases pairs.len() - i,
        {
            proof {
                assert(pairs@.take(i + 1).drop_last() =~= pairs@.take(i as int));
            }
            let field = pairs[i].0.clone();
            let value = pairs[i].1.clone();
            row.set(field, value);
            i += 1;
        }
        assert(pairs@.take(i as int) =~= pairs@);
        row
    }

    /// A row in which every field is null.
    pub fn new() -> (row: QueryRow)
        ensures
            row@ == Map::<Name, Seq<char>>::empty(),
    {
        let row = QueryRow { data: StringHashMap::new() };
        assert(row@ =~= Map::<Name, Seq<char>>::empty());
        row
    }

    /// Gives `field` the value `value`, replacing an earlier one.
    pub fn set(&mut self, field: String, value: String)
        ensures
            final(self)@ == old(self)@.insert(field@, value@),
    {
        self.data.insert(field, value);
        assert(self@ =~= old(self)@.insert(field@, value@));
    }

    /// The value of `field`, or `None` where it is null.
    pub fn get(&self, field: &str) -> (r: Option<&String>)
        ensures
            r is Some <==> self@.contains_key(field@),
            r matches Some(v) ==> v@ == self@[field@],
    {
        self.data.get(field)
    }

    /// Whether `field` has a value in this row.
    pub fn has(&self, field: &str) -> (r: bool)
        ensures
            r == self@.contains_key(field@),
    {
        self.data.contains_key(field)
    }
}

/// What a query returns.
pub struct QueryResult {
    pub rows: Vec<QueryRow>,
    pub total: i64,
    pub execution_time_ms: i64,
}

/// The one-line explanation of a query plan.
pub open spec fn explanation_text(query: QueryDef) -> Seq<char> {
    "EXPLAIN for "@ + query.collection@ + " with "@ + decimal(query.filters@.len()) + " filters"@
}

/// The result reported while no storage engine is attached: no rows, a
/// total of zero, and a nominal five milliseconds.
pub fn execute_query(query: QueryDef) -> (res: Result<QueryResult, String>)
    ensures
        res matches Ok(r) && r.rows@.len() == 0 && r.total == 0 && r.execution_time_ms == 5,
{
    Ok(QueryResult { rows: Vec::new(), total: 0, execution_time_ms: 5 })
}

/// Explains a query: its collection and the number of its filters.
pub fn explain_query(query: QueryDef) -> (res: Result<String, String>)
    ensures
        res matches Ok(s) && s@ == explanation_text(query),
{
    let mut s = String::from_str("EXPLAIN for ");
    s.append(query.collection.as_str());
    s.append(" with ");
    let count = render_unsigned(query.filters.len() as u64);
    s.append(count.as_str());
    s.append(" filters");
    Ok(s)
}

} // verus!
