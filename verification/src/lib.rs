//! Verified core of FormDB Studio.
//!
//! The normalization engine works in four stages. The miner (`miner`,
//! and `scan` for a run in steps) finds the functional dependencies that a
//! set of rows supports. The classifier (`classifier`) names the strongest
//! normal form that a schema satisfies under them. The planner (`planner`,
//! with `priority` and `join_checks`) proposes a decomposition and tests
//! it. `proposal` ties the stages together, explains a proposal in words
//! and gates its commit.
//!
//! Around the engine stand the plain services of the studio: FQLdt
//! generation (`schema`), queries (`query`), data entry (`document`) and
//! proof obligations (`obligations`); `names` and `text` hold what they
//! share.

pub mod classifier;
pub mod dependency;
pub mod document;
pub mod error;
pub mod join_checks;
pub mod miner;
pub mod names;
pub mod normal_form;
pub mod obligations;
pub mod planner;
pub mod priority;
pub mod proposal;
pub mod query;
pub mod text;
pub mod scan;
pub mod schema;
pub mod table;
