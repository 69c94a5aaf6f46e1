//! Rule evaluation support for clinical documentation improvement: account
//! records and their keyed indexes, the test-selection filter of the rule
//! test runner, and the reconciliation of computed alerts with stored results.
pub mod account;
pub mod allowance;
mod clock;
pub mod config;
pub mod index;
pub mod laws;
pub mod model;
pub mod names;
pub mod reconcile;
pub mod text;

pub use names::script_name;
