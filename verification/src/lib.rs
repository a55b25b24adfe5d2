use vstd::prelude::*;

pub mod text;
pub mod distance;
pub mod algo;
pub mod dict;
pub mod notes;
pub mod history;
pub mod lookup;
pub mod config;
pub mod state;
pub mod focus;
pub mod ui;
pub mod record;
pub mod lexicon;
pub mod sort;
pub mod dataset;
pub mod cn_dataset;
pub mod flyout;
pub mod hub;
pub mod versions;
pub mod hotkey;

verus! {

#[verifier::external_type_specification]
#[verifier::external_body]
pub struct ExSqliteError(rusqlite::Error);

} // verus!
