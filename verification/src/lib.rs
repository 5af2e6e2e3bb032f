//! A small offline ledger: a fixed vault of labelled amounts, the text shown
//! for them, and the screen logic of the device that browses them.
use vstd::prelude::*;

pub mod crypto;
pub mod state;
pub mod ui;
pub mod utils;

verus! {

} // verus!
