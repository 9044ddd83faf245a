use vstd::prelude::*;

pub mod text;
pub mod units;
pub mod decimal;
pub mod double;
pub mod entry;
pub mod money;
pub mod order;
pub mod db;
pub mod plan;
pub mod theme;
pub mod laws;

verus! {

} // verus!
