//! Epigenetic clocks: linear models over DNA methylation readings that
//! estimate biological age, evaluated in exact fixed-point arithmetic.
use vstd::prelude::*;

pub mod decimal;
pub mod rows;
pub mod table;
pub mod model;
pub mod score;

verus! {

} // verus!
