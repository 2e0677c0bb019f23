//! The math services.

use vstd::prelude::*;

pub mod calc;
pub mod ops;

verus! {

pub const SERVICE_GROUP: &'static str = "math";

} // verus!
