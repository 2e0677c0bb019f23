//! Entrypoint service: parses math expressions and evaluates them with the
//! operator services.

use vstd::prelude::*;

pub mod eval;
pub mod expression;
pub mod notation;
pub mod parse;

pub use eval::MathError;
pub use parse::parse;

verus! {

pub const SERVICE_NAME: &'static str = "calc";

pub const SERVICE_HOST: &'static str = "[::1]";

pub const SERVICE_PORT: u32 = 50056;

} // verus!
