use vstd::prelude::*;

mod error;
pub mod expression;
mod formula_engine;
pub mod grammar;
pub mod laws;
pub mod parser;
pub mod render;
pub mod text;
pub mod traits;

pub use error::FormulaError;
pub use expression::{Expr, Function, Op};
pub use formula_engine::FormulaEngine;
pub use traits::{MetricStreamFetcher, NumberLike};
