use vstd::prelude::*;

verus! {

/// The error of building or evaluating a formula: a readable message.
#[derive(Debug, PartialEq)]
pub struct FormulaError(pub String);

} // verus!
