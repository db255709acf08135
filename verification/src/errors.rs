//! The one error the algebra reports.

use vstd::prelude::*;

verus! {

/// Returned when a delta is applied, composed or transformed against an
/// input whose character count does not match the delta's precondition.
#[derive(Debug, PartialEq, Eq, Structural, Clone, Copy)]
pub struct OTError;

} // verus!
