//! Direction of a target execution.

use vstd::prelude::*;

verus! {

/// Direction of the target execution.
#[derive(Debug, Clone, Copy, PartialEq, Eq, Structural)]
pub enum Side {
    Buy,
    Sell,
}

} // verus!
