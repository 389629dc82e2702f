use vstd::prelude::*;

verus! {

/// Walker entity will be player controlled
pub struct PlayerWalkerController;

} // verus!
