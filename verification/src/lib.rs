//! Verified core of a coin-drop machine: the money type, the coin admission
//! queue, the automatic drop cadence, the collection sweep and the decisions
//! behind the controls.

use vstd::prelude::*;

pub mod coins;
pub mod machine;
pub mod money;
pub mod ui;

verus! {

/// The running total of what the collected coins were worth.
#[derive(Debug, Copy, Clone, PartialEq, Eq)]
pub struct Winnings(pub money::Money);

impl Default for Winnings {
    /// No dollars and no cents.
    fn default() -> (w: Self)
        ensures
            w.0 == (money::Money { symbol: Some('$'), cents: 0 }),
    {
        Winnings(money::Money { symbol: Some('$'), cents: 0 })
    }
}

} // verus!
