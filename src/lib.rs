//! Lifecycle of a discretionary trading position: sizing and acquiring it,
//! then merging the orders of followup strategies that share its notional,
//! and the fills reported on them, into one canonical target order set.
//!
//! Notionals and prices are integers in quote-currency units; order weights
//! are basis points of a strategy's share.
use vstd::prelude::*;

pub mod orders;
pub mod reconcile;
pub mod followup;
pub mod exchange;
pub mod acquisition;
pub mod trailing_stop;
pub mod signing;

verus! {

} // verus!
