//! Consensus state engine for a sidechain carrying an on-chain prediction
//! market: a UTXO set extended with combinatorial markets priced by a
//! logarithmic market scoring rule over fixed-point decimal arithmetic.
use vstd::prelude::*;

pub mod connect;
pub mod content;
pub mod dec;
pub mod deltas;
pub mod fill;
pub mod laws;
pub mod lmsr;
pub mod state;
pub mod table;
pub mod validate;

verus! {

} // verus!
