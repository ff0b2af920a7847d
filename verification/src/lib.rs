use vstd::prelude::*;

pub mod block;
pub mod chain;
pub mod codec;
pub mod dec;
pub mod digests;
pub mod errors;
pub mod hexcode;
pub mod jsontext;
pub mod laws;
pub mod pow;
pub mod text;
pub mod transaction;
pub mod utxoset;
pub mod wallet;

verus! {

/// The mining reward paid by a coinbase transaction.
pub const SUBSIDY: isize = 50;

} // verus!
