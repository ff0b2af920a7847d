//! The chain's standing guarantees, stated on their own: what holds of every
//! well-formed chain, read off the invariant that creation and mining
//! maintain.
use vstd::prelude::*;

use crate::block::BlockV;
use crate::chain::chain_linked;
use crate::chain::chain_sealed;
use crate::chain::chain_txs_verified;
use crate::chain::chain_wf;
use crate::pow::spec_block_sealed;
use crate::pow::spec_pow_valid;

verus! {

/// Every non-genesis block of a well-formed chain names its predecessor: the
/// block before it stands in the chain and its hash is the stored previous
/// hash.
pub proof fn law_chain_linkage(c: Seq<BlockV>, i: int)
    requires
        chain_wf(c),
        1 <= i < c.len(),
    ensures
        c[i].prev_block_hash == c[i - 1].hash,
        exists|j: int| 0 <= j < c.len() && (#[trigger] c[j]).hash == c[i].prev_block_hash,
{
    assert(c[i - 1].hash == c[i].prev_block_hash);
}

/// The genesis block of a well-formed chain has an empty previous hash, so a
/// walk from the tip that follows previous hashes ends there.
pub proof fn law_genesis_prev_empty(c: Seq<BlockV>)
    requires
        chain_wf(c),
    ensures
        c[0].prev_block_hash.len() == 0,
{
}

/// Every block of a well-formed chain passes proof-of-work validation: the
/// hash recomputed from its stored nonce meets the target.
pub proof fn law_chain_pow_valid(c: Seq<BlockV>, i: int)
    requires
        chain_wf(c),
        0 <= i < c.len(),
    ensures
        spec_pow_valid(c[i]),
{
    assert(spec_block_sealed(c[i]));
}

/// Every transaction of every block of a well-formed chain verifies against
/// the chain that stood when its block was mined.
pub proof fn law_chain_txs_verify(c: Seq<BlockV>, i: int, j: int)
    requires
        chain_wf(c),
        0 <= i < c.len(),
        0 <= j < c[i].transactions.len(),
    ensures
        crate::chain::spec_tx_verifies_chain(c[i].transactions[j], c.take(i)),
{
}

} // verus!
