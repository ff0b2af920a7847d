//! A block: a timestamped batch of transactions, chained to its predecessor
//! by hash and sealed by the proof-of-work nonce.
use vstd::prelude::*;
use vstd::utf8::encode_utf8;

use crate::digests::now_millis;
use crate::digests::sha256_hex_bytes;
use crate::digests::sha256_hex_of_bytes;
use crate::errors::ChainError;
use crate::transaction::Transaction;
use crate::transaction::TxV;

verus! {

/// Mathematical form of a block.
pub ghost struct BlockV {
    pub timestamp: nat,
    pub transactions: Seq<TxV>,
    pub prev_block_hash: Seq<char>,
    pub hash: Seq<char>,
    pub nonce: nat,
}

/// A block of the chain. The genesis block has an empty `prev_block_hash`.
pub struct Block {
    pub timestamp: u128,
    pub transactions: Vec<Transaction>,
    pub prev_block_hash: String,
    pub hash: String,
    pub nonce: u128,
}

/// The views of a sequence of transactions.
pub open spec fn tx_views(v: Seq<Transaction>) -> Seq<TxV> {
    Seq::new(v.len(), |i: int| v[i]@)
}

impl View for Block {
    type V = BlockV;

    open spec fn view(&self) -> BlockV {
        BlockV {
            timestamp: self.timestamp as nat,
            transactions: tx_views(self.transactions@),
            prev_block_hash: self.prev_block_hash@,
            hash: self.hash@,
            nonce: self.nonce as nat,
        }
    }
}

/// Clones a transaction list, element for element.
pub fn clone_txs(v: &Vec<Transaction>) -> (r: Vec<Transaction>)
    ensures
        tx_views(r@) == tx_views(v@),
        r@.len() == v@.len(),
{
    let mut out: Vec<Transaction> = Vec::new();
    let mut i: usize = 0;
    while i < v.len()
        invariant
            i <= v@.len(),
            out@.len() == i,
            forall|k: int| 0 <= k < i ==> #[trigger] out@[k]@ == v@[k]@,
        decreases v@.len() - i,
    {
        out.push(v[i].clone());
        i = i + 1;
    }
    proof {
        assert(tx_views(out@) =~= tx_views(v@));
    }
    out
}

impl Clone for Block {
    fn clone(&self) -> (r: Self)
        ensures
            r@ == self@,
    {
        Block {
            timestamp: self.timestamp,
            transactions: clone_txs(&self.transactions),
            prev_block_hash: self.prev_block_hash.clone(),
            hash: self.hash.clone(),
            nonce: self.nonce,
        }
    }
}

impl Block {
    /// The block's own hash, as stored.
    pub fn get_hash(&self) -> (r: String)
        ensures
            r@ == self@.hash,
    {
        self.hash.clone()
    }

    /// The block's creation time in milliseconds since the Unix epoch.
    pub fn get_timestamp(&self) -> (r: u128)
        ensures
            r as nat == self@.timestamp,
    {
        self.timestamp
    }

    /// The predecessor's hash; empty on the genesis block.
    pub fn get_prehash(&self) -> (r: String)
        ensures
            r@ == self@.prev_block_hash,
    {
        self.prev_block_hash.clone()
    }

    /// The nonce found by the proof-of-work search.
    pub fn get_nonce(&self) -> (r: u128)
        ensures
            r as nat == self@.nonce,
    {
        self.nonce
    }
}

/// The UTF-8 bytes of all transaction ids, in order.
pub open spec fn spec_ids_bytes(txs: Seq<TxV>) -> Seq<u8>
    decreases txs.len(),
{
    if txs.len() == 0 {
        Seq::<u8>::empty()
    } else {
        spec_ids_bytes(txs.drop_last()) + encode_utf8(txs.last().id)
    }
}

/// The hex digest that stands for a block's transactions in the
/// proof-of-work preimage: SHA-256 over the concatenated id bytes.
pub open spec fn spec_hash_transactions(txs: Seq<TxV>) -> Seq<char> {
    sha256_hex_of_bytes(spec_ids_bytes(txs))
}

impl Block {
    /// The hex digest of the concatenated transaction ids.
    pub fn hash_transactions(&self) -> (r: String)
        ensures
            r@ == spec_hash_transactions(self@.transactions),
    {
        let mut bytes: Vec<u8> = Vec::new();
        let mut i: usize = 0;
        while i < self.transactions.len()
            invariant
                i <= self.transactions@.len(),
                bytes@ == spec_ids_bytes(self@.transactions.take(i as int)),
            decreases self.transactions@.len() - i,
        {
            let idb = self.transactions[i].id.as_str().as_bytes();
            let ghost mid: Seq<u8> = bytes@;
            let mut k: usize = 0;
            while k < idb.len()
                invariant
                    k <= idb@.len(),
                    bytes@ == mid + idb@.take(k as int),
                decreases idb@.len() - k,
            {
                bytes.push(idb[k]);
                proof {
                    assert(bytes@ =~= mid + idb@.take(k + 1));
                }
                k = k + 1;
            }
            proof {
                assert(idb@.take(idb@.len() as int) =~= idb@);
                assert(self@.transactions.take(i + 1).drop_last() =~= self@.transactions.take(
                    i as int,
                ));
                assert(self@.transactions.take(i + 1).last() == self@.transactions[i as int]);
                assert(bytes@ =~= spec_ids_bytes(self@.transactions.take(i + 1)));
            }
            i = i + 1;
        }
        proof {
            assert(self@.transactions.take(self@.transactions.len() as int) =~= self@.transactions);
        }
        sha256_hex_bytes(bytes.as_slice())
    }
}

impl Block {
    /// Builds a block on `prev_block_hash`: stamps the clock, runs the
    /// proof-of-work search and stores the sealing hash and nonce.
    pub fn new_block(prev_block_hash: String, transactions: Vec<Transaction>) -> (r: Result<
        Self,
        ChainError,
    >)
        ensures
            r matches Ok(b) ==> {
                &&& b@.prev_block_hash == prev_block_hash@
                &&& b@.transactions == tx_views(transactions@)
                &&& crate::pow::spec_block_sealed(b@)
            },
            r is Err ==> r == Err::<Self, ChainError>(ChainError::IoError) || r == Err::<
                Self,
                ChainError,
            >(ChainError::NonceExhausted),
    {
        let timestamp = match now_millis() {
            Ok(t) => t,
            Err(e) => {
                return Err(e);
            },
        };
        let mut block = Block {
            timestamp,
            transactions,
            prev_block_hash,
            hash: String::new(),
            nonce: 0,
        };
        let engine = crate::pow::ProofOfWork::new_proof_of_work(block.clone());
        let (nonce, hash) = match engine.run() {
            Ok(t) => t,
            Err(e) => {
                return Err(e);
            },
        };
        block.hash = hash;
        block.nonce = nonce;
        proof {
            assert(crate::pow::pow_preimage(block@, nonce as nat) =~= crate::pow::pow_preimage(
                engine.block@,
                nonce as nat,
            ));
        }
        Ok(block)
    }
}

} // verus!
