//! The chain service: an append-only, hash-linked list of blocks held in
//! memory, from the genesis block to the tip. Mining verifies every
//! transaction against the chain, seals a block by proof of work and appends
//! it; persistence of the blocks is the caller's concern and exchanges plain
//! blocks and their canonical JSON texts.
use vstd::prelude::*;
use vstd::string::StringExecFns;

use crate::block::clone_txs;
use crate::block::tx_views;
use crate::block::Block;
use crate::block::BlockV;
use crate::errors::ChainError;
use crate::pow::spec_block_sealed;
use crate::text::chars_eq;
use crate::text::chars_of_str;
use crate::transaction::spec_is_coinbase;
use crate::transaction::spec_lookup_tx;
use crate::transaction::spec_signed_vin;
use crate::transaction::spec_tx_verifies;
use crate::transaction::Transaction;
use crate::transaction::TxInV;
use crate::transaction::TxV;

verus! {

/// The views of a sequence of blocks, genesis first.
pub open spec fn block_views(v: Seq<Block>) -> Seq<BlockV> {
    Seq::new(v.len(), |i: int| v[i]@)
}

/// Every block names its predecessor: the genesis block has an empty
/// previous hash, every later block carries the hash of the one before it.
pub open spec fn chain_linked(c: Seq<BlockV>) -> bool {
    &&& c.len() >= 1
    &&& c[0].prev_block_hash.len() == 0
    &&& forall|i: int| 1 <= i < c.len() ==> #[trigger] c[i].prev_block_hash == c[i - 1].hash
}

/// Every block stores the proof-of-work hash of its own contents and that
/// hash meets the target.
pub open spec fn chain_sealed(c: Seq<BlockV>) -> bool {
    forall|i: int| 0 <= i < c.len() ==> spec_block_sealed(#[trigger] c[i])
}

/// The first transaction with the given id, scanning from the tip backward
/// and within a block in order.
pub open spec fn spec_find_tx(c: Seq<BlockV>, id: Seq<char>) -> Option<TxV>
    decreases c.len(),
{
    if c.len() == 0 {
        None
    } else {
        match spec_lookup_tx(c.last().transactions, id) {
            Option::Some(t) => Some(t),
            Option::None => spec_find_tx(c.drop_last(), id),
        }
    }
}

/// Whether a transaction verifies against a chain, each input resolved by
/// scanning the chain for the transaction it references.
pub open spec fn spec_tx_verifies_chain(t: TxV, c: Seq<BlockV>) -> bool {
    if spec_is_coinbase(t) {
        true
    } else {
        forall|i: int|
            0 <= i < t.vin.len() ==> #[trigger] spec_input_checks_chain(t, c, i)
    }
}

/// Input `i` of `t`, checked against the transaction the chain holds for it.
pub open spec fn spec_input_checks_chain(t: TxV, c: Seq<BlockV>, i: int) -> bool {
    match spec_find_tx(c, t.vin[i].txid) {
        Option::None => false,
        Option::Some(p) => {
            &&& 0 <= t.vin[i].vout < p.vout.len()
            &&& crate::digests::ecdsa_sig_checks(
                t.vin[i].pubkey,
                crate::transaction::spec_message(t, i, p.vout[t.vin[i].vout].pubkey_hash),
                t.vin[i].signature,
            )
        },
    }
}

/// The form input `i` takes after signing with `key` against this chain: the
/// signature filled in where the referenced transaction and output stand in
/// the chain, unchanged otherwise.
pub open spec fn spec_signed_vin_chain(t: TxV, c: Seq<BlockV>, i: int, key: Seq<u8>) -> TxInV {
    match spec_find_tx(c, t.vin[i].txid) {
        Option::None => t.vin[i],
        Option::Some(p) => {
            if 0 <= t.vin[i].vout < p.vout.len() {
                TxInV {
                    signature: crate::hexcode::hex_of(
                        crate::digests::ecdsa_sig_of(
                            key,
                            crate::transaction::spec_message(
                                t,
                                i,
                                p.vout[t.vin[i].vout].pubkey_hash,
                            ),
                        ),
                    ),
                    ..t.vin[i]
                }
            } else {
                t.vin[i]
            }
        },
    }
}

/// Every transaction of every block verifies against the chain before it.
pub open spec fn chain_txs_verified(c: Seq<BlockV>) -> bool {
    forall|i: int, j: int|
        0 <= i < c.len() && 0 <= j < c[i].transactions.len() ==> spec_tx_verifies_chain(
            #[trigger] c[i].transactions[j],
            c.take(i),
        )
}

/// A well-formed chain: linked, sealed and verified throughout.
pub open spec fn chain_wf(c: Seq<BlockV>) -> bool {
    chain_linked(c) && chain_sealed(c) && chain_txs_verified(c)
}

/// The in-memory chain: the blocks from genesis to tip, and the tip's hash.
pub struct Blockchain {
    pub tip: String,
    pub blocks: Vec<Block>,
}

impl View for Blockchain {
    type V = Seq<BlockV>;

    open spec fn view(&self) -> Seq<BlockV> {
        block_views(self.blocks@)
    }
}

/// The chain's standing invariant: well-formed, with the tip naming the last
/// block.
pub open spec fn bc_wf(bc: Blockchain) -> bool {
    chain_wf(bc@) && bc.tip@ == bc@.last().hash
}

impl Clone for Blockchain {
    fn clone(&self) -> (r: Self)
        ensures
            r@ == self@,
            r.tip@ == self.tip@,
    {
        let r = Blockchain { tip: self.tip.clone(), blocks: clone_blocks(&self.blocks) };
        proof {
            assert(r@ =~= self@);
        }
        r
    }
}

/// Clones a block list, element for element.
pub fn clone_blocks(v: &Vec<Block>) -> (r: Vec<Block>)
    ensures
        r@.len() == v@.len(),
        forall|i: int| 0 <= i < v@.len() ==> #[trigger] r@[i]@ == v@[i]@,
{
    let mut out: Vec<Block> = Vec::new();
    let mut i: usize = 0;
    while i < v.len()
        invariant
            i <= v@.len(),
            out@.len() == i,
            forall|k: int| 0 <= k < i ==> #[trigger] out@[k]@ == v@[k]@,
        decreases v@.len() - i,
    {
        out.push(v[i].clone());
        i = i + 1;
    }
    out
}

/// The data tag the genesis coinbase carries.
pub open spec fn genesis_data() -> Seq<char> {
    seq!['G', 'e', 'n', 'e', 's', 'i', 's', 'C', 'o', 'i', 'n', 'B', 'a', 's', 'e', 'D', 'a', 't',
        'a']
}

/// Mines the genesis block that pays `coinbase`'s reward.
pub fn new_genesis_block(coinbase: Transaction) -> (r: Result<Block, ChainError>)
    ensures
        r matches Ok(b) ==> {
            &&& b@.prev_block_hash.len() == 0
            &&& b@.transactions =~= seq![coinbase@]
            &&& spec_block_sealed(b@)
        },
        r is Err ==> r == Err::<Block, ChainError>(ChainError::IoError) || r == Err::<
            Block,
            ChainError,
        >(ChainError::NonceExhausted),
{
    let ghost cv: TxV = coinbase@;
    let mut txs: Vec<Transaction> = Vec::new();
    txs.push(coinbase);
    let r = Block::new_block(String::new(), txs);
    proof {
        if r is Ok {
            assert(r->Ok_0@.transactions =~= seq![cv]);
        }
    }
    r
}

impl Blockchain {
    /// Creates a fresh chain: mines the genesis block whose coinbase pays
    /// `address`, and sets the tip to it.
    pub fn create_block_chain(address: String) -> (r: Result<Self, ChainError>)
        ensures
            r matches Ok(bc) ==> {
                &&& bc_wf(bc)
                &&& bc@.len() == 1
                &&& bc@[0].transactions.len() == 1
                &&& spec_is_coinbase(bc@[0].transactions[0])
                &&& bc@[0].transactions[0].vin[0].pubkey == vstd::utf8::encode_utf8(
                    genesis_data(),
                )
                &&& bc@[0].transactions[0].vout.len() == 1
                &&& bc@[0].transactions[0].vout[0].value == crate::SUBSIDY as int
                &&& forall|h: Seq<u8>|
                    address@.len() <= 132 && crate::wallet::address_form_ok(h) && address@
                        == #[trigger] crate::wallet::spec_address_of_pubkey_hash(h)
                        ==> bc@[0].transactions[0].vout[0].pubkey_hash == crate::hexcode::hex_of(h)
            },
            r is Err ==> r == Err::<Self, ChainError>(ChainError::DecodeError) || r == Err::<
                Self,
                ChainError,
            >(ChainError::IoError) || r == Err::<Self, ChainError>(ChainError::NonceExhausted),
            forall|h: Seq<u8>|
                address@.len() <= 132 && crate::wallet::address_form_ok(h) && address@
                    == #[trigger] crate::wallet::spec_address_of_pubkey_hash(h) ==> (r is Ok || r
                    == Err::<Self, ChainError>(ChainError::IoError) || r == Err::<
                    Self,
                    ChainError,
                >(ChainError::NonceExhausted)),
    {
        let data = String::from_str("GenesisCoinBaseData");
        proof {
            reveal_strlit("GenesisCoinBaseData");
            assert(data@ =~= genesis_data());
        }
        let ghost addr_view: Seq<char> = address@;
        let tx = match crate::transaction::Transaction::new_coin_base_tx(address, data) {
            Ok(t) => t,
            Err(e) => {
                proof {
                    assert forall|h: Seq<u8>|
                        addr_view.len() <= 132 && crate::wallet::address_form_ok(h) && addr_view
                            == #[trigger] crate::wallet::spec_address_of_pubkey_hash(h)
                        implies false by {}
                }
                return Err(e);
            },
        };
        let ghost txv: TxV = tx@;
        let genesis = match new_genesis_block(tx) {
            Ok(b) => b,
            Err(e) => {
                return Err(e);
            },
        };
        let tip = genesis.get_hash();
        let mut blocks: Vec<Block> = Vec::new();
        blocks.push(genesis);
        let bc = Blockchain { tip, blocks };
        proof {
            assert(bc@.len() == 1);
            assert(bc@[0].transactions =~= seq![txv]);
            assert(chain_linked(bc@));
            assert(chain_sealed(bc@));
            assert forall|i: int, j: int|
                0 <= i < bc@.len() && 0 <= j < bc@[i].transactions.len() implies
                spec_tx_verifies_chain(#[trigger] bc@[i].transactions[j], bc@.take(i)) by {
                assert(bc@[i].transactions[j] == txv);
                assert(spec_is_coinbase(txv));
            }
        }
        Ok(bc)
    }

    /// The first transaction with the given id, scanning from the tip.
    pub fn find_transaction(&self, id: &str) -> (r: Result<Transaction, ChainError>)
        ensures
            match spec_find_tx(self@, id@) {
                Option::Some(p) => r matches Ok(t) && t@ == p,
                Option::None => r == Err::<Transaction, ChainError>(
                    ChainError::InvalidTransaction,
                ),
            },
    {
        let mut bi: usize = self.blocks.len();
        proof {
            assert(self@.take(bi as int) =~= self@);
        }
        while bi > 0
            invariant
                bi <= self.blocks@.len(),
                spec_find_tx(self@, id@) == spec_find_tx(self@.take(bi as int), id@),
            decreases bi,
        {
            bi = bi - 1;
            let block = &self.blocks[bi];
            let ghost txs: Seq<TxV> = self@[bi as int].transactions;
            proof {
                assert(self@.take(bi + 1).last() == self@[bi as int]);
                assert(self@.take(bi + 1).drop_last() =~= self@.take(bi as int));
                assert(tx_views(block.transactions@) == txs);
                assert(tx_views(block.transactions@) =~= tx_views(block.transactions@));
            }
            match crate::transaction::find_by_id(&block.transactions, id) {
                Some(t) => {
                    return Ok(t.clone());
                },
                None => {},
            }
        }
        proof {
            assert(self@.take(0) =~= Seq::<BlockV>::empty());
        }
        Err(ChainError::InvalidTransaction)
    }

    /// Collects, for each input of `tx`, the transaction it references.
    fn collect_prev_txs(&self, tx: &Transaction) -> (r: Result<Vec<Transaction>, ChainError>)
        ensures
            r matches Ok(l) ==> {
                &&& l@.len() == tx@.vin.len()
                &&& forall|k: int|
                    0 <= k < l@.len() ==> spec_find_tx(self@, tx@.vin[k].txid) == Some(
                        #[trigger] l@[k]@,
                    ) && l@[k]@.id == tx@.vin[k].txid
            },
            r is Err ==> r == Err::<Vec<Transaction>, ChainError>(ChainError::InvalidTransaction)
                && (exists|k: int|
                0 <= k < tx@.vin.len() && spec_find_tx(self@, #[trigger] tx@.vin[k].txid)
                    is None),
    {
        let mut out: Vec<Transaction> = Vec::new();
        let mut i: usize = 0;
        while i < tx.vin.len()
            invariant
                i <= tx.vin@.len(),
                out@.len() == i,
                forall|k: int|
                    0 <= k < i ==> spec_find_tx(self@, tx@.vin[k].txid) == Some(
                        #[trigger] out@[k]@,
                    ) && out@[k]@.id == tx@.vin[k].txid,
            decreases tx.vin@.len() - i,
        {
            let prev = match self.find_transaction(tx.vin[i].txid.as_str()) {
                Ok(p) => p,
                Err(_) => {
                    proof {
                        assert(spec_find_tx(self@, tx@.vin[i as int].txid) is None);
                    }
                    return Err(ChainError::InvalidTransaction);
                },
            };
            proof {
                lemma_found_id(self@, tx@.vin[i as int].txid);
            }
            out.push(prev);
            i = i + 1;
        }
        Ok(out)
    }

    /// Whether `tx` verifies against this chain.
    pub fn verify_transaction(&self, tx: &Transaction) -> (r: Result<bool, ChainError>)
        ensures
            r matches Ok(b) ==> b == spec_tx_verifies_chain(tx@, self@),
            r is Err ==> r == Err::<bool, ChainError>(ChainError::InvalidTransaction)
                && !spec_tx_verifies_chain(tx@, self@) && !spec_is_coinbase(tx@),
    {
        if tx.is_coinbase() {
            return Ok(true);
        }
        let prevs = match self.collect_prev_txs(tx) {
            Ok(l) => l,
            Err(e) => {
                proof {
                    let k = choose|k: int|
                        0 <= k < tx@.vin.len() && spec_find_tx(
                            self@,
                            #[trigger] tx@.vin[k].txid,
                        ) is None;
                    assert(!spec_input_checks_chain(tx@, self@, k));
                }
                return Err(e);
            },
        };
        let ok = match tx.verify(&prevs) {
            Ok(b) => b,
            Err(_) => vstd::pervasive::unreached(),
        };
        proof {
            lemma_collected_lookup(self@, tx@, tx_views(prevs@));
            assert(spec_tx_verifies(tx@, tx_views(prevs@)) == spec_tx_verifies_chain(
                tx@,
                self@,
            )) by {
                assert forall|i: int|
                    #![trigger crate::transaction::spec_input_checks(tx@, tx_views(prevs@), i)]
                    #![trigger spec_input_checks_chain(tx@, self@, i)]
                    0 <= i < tx@.vin.len() implies crate::transaction::spec_input_checks(
                    tx@,
                    tx_views(prevs@),
                    i,
                ) == spec_input_checks_chain(tx@, self@, i) by {
                    assert(spec_lookup_tx(tx_views(prevs@), tx@.vin[i].txid) == spec_find_tx(
                        self@,
                        tx@.vin[i].txid,
                    ));
                }
            }
        }
        Ok(ok)
    }

    /// Signs `tx` with `privkey`, resolving each referenced transaction from
    /// the chain. Whatever the outcome, only signatures change; a coinbase is
    /// returned untouched; a missing referenced transaction fails before
    /// anything is signed.
    pub fn sign_transaction(&self, tx: &mut Transaction, privkey: &[u8]) -> (r: Result<
        (),
        ChainError,
    >)
        ensures
            final(tx)@.id == old(tx)@.id,
            final(tx)@.vout == old(tx)@.vout,
            final(tx)@.vin.len() == old(tx)@.vin.len(),
            forall|i: int|
                0 <= i < old(tx)@.vin.len()
                    ==> ((#[trigger] final(tx)@.vin[i]).txid == old(tx)@.vin[i].txid
                    && final(tx)@.vin[i].vout == old(tx)@.vin[i].vout
                    && final(tx)@.vin[i].pubkey == old(tx)@.vin[i].pubkey),
            spec_is_coinbase(old(tx)@) ==> r is Ok && final(tx)@ == old(tx)@,
            (!spec_is_coinbase(old(tx)@) && exists|i: int|
                0 <= i < old(tx)@.vin.len() && spec_find_tx(
                    self@,
                    (#[trigger] old(tx)@.vin[i]).txid,
                ) is None) ==> r == Err::<(), ChainError>(ChainError::InvalidTransaction)
                && final(tx)@ == old(tx)@,
            r is Ok ==> !spec_is_coinbase(old(tx)@) ==> forall|i: int|
                0 <= i < old(tx)@.vin.len() ==> #[trigger] final(tx)@.vin[i]
                    == spec_signed_vin_chain(old(tx)@, self@, i, privkey@),
            r is Err ==> r == Err::<(), ChainError>(ChainError::InvalidTransaction) || r == Err::<
                (),
                ChainError,
            >(ChainError::DecodeError),
    {
        if tx.is_coinbase() {
            return Ok(());
        }
        let prevs = match self.collect_prev_txs(tx) {
            Ok(l) => l,
            Err(e) => {
                return Err(e);
            },
        };
        proof {
            lemma_collected_lookup(self@, old(tx)@, tx_views(prevs@));
        }
        let r = tx.sign(privkey, &prevs);
        proof {
            if r is Ok {
                assert forall|i: int| 0 <= i < old(tx)@.vin.len() implies #[trigger] tx@.vin[i]
                    == spec_signed_vin_chain(old(tx)@, self@, i, privkey@) by {
                    assert(tx@.vin[i] == spec_signed_vin(
                        old(tx)@,
                        tx_views(prevs@),
                        i,
                        privkey@,
                    ));
                    assert(spec_lookup_tx(tx_views(prevs@), old(tx)@.vin[i].txid) == spec_find_tx(
                        self@,
                        old(tx)@.vin[i].txid,
                    ));
                }
            }
            assert forall|i: int| 0 <= i < old(tx)@.vin.len() implies ((#[trigger] tx@.vin[
            i]).txid == old(tx)@.vin[i].txid && tx@.vin[i].vout == old(tx)@.vin[i].vout
                && tx@.vin[i].pubkey == old(tx)@.vin[i].pubkey) by {}
            assert forall|i: int| 0 <= i < old(tx)@.vin.len() implies !(spec_find_tx(
                self@,
                (#[trigger] old(tx)@.vin[i]).txid,
            ) is None) by {
                assert(spec_find_tx(self@, old(tx)@.vin[i].txid) == Some(prevs@[i]@));
            }
        }
        r
    }

    /// Verifies the transactions, mines a block on the current tip, appends
    /// it and moves the tip.
    pub fn mine_block(&mut self, txes: Vec<Transaction>) -> (r: Result<Block, ChainError>)
        requires
            bc_wf(*old(self)),
        ensures
            bc_wf(*old(self)) ==> r is Err ==> *final(self) == *old(self),
            r == Err::<Block, ChainError>(ChainError::InvalidTransaction) <==> (exists|j: int|
                0 <= j < txes@.len() && !spec_tx_verifies_chain(
                    #[trigger] tx_views(txes@)[j],
                    old(self)@,
                )),
            r is Err ==> r == Err::<Block, ChainError>(ChainError::InvalidTransaction) || r
                == Err::<Block, ChainError>(ChainError::IoError) || r == Err::<
                Block,
                ChainError,
            >(ChainError::NonceExhausted),
            r matches Ok(b) ==> {
                &&& bc_wf(*final(self))
                &&& final(self)@ =~= old(self)@.push(b@)
                &&& b@.prev_block_hash == old(self)@.last().hash
                &&& b@.transactions == tx_views(txes@)
                &&& spec_block_sealed(b@)
                &&& final(self).tip@ == b@.hash
                &&& forall|j: int|
                    0 <= j < txes@.len() ==> spec_tx_verifies_chain(
                        #[trigger] tx_views(txes@)[j],
                        old(self)@,
                    )
            },
    {
        let mut i: usize = 0;
        while i < txes.len()
            invariant
                i <= txes@.len(),
                *self == *old(self),
                forall|j: int|
                    0 <= j < i ==> spec_tx_verifies_chain(#[trigger] tx_views(txes@)[j], self@),
            decreases txes@.len() - i,
        {
            let ok = match self.verify_transaction(&txes[i]) {
                Ok(b) => b,
                Err(e) => {
                    proof {
                        assert(!spec_tx_verifies_chain(tx_views(txes@)[i as int], self@));
                    }
                    return Err(e);
                },
            };
            if !ok {
                proof {
                    assert(!spec_tx_verifies_chain(tx_views(txes@)[i as int], self@));
                }
                return Err(ChainError::InvalidTransaction);
            }
            proof {
                assert(tx_views(txes@)[i as int] == txes@[i as int]@);
            }
            i = i + 1;
        }
        let block = match Block::new_block(self.tip.clone(), clone_txs(&txes)) {
            Ok(b) => b,
            Err(e) => {
                return Err(e);
            },
        };
        let ghost oldc: Seq<BlockV> = self@;
        self.tip = block.get_hash();
        self.blocks.push(block.clone());
        proof {
            assert(self@ =~= oldc.push(self.blocks@.last()@));
            let c = self@;
            let b = self.blocks@.last()@;
            assert(b.transactions =~= tx_views(txes@));
            assert(chain_linked(c)) by {
                assert forall|k: int| 1 <= k < c.len() implies #[trigger] c[k].prev_block_hash
                    == c[k - 1].hash by {
                    if k < c.len() - 1 {
                        assert(c[k] == oldc[k]);
                    } else {
                        assert(c[k] == b);
                        assert(c[k - 1] == oldc.last());
                    }
                }
            }
            assert(chain_sealed(c)) by {
                assert forall|k: int| 0 <= k < c.len() implies spec_block_sealed(
                    #[trigger] c[k],
                ) by {
                    if k < c.len() - 1 {
                        assert(c[k] == oldc[k]);
                    }
                }
            }
            assert(chain_txs_verified(c)) by {
                assert forall|k: int, j: int|
                    0 <= k < c.len() && 0 <= j < c[k].transactions.len() implies
                    spec_tx_verifies_chain(#[trigger] c[k].transactions[j], c.take(k)) by {
                    if k < c.len() - 1 {
                        assert(c[k] == oldc[k]);
                        assert(c.take(k) =~= oldc.take(k));
                    } else {
                        assert(c.take(k) =~= oldc);
                        assert(c[k].transactions[j] == tx_views(txes@)[j]);
                    }
                }
            }
        }
        Ok(block)
    }

    /// A cursor that yields blocks from the tip back to the genesis block.
    pub fn iterator(&self) -> (r: BlockChainIter)
        ensures
            block_views(r.blocks@) == self@,
            r.remaining == self@.len(),
    {
        let it = BlockChainIter { blocks: clone_blocks(&self.blocks), remaining: self.blocks.len() };
        proof {
            assert(block_views(it.blocks@) =~= self@);
        }
        it
    }
}

/// A transaction the chain scan finds under an id carries that id.
pub proof fn lemma_found_id(c: Seq<BlockV>, id: Seq<char>)
    ensures
        spec_find_tx(c, id) matches Some(p) ==> p.id == id,
    decreases c.len(),
{
    if c.len() > 0 {
        lemma_found_id(c.drop_last(), id);
        lemma_lookup_id(c.last().transactions, id);
    }
}

/// A transaction a list lookup finds under an id carries that id.
pub proof fn lemma_lookup_id(l: Seq<TxV>, id: Seq<char>)
    ensures
        spec_lookup_tx(l, id) matches Some(p) ==> p.id == id,
    decreases l.len(),
{
    if l.len() > 0 {
        lemma_lookup_id(l.drop_first(), id);
    }
}

/// Looking a key up in the collected list of found transactions agrees with
/// scanning the chain, for every key the list was collected for.
pub proof fn lemma_collected_lookup(c: Seq<BlockV>, t: TxV, l: Seq<TxV>)
    requires
        l.len() == t.vin.len(),
        forall|k: int|
            0 <= k < l.len() ==> spec_find_tx(c, t.vin[k].txid) == Some(#[trigger] l[k]) && l[k].id
                == t.vin[k].txid,
    ensures
        forall|i: int|
            0 <= i < t.vin.len() ==> spec_lookup_tx(l, #[trigger] t.vin[i].txid) == spec_find_tx(
                c,
                t.vin[i].txid,
            ),
{
    assert forall|k: int| 0 <= k < l.len() implies spec_find_tx(c, #[trigger] l[k].id) == Some(
        l[k],
    ) by {
        assert(spec_find_tx(c, t.vin[k].txid) == Some(l[k]));
    }
    assert forall|i: int| 0 <= i < t.vin.len() implies spec_lookup_tx(l, #[trigger] t.vin[i].txid)
        == spec_find_tx(c, t.vin[i].txid) by {
        assert(l[i].id == t.vin[i].txid);
        lemma_lookup_among(c, l, t.vin[i].txid);
    }
}

/// Helper: a list whose every element is what the chain finds under its own
/// id resolves a present key to the chain's find.
proof fn lemma_lookup_among(c: Seq<BlockV>, l: Seq<TxV>, key: Seq<char>)
    requires
        forall|k: int|
            0 <= k < l.len() ==> spec_find_tx(c, #[trigger] l[k].id) == Some(l[k]),
        exists|k: int| 0 <= k < l.len() && #[trigger] l[k].id == key,
    ensures
        spec_lookup_tx(l, key) == spec_find_tx(c, key),
    decreases l.len(),
{
    if l[0].id == key {
        assert(spec_find_tx(c, key) == Some(l[0]));
    } else {
        let k = choose|k: int| 0 <= k < l.len() && #[trigger] l[k].id == key;
        assert(l.drop_first()[k - 1].id == key);
        assert forall|j: int| 0 <= j < l.drop_first().len() implies spec_find_tx(
            c,
            #[trigger] l.drop_first()[j].id,
        ) == Some(l.drop_first()[j]) by {
            assert(l.drop_first()[j] == l[j + 1]);
        }
        lemma_lookup_among(c, l.drop_first(), key);
    }
}

/// A cursor over a chain's blocks, tip first; it ends at the genesis block.
pub struct BlockChainIter {
    pub blocks: Vec<Block>,
    pub remaining: usize,
}

impl BlockChainIter {
    /// The next block, moving from the tip toward the genesis block; fails
    /// when the genesis block has already been yielded.
    pub fn next(&mut self) -> (r: Result<Block, ChainError>)
        requires
            old(self).remaining <= old(self).blocks@.len(),
        ensures
            final(self).blocks@ == old(self).blocks@,
            old(self).remaining > 0 ==> {
                &&& r matches Ok(b) && b@ == old(self).blocks@[old(self).remaining - 1]@
                &&& final(self).remaining == old(self).remaining - 1
            },
            old(self).remaining == 0 ==> r == Err::<Block, ChainError>(ChainError::IoError)
                && final(self).remaining == 0,
    {
        if self.remaining == 0 {
            return Err(ChainError::IoError);
        }
        self.remaining = self.remaining - 1;
        Ok(self.blocks[self.remaining].clone())
    }
}

impl Blockchain {
    /// Rebuilds a chain from stored blocks, validating everything the chain
    /// invariant demands: the linkage from the genesis block, every block's
    /// stored proof-of-work hash, every transaction against the chain before
    /// its block, and the tip. Accepts exactly what it can prove well-formed,
    /// so a caller may mine on the result.
    pub fn from_blocks(tip: String, blocks: Vec<Block>) -> (r: Result<Blockchain, ChainError>)
        ensures
            r matches Ok(bc) ==> bc_wf(bc) && bc@ == block_views(blocks@) && bc.tip@ == tip@,
            r is Err ==> r == Err::<Blockchain, ChainError>(ChainError::InvalidTransaction),
    {
        let ghost views: Seq<BlockV> = block_views(blocks@);
        if blocks.len() == 0 {
            return Err(ChainError::InvalidTransaction);
        }
        if !blocks[0].prev_block_hash.as_str().is_empty() {
            return Err(ChainError::InvalidTransaction);
        }
        let tip_chars = chars_of_str(tip.as_str());
        let last_chars = chars_of_str(blocks[blocks.len() - 1].hash.as_str());
        if !chars_eq(&tip_chars, &last_chars) {
            return Err(ChainError::InvalidTransaction);
        }
        let mut i: usize = 1;
        while i < blocks.len()
            invariant
                1 <= i <= blocks@.len(),
                views == block_views(blocks@),
                forall|k: int|
                    1 <= k < i ==> #[trigger] views[k].prev_block_hash == views[k - 1].hash,
            decreases blocks@.len() - i,
        {
            let prev = chars_of_str(blocks[i].prev_block_hash.as_str());
            let prior = chars_of_str(blocks[i - 1].hash.as_str());
            if !chars_eq(&prev, &prior) {
                return Err(ChainError::InvalidTransaction);
            }
            i = i + 1;
        }
        let mut s: usize = 0;
        while s < blocks.len()
            invariant
                s <= blocks@.len(),
                views == block_views(blocks@),
                forall|k: int| 0 <= k < s ==> spec_block_sealed(#[trigger] views[k]),
            decreases blocks@.len() - s,
        {
            let engine = crate::pow::ProofOfWork::new_proof_of_work(blocks[s].clone());
            let data = engine.prepare_data(blocks[s].get_nonce());
            let recomputed = crate::digests::sha256_hex_str(data.as_str());
            let rc = chars_of_str(recomputed.as_str());
            let stored = chars_of_str(blocks[s].hash.as_str());
            if !chars_eq(&stored, &rc) {
                return Err(ChainError::InvalidTransaction);
            }
            if !crate::pow::hash_meets_target(&rc) {
                return Err(ChainError::InvalidTransaction);
            }
            proof {
                assert(views[s as int] == blocks@[s as int]@);
                assert(spec_block_sealed(views[s as int]));
            }
            s = s + 1;
        }
        let mut acc = Blockchain { tip: String::new(), blocks: Vec::new() };
        let mut b: usize = 0;
        proof {
            assert(acc@ =~= views.take(0));
        }
        while b < blocks.len()
            invariant
                b <= blocks@.len(),
                views == block_views(blocks@),
                acc@ == views.take(b as int),
                acc.blocks@.len() == b,
                forall|k: int, j: int|
                    0 <= k < b && 0 <= j < views[k].transactions.len()
                        ==> spec_tx_verifies_chain(
                        #[trigger] views[k].transactions[j],
                        views.take(k),
                    ),
            decreases blocks@.len() - b,
        {
            let block = &blocks[b];
            let ghost txs: Seq<TxV> = views[b as int].transactions;
            let mut j: usize = 0;
            while j < block.transactions.len()
                invariant
                    j <= block.transactions@.len(),
                    b < blocks@.len(),
                    views == block_views(blocks@),
                    block == blocks@[b as int],
                    txs == views[b as int].transactions,
                    acc@ == views.take(b as int),
                    forall|q: int|
                        0 <= q < j ==> spec_tx_verifies_chain(
                            #[trigger] txs[q],
                            views.take(b as int),
                        ),
                decreases block.transactions@.len() - j,
            {
                let ok = match acc.verify_transaction(&block.transactions[j]) {
                    Ok(v) => v,
                    Err(_) => {
                        return Err(ChainError::InvalidTransaction);
                    },
                };
                if !ok {
                    return Err(ChainError::InvalidTransaction);
                }
                proof {
                    assert(txs[j as int] == block.transactions@[j as int]@);
                }
                j = j + 1;
            }
            let copy = block.clone();
            proof {
                assert(copy@ == views[b as int]);
            }
            acc.blocks.push(copy);
            proof {
                assert forall|k: int| 0 <= k < b + 1 implies block_views(acc.blocks@)[k]
                    == views.take(b + 1)[k] by {
                    if k < b {
                        assert(block_views(acc.blocks@)[k] == acc.blocks@[k]@);
                        assert(views.take(b as int)[k] == acc.blocks@[k]@);
                    } else {
                        assert(block_views(acc.blocks@)[k] == acc.blocks@.last()@);
                    }
                }
                assert(acc@ =~= views.take(b + 1));
            }
            b = b + 1;
        }
        let bc = Blockchain { tip, blocks };
        proof {
            assert(bc@ == views);
            assert(views.take(views.len() as int) =~= views);
            assert(chain_linked(bc@));
            assert(chain_sealed(bc@));
            assert(chain_txs_verified(bc@));
        }
        Ok(bc)
    }
}

} // verus!
