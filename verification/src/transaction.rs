//! The UTXO transaction model: outputs locked to a public key hash, inputs
//! that reference earlier outputs and carry a signature, and the coinbase
//! form that mints the block reward.
use vstd::prelude::*;
use vstd::utf8::encode_utf8;

use crate::digests::ecdsa_sig_checks;
use crate::digests::ecdsa_sig_of;
use crate::digests::sha256_hex_of;
use crate::errors::ChainError;
use crate::hexcode::hex_bytes;
use crate::hexcode::hex_chars;
use crate::hexcode::hex_decode;
use crate::hexcode::hex_of;
use crate::text::chars_eq;
use crate::text::chars_of_str;
use crate::text::string_of_chars;
use crate::wallet::address_form_ok;
use crate::wallet::pubkey_hash_from_base58;
use crate::wallet::spec_address_of_pubkey_hash;
use crate::wallet::spec_hash_pubkey;
use crate::wallet::hash_pubkey;

verus! {

/// Mathematical form of a transaction output.
pub ghost struct TxOutV {
    pub value: int,
    pub pubkey_hash: Seq<char>,
}

/// Mathematical form of a transaction input.
pub ghost struct TxInV {
    pub txid: Seq<char>,
    pub vout: int,
    pub signature: Seq<char>,
    pub pubkey: Seq<u8>,
}

/// Mathematical form of a transaction.
pub ghost struct TxV {
    pub id: Seq<char>,
    pub vin: Seq<TxInV>,
    pub vout: Seq<TxOutV>,
}

/// An amount locked to the hex form of a public key hash.
pub struct TxOutput {
    pub value: isize,
    pub pubkey_hash: String,
}

impl View for TxOutput {
    type V = TxOutV;

    open spec fn view(&self) -> TxOutV {
        TxOutV { value: self.value as int, pubkey_hash: self.pubkey_hash@ }
    }
}

impl Clone for TxOutput {
    fn clone(&self) -> (r: Self)
        ensures
            r@ == self@,
    {
        TxOutput { value: self.value, pubkey_hash: self.pubkey_hash.clone() }
    }
}

/// A reference to an earlier output, with the spender's signature and raw
/// public key. A coinbase input has an empty `txid` and `vout == -1`.
pub struct TxInput {
    pub txid: String,
    pub vout: isize,
    pub signature: String,
    pub pubkey: Vec<u8>,
}

impl View for TxInput {
    type V = TxInV;

    open spec fn view(&self) -> TxInV {
        TxInV {
            txid: self.txid@,
            vout: self.vout as int,
            signature: self.signature@,
            pubkey: self.pubkey@,
        }
    }
}

impl Clone for TxInput {
    fn clone(&self) -> (r: Self)
        ensures
            r@ == self@,
    {
        let r = TxInput {
            txid: self.txid.clone(),
            vout: self.vout,
            signature: self.signature.clone(),
            pubkey: clone_bytes(&self.pubkey),
        };
        r
    }
}

/// A transaction: an id over its canonical encoding, inputs and outputs.
pub struct Transaction {
    pub id: String,
    pub vin: Vec<TxInput>,
    pub vout: Vec<TxOutput>,
}

impl View for Transaction {
    type V = TxV;

    open spec fn view(&self) -> TxV {
        TxV {
            id: self.id@,
            vin: Seq::new(self.vin@.len(), |i: int| self.vin@[i]@),
            vout: Seq::new(self.vout@.len(), |i: int| self.vout@[i]@),
        }
    }
}

impl Clone for Transaction {
    fn clone(&self) -> (r: Self)
        ensures
            r@ == self@,
    {
        let r = Transaction {
            id: self.id.clone(),
            vin: clone_inputs(&self.vin),
            vout: clone_outputs(&self.vout),
        };
        proof {
            assert(r@.vin =~= self@.vin);
            assert(r@.vout =~= self@.vout);
        }
        r
    }
}

pub fn clone_bytes(v: &Vec<u8>) -> (r: Vec<u8>)
    ensures
        r@ == v@,
{
    let mut out: Vec<u8> = Vec::new();
    let mut i: usize = 0;
    while i < v.len()
        invariant
            i <= v@.len(),
            out@ == v@.take(i as int),
        decreases v@.len() - i,
    {
        out.push(v[i]);
        proof {
            assert(out@ =~= v@.take(i + 1));
        }
        i = i + 1;
    }
    proof {
        assert(v@.take(v@.len() as int) =~= v@);
    }
    out
}

fn clone_inputs(v: &Vec<TxInput>) -> (r: Vec<TxInput>)
    ensures
        r@.len() == v@.len(),
        forall|i: int| 0 <= i < v@.len() ==> #[trigger] r@[i]@ == v@[i]@,
{
    let mut out: Vec<TxInput> = Vec::new();
    let mut i: usize = 0;
    while i < v.len()
        invariant
            i <= v@.len(),
            out@.len() == i,
            forall|k: int| 0 <= k < i ==> #[trigger] out@[k]@ == v@[k]@,
        decreases v@.len() - i,
    {
        out.push(v[i].clone());
        i = i + 1;
    }
    out
}

fn clone_outputs(v: &Vec<TxOutput>) -> (r: Vec<TxOutput>)
    ensures
        r@.len() == v@.len(),
        forall|i: int| 0 <= i < v@.len() ==> #[trigger] r@[i]@ == v@[i]@,
{
    let mut out: Vec<TxOutput> = Vec::new();
    let mut i: usize = 0;
    while i < v.len()
        invariant
            i <= v@.len(),
            out@.len() == i,
            forall|k: int| 0 <= k < i ==> #[trigger] out@[k]@ == v@[k]@,
        decreases v@.len() - i,
    {
        out.push(v[i].clone());
        i = i + 1;
    }
    out
}

/// Whether a transaction is the coinbase form: one input with an empty
/// referenced id and index minus one.
pub open spec fn spec_is_coinbase(t: TxV) -> bool {
    t.vin.len() == 1 && t.vin[0].txid.len() == 0 && t.vin[0].vout == -1
}

/// The trimmed copy used to derive signing messages: every input keeps its
/// reference but loses its signature and public key; outputs and id stay.
pub open spec fn spec_trimmed(t: TxV) -> TxV {
    TxV {
        id: t.id,
        vin: Seq::new(
            t.vin.len(),
            |i: int|
                TxInV {
                    txid: t.vin[i].txid,
                    vout: t.vin[i].vout,
                    signature: Seq::<char>::empty(),
                    pubkey: Seq::<u8>::empty(),
                },
        ),
        vout: t.vout,
    }
}

impl TxInput {
    /// Whether this input was signed by the key whose hash is `pubkey_hash`.
    pub fn uses_key(&self, pubkey_hash: &str) -> (r: bool)
        ensures
            r == (hex_of(spec_hash_pubkey(self.pubkey@)) == pubkey_hash@),
    {
        let locking_hash = hash_pubkey(&self.pubkey);
        let hex = crate::hexcode::hex_chars(locking_hash.as_slice());
        let other = chars_of_str(pubkey_hash);
        chars_eq(&hex, &other)
    }
}

impl TxOutput {
    /// Builds an output of `value` locked to the pubkey hash carried by the
    /// Base58 `address`; fails on a malformed address.
    pub fn new_tx_output(value: isize, address: String) -> (r: Result<Self, ChainError>)
        ensures
            r matches Ok(o) ==> o.value == value,
            forall|h: Seq<u8>|
                address@.len() <= 132 && address_form_ok(h) && address@ == #[trigger] spec_address_of_pubkey_hash(h) ==> (
                r matches Ok(o) && o@.pubkey_hash == hex_of(h)),
            r is Err ==> r == Err::<Self, ChainError>(ChainError::DecodeError),
    {
        let mut out = TxOutput { value, pubkey_hash: String::new() };
        match out.lock(address.as_str()) {
            Ok(_) => Ok(out),
            Err(e) => Err(e),
        }
    }

    /// Whether this output is locked to `pubkey_hash`.
    pub fn is_locked_with_key(&self, pubkey_hash: &str) -> (r: bool)
        ensures
            r == (self.pubkey_hash@ == pubkey_hash@),
    {
        let a = chars_of_str(self.pubkey_hash.as_str());
        let b = chars_of_str(pubkey_hash);
        chars_eq(&a, &b)
    }

    /// Locks this output to the pubkey hash carried by the Base58 `address`.
    pub fn lock(&mut self, address: &str) -> (r: Result<(), ChainError>)
        ensures
            final(self).value == old(self).value,
            forall|h: Seq<u8>|
                address@.len() <= 132 && address_form_ok(h) && address@ == #[trigger] spec_address_of_pubkey_hash(h) ==> (r
                    matches Ok(u) && final(self)@.pubkey_hash == hex_of(h)),
            r is Err ==> r == Err::<(), ChainError>(ChainError::DecodeError),
    {
        match pubkey_hash_from_base58(address) {
            Ok(h) => {
                self.pubkey_hash = h;
                Ok(())
            },
            Err(e) => Err(e),
        }
    }
}

impl Transaction {
    /// Whether this transaction is a coinbase.
    pub fn is_coinbase(&self) -> (r: bool)
        ensures
            r == spec_is_coinbase(self@),
    {
        self.vin.len() == 1 && self.vin[0].txid.as_str().is_empty() && self.vin[0].vout == -1
    }

    /// The copy whose inputs keep only their references.
    pub fn trimmed_copy(&self) -> (r: Self)
        ensures
            r@ == spec_trimmed(self@),
    {
        let mut inputs: Vec<TxInput> = Vec::new();
        let mut i: usize = 0;
        while i < self.vin.len()
            invariant
                i <= self.vin@.len(),
                inputs@.len() == i,
                forall|k: int| 0 <= k < i ==> #[trigger] inputs@[k]@ == spec_trimmed(self@).vin[k],
            decreases self.vin@.len() - i,
        {
            inputs.push(
                TxInput {
                    txid: self.vin[i].txid.clone(),
                    vout: self.vin[i].vout,
                    signature: String::new(),
                    pubkey: Vec::new(),
                },
            );
            i = i + 1;
        }
        let r = Transaction { id: self.id.clone(), vin: inputs, vout: clone_outputs(&self.vout) };
        proof {
            assert(r@.vin =~= spec_trimmed(self@).vin);
            assert(r@.vout =~= spec_trimmed(self@).vout);
        }
        r
    }
}

/// The first transaction with the given id, if any.
pub open spec fn spec_lookup_tx(prevs: Seq<TxV>, id: Seq<char>) -> Option<TxV>
    decreases prevs.len(),
{
    if prevs.len() == 0 {
        None
    } else if prevs[0].id == id {
        Some(prevs[0])
    } else {
        spec_lookup_tx(prevs.drop_first(), id)
    }
}

/// The trimmed copy with the referenced output's pubkey hash stuffed into
/// input `i`: the structure whose canonical form is hashed to derive that
/// input's signing message.
pub open spec fn spec_stuffed(t: TxV, i: int, ph: Seq<char>) -> TxV {
    TxV {
        id: t.id,
        vin: spec_trimmed(t).vin.update(
            i,
            TxInV {
                txid: t.vin[i].txid,
                vout: t.vin[i].vout,
                signature: Seq::<char>::empty(),
                pubkey: encode_utf8(ph),
            },
        ),
        vout: t.vout,
    }
}

/// The hex text whose bytes are input `i`'s signing message.
pub open spec fn spec_message_hex(t: TxV, i: int, ph: Seq<char>) -> Seq<char> {
    crate::digests::sha256_hex_of(crate::codec::json_tx(spec_stuffed(t, i, ph)))
}

/// The signing message bytes of input `i` against the referenced output.
pub open spec fn spec_message(t: TxV, i: int, ph: Seq<char>) -> Seq<u8> {
    hex_bytes(spec_message_hex(t, i, ph))
}

/// Whether input `i` of `t` carries a signature that verifies against the
/// output it references in `prevs`.
pub open spec fn spec_input_checks(t: TxV, prevs: Seq<TxV>, i: int) -> bool {
    match spec_lookup_tx(prevs, t.vin[i].txid) {
        Option::None => false,
        Option::Some(p) => {
            &&& 0 <= t.vin[i].vout < p.vout.len()
            &&& ecdsa_sig_checks(
                t.vin[i].pubkey,
                spec_message(t, i, p.vout[t.vin[i].vout].pubkey_hash),
                t.vin[i].signature,
            )
        },
    }
}

/// Whether a transaction verifies: a coinbase always does; any other needs
/// every input to check out against the transactions it references.
pub open spec fn spec_tx_verifies(t: TxV, prevs: Seq<TxV>) -> bool {
    if spec_is_coinbase(t) {
        true
    } else {
        forall|i: int| 0 <= i < t.vin.len() ==> spec_input_checks(t, prevs, i)
    }
}

/// The signature input `i` receives when signed with `key`, where defined.
pub open spec fn spec_input_signature(t: TxV, prevs: Seq<TxV>, i: int, key: Seq<u8>) -> Option<
    Seq<char>,
> {
    match spec_lookup_tx(prevs, t.vin[i].txid) {
        Option::None => None,
        Option::Some(p) => {
            if 0 <= t.vin[i].vout < p.vout.len() {
                Some(
                    hex_of(ecdsa_sig_of(key, spec_message(t, i, p.vout[t.vin[i].vout].pubkey_hash))),
                )
            } else {
                None
            }
        },
    }
}

/// The form input `i` takes after signing with `key`: the signature filled
/// in where the referenced transaction and output exist, unchanged otherwise.
pub open spec fn spec_signed_vin(t: TxV, prevs: Seq<TxV>, i: int, key: Seq<u8>) -> TxInV {
    match spec_input_signature(t, prevs, i, key) {
        Option::Some(sig) => TxInV { signature: sig, ..t.vin[i] },
        Option::None => t.vin[i],
    }
}

/// Finds the first transaction with the given id.
pub fn find_by_id<'a>(prevs: &'a Vec<Transaction>, id: &str) -> (r: Option<&'a Transaction>)
    ensures
        match spec_lookup_tx(crate::block::tx_views(prevs@), id@) {
            Option::Some(p) => r matches Some(t) && t@ == p,
            Option::None => r is None,
        },
{
    let want = chars_of_str(id);
    proof {
        assert(crate::block::tx_views(prevs@).skip(0) =~= crate::block::tx_views(prevs@));
    }
    let mut i: usize = 0;
    while i < prevs.len()
        invariant
            i <= prevs@.len(),
            want@ == id@,
            spec_lookup_tx(crate::block::tx_views(prevs@), id@) == spec_lookup_tx(
                crate::block::tx_views(prevs@).skip(i as int),
                id@,
            ),
        decreases prevs@.len() - i,
    {
        let have = chars_of_str(prevs[i].id.as_str());
        proof {
            assert(crate::block::tx_views(prevs@).skip(i as int)[0] == crate::block::tx_views(prevs@)[i as int]);
            assert(crate::block::tx_views(prevs@).skip(i as int).drop_first() =~= crate::block::tx_views(prevs@).skip(
                i + 1,
            ));
        }
        if chars_eq(&have, &want) {
            return Some(&prevs[i]);
        }
        i = i + 1;
    }
    proof {
        assert(crate::block::tx_views(prevs@).skip(i as int).len() == 0);
    }
    None
}

impl Transaction {
    /// Builds the structure whose hash is input `i`'s signing message.
    fn stuffed_copy(&self, i: usize, ph: &str) -> (r: Transaction)
        requires
            i < self.vin@.len(),
        ensures
            r@ == spec_stuffed(self@, i as int, ph@),
    {
        let mut copy = self.trimmed_copy();
        proof {
            assert(copy@.vin.len() == spec_trimmed(self@).vin.len());
            assert(copy@.vin.len() == copy.vin@.len());
            assert(copy.vin@.len() == self.vin@.len());
        }
        let replacement = TxInput {
            txid: self.vin[i].txid.clone(),
            vout: self.vin[i].vout,
            signature: String::new(),
            pubkey: vstd::slice::slice_to_vec(ph.as_bytes()),
        };
        copy.vin.set(i, replacement);
        proof {
            assert(copy@.vin =~= spec_stuffed(self@, i as int, ph@).vin);
            assert(copy@.vout =~= spec_stuffed(self@, i as int, ph@).vout);
        }
        copy
    }

    /// The signing message bytes of input `i` against a referenced output's
    /// pubkey hash.
    fn signing_message(&self, i: usize, ph: &str) -> (r: Vec<u8>)
        requires
            i < self.vin@.len(),
        ensures
            r@ == spec_message(self@, i as int, ph@),
    {
        let stuffed = self.stuffed_copy(i, ph);
        let id = match stuffed.hash() {
            Ok(h) => h,
            Err(_) => vstd::pervasive::unreached(),
        };
        let idc = chars_of_str(id.as_str());
        match hex_decode(&idc) {
            Ok(v) => {
                proof {
                    crate::hexcode::lemma_hex_of_len(Seq::<u8>::empty());
                }
                v
            },
            Err(_) => vstd::pervasive::unreached(),
        }
    }

    /// Verifies every input's signature against the transactions it
    /// references; a coinbase passes as it carries none.
    pub fn verify(&self, prev_txs: &Vec<Transaction>) -> (r: Result<bool, ChainError>)
        ensures
            r == Ok::<bool, ChainError>(spec_tx_verifies(self@, crate::block::tx_views(prev_txs@))),
    {
        if self.is_coinbase() {
            return Ok(true);
        }
        let ghost prevs: Seq<TxV> = crate::block::tx_views(prev_txs@);
        let mut i: usize = 0;
        while i < self.vin.len()
            invariant
                i <= self.vin@.len(),
                prevs == crate::block::tx_views(prev_txs@),
                !spec_is_coinbase(self@),
                forall|k: int| 0 <= k < i ==> spec_input_checks(self@, prevs, k),
            decreases self.vin@.len() - i,
        {
            let prev = match find_by_id(prev_txs, self.vin[i].txid.as_str()) {
                Some(p) => p,
                None => {
                    proof {
                        assert(!spec_input_checks(self@, prevs, i as int));
                    }
                    return Ok(false);
                },
            };
            let vout = self.vin[i].vout;
            if vout < 0 || vout as usize >= prev.vout.len() {
                proof {
                    assert(!spec_input_checks(self@, prevs, i as int));
                }
                return Ok(false);
            }
            let idx = vout as usize;
            let ph = prev.vout[idx].pubkey_hash.clone();
            let msg = self.signing_message(i, ph.as_str());
            proof {
                assert(prev.vout@[idx as int]@ == spec_lookup_tx(
                    prevs,
                    self@.vin[i as int].txid,
                )->Some_0.vout[self@.vin[i as int].vout]);
            }
            let ok = crate::digests::ecdsa_check(
                self.vin[i].pubkey.as_slice(),
                msg.as_slice(),
                self.vin[i].signature.as_str(),
            );
            if !ok {
                proof {
                    assert(!spec_input_checks(self@, prevs, i as int));
                }
                return Ok(false);
            }
            proof {
                assert(spec_input_checks(self@, prevs, i as int));
            }
            i = i + 1;
        }
        Ok(true)
    }

    /// Signs every input whose referenced transaction is present, storing the
    /// hex signature; a coinbase is left untouched. Whatever the outcome, only
    /// signatures change. Fails when an input names an output index the
    /// referenced transaction does not have, or when the signer rejects the
    /// key.
    pub fn sign(&mut self, privkey: &[u8], prev_txs: &Vec<Transaction>) -> (r: Result<
        (),
        ChainError,
    >)
        ensures
            final(self)@.id == old(self)@.id,
            final(self)@.vout == old(self)@.vout,
            final(self)@.vin.len() == old(self)@.vin.len(),
            forall|i: int|
                0 <= i < old(self)@.vin.len()
                    ==> ((#[trigger] final(self)@.vin[i]).txid == old(self)@.vin[i].txid
                    && final(self)@.vin[i].vout == old(self)@.vin[i].vout
                    && final(self)@.vin[i].pubkey == old(self)@.vin[i].pubkey),
            spec_is_coinbase(old(self)@) ==> r is Ok && final(self)@ == old(self)@,
            r is Ok ==> !spec_is_coinbase(old(self)@) ==> forall|i: int|
                0 <= i < old(self)@.vin.len() ==> #[trigger] final(self)@.vin[i]
                    == spec_signed_vin(old(self)@, crate::block::tx_views(prev_txs@), i, privkey@),
            r is Ok ==> !spec_is_coinbase(old(self)@) ==> forall|i: int|
                0 <= i < old(self)@.vin.len() ==> (spec_lookup_tx(
                    crate::block::tx_views(prev_txs@),
                    (#[trigger] old(self)@.vin[i]).txid,
                ) matches Some(p) ==> 0 <= old(self)@.vin[i].vout < p.vout.len()),
            r is Err ==> r == Err::<(), ChainError>(ChainError::InvalidTransaction) || r == Err::<
                (),
                ChainError,
            >(ChainError::DecodeError),
    {
        if self.is_coinbase() {
            return Ok(());
        }
        let ghost orig: TxV = self@;
        let ghost prevs: Seq<TxV> = crate::block::tx_views(prev_txs@);
        let mut i: usize = 0;
        while i < self.vin.len()
            invariant
                i <= self.vin@.len(),
                prevs == crate::block::tx_views(prev_txs@),
                orig == old(self)@,
                !spec_is_coinbase(orig),
                self@.id == orig.id,
                self@.vout == orig.vout,
                self@.vin.len() == orig.vin.len(),
                forall|k: int|
                    i <= k < orig.vin.len() ==> #[trigger] self@.vin[k] == orig.vin[k],
                forall|k: int|
                    0 <= k < i ==> #[trigger] self@.vin[k] == spec_signed_vin(
                        orig,
                        prevs,
                        k,
                        privkey@,
                    ),
                forall|k: int|
                    0 <= k < i ==> (spec_lookup_tx(prevs, (#[trigger] orig.vin[k]).txid) matches
                        Some(p) ==> 0 <= orig.vin[k].vout < p.vout.len()),
            decreases self.vin@.len() - i,
        {
            let ghost pre: TxV = self@;
            let prev = match find_by_id(prev_txs, self.vin[i].txid.as_str()) {
                Some(p) => p,
                None => {
                    proof {
                        assert(self@.vin[i as int] == orig.vin[i as int]);
                        assert(spec_lookup_tx(prevs, orig.vin[i as int].txid) is None);
                        assert(self@.vin[i as int] == spec_signed_vin(
                            orig,
                            prevs,
                            i as int,
                            privkey@,
                        ));
                    }
                    i = i + 1;
                    continue ;
                },
            };
            let vout = self.vin[i].vout;
            if vout < 0 || vout as usize >= prev.vout.len() {
                proof {
                    lemma_signed_fields_preserved(orig, prevs, privkey@, self@, i as int);
                }
                return Err(ChainError::InvalidTransaction);
            }
            let idx = vout as usize;
            let ph = prev.vout[idx].pubkey_hash.clone();
            let ghost stuffed_model: TxV = spec_stuffed(orig, i as int, ph@);
            proof {
                assert(self@.vin[i as int] == orig.vin[i as int]);
                assert(spec_trimmed(self@).vin =~= spec_trimmed(orig).vin);
                assert(spec_stuffed(self@, i as int, ph@).vin =~= stuffed_model.vin);
                assert(spec_stuffed(self@, i as int, ph@) == stuffed_model);
            }
            let msg = self.signing_message(i, ph.as_str());
            proof {
                assert(msg@ == spec_message(orig, i as int, ph@));
            }
            let sig = match crate::digests::ecdsa_sign(privkey, msg.as_slice()) {
                Ok(v) => v,
                Err(e) => {
                    proof {
                        lemma_signed_fields_preserved(orig, prevs, privkey@, self@, i as int);
                    }
                    return Err(e);
                },
            };
            let sig_hex = string_of_chars(&hex_chars(sig.as_slice()));
            let replacement = TxInput {
                txid: self.vin[i].txid.clone(),
                vout: self.vin[i].vout,
                signature: sig_hex,
                pubkey: clone_bytes(&self.vin[i].pubkey),
            };
            self.vin.set(i, replacement);
            proof {
                assert(prev.vout@[idx as int]@ == spec_lookup_tx(
                    prevs,
                    orig.vin[i as int].txid,
                )->Some_0.vout[orig.vin[i as int].vout]);
                assert(ph@ == spec_lookup_tx(prevs, orig.vin[i as int].txid)->Some_0.vout[
                orig.vin[i as int].vout].pubkey_hash);
                assert(spec_input_signature(orig, prevs, i as int, privkey@) == Some(
                    hex_of(ecdsa_sig_of(privkey@, spec_message(orig, i as int, ph@))),
                ));
                assert(self@.vin[i as int] == spec_signed_vin(orig, prevs, i as int, privkey@));
                assert forall|k: int| 0 <= k < orig.vin.len() && k != i implies #[trigger] self@.vin[k]
                    == pre.vin[k] by {
                    assert(self.vin@[k]@ == pre.vin[k]);
                }
            }
            i = i + 1;
        }
        proof {
            lemma_signed_fields_preserved(
                orig,
                prevs,
                privkey@,
                self@,
                orig.vin.len() as int,
            );
        }
        Ok(())
    }
}

/// While signing, every input keeps its reference and key: entries already
/// signed differ from the original in the signature alone, later ones not at
/// all.
proof fn lemma_signed_fields_preserved(
    orig: TxV,
    prevs: Seq<TxV>,
    key: Seq<u8>,
    cur: TxV,
    upto: int,
)
    requires
        0 <= upto <= orig.vin.len(),
        cur.vin.len() == orig.vin.len(),
        forall|k: int| upto <= k < orig.vin.len() ==> #[trigger] cur.vin[k] == orig.vin[k],
        forall|k: int|
            0 <= k < upto ==> #[trigger] cur.vin[k] == spec_signed_vin(orig, prevs, k, key),
    ensures
        forall|k: int|
            0 <= k < orig.vin.len() ==> ((#[trigger] cur.vin[k]).txid == orig.vin[k].txid
                && cur.vin[k].vout == orig.vin[k].vout && cur.vin[k].pubkey == orig.vin[k].pubkey),
{
    assert forall|k: int|
        0 <= k < orig.vin.len() implies ((#[trigger] cur.vin[k]).txid == orig.vin[k].txid
        && cur.vin[k].vout == orig.vin[k].vout && cur.vin[k].pubkey == orig.vin[k].pubkey) by {
        if k < upto {
            assert(cur.vin[k] == spec_signed_vin(orig, prevs, k, key));
        }
    }
}

/// The default data tag of a coinbase input: the words "Reward to " before
/// the paid address.
pub open spec fn reward_prefix() -> Seq<char> {
    seq!['R', 'e', 'w', 'a', 'r', 'd', ' ', 't', 'o', ' ']
}

/// The data a coinbase input carries: the given tag, or the default one.
pub open spec fn spec_reward_data(to: Seq<char>, data: Seq<char>) -> Seq<char> {
    if data.len() == 0 {
        reward_prefix() + to
    } else {
        data
    }
}

impl Transaction {
    /// Builds the coinbase transaction paying the block reward to `address`,
    /// with `data` (or a default tag) as the input's payload.
    pub fn new_coin_base_tx(to: String, data: String) -> (r: Result<Self, ChainError>)
        ensures
            r matches Ok(t) ==> {
                &&& spec_is_coinbase(t@)
                &&& t@.vin[0].signature.len() == 0
                &&& t@.vin[0].pubkey == encode_utf8(spec_reward_data(to@, data@))
                &&& t@.vout.len() == 1
                &&& t@.vout[0].value == crate::SUBSIDY as int
                &&& (forall|h: Seq<u8>|
                    to@.len() <= 132 && address_form_ok(h) && to@ == #[trigger] spec_address_of_pubkey_hash(h)
                        ==> t@.vout[0].pubkey_hash == hex_of(h))
                &&& t@.id == crate::codec::spec_tx_hash(
                    TxV { id: Seq::<char>::empty(), vin: t@.vin, vout: t@.vout },
                )
            },
            r is Err ==> r == Err::<Self, ChainError>(ChainError::DecodeError),
            forall|h: Seq<u8>|
                to@.len() <= 132 && address_form_ok(h) && to@
                    == #[trigger] spec_address_of_pubkey_hash(h) ==> r is Ok,
    {
        let tag: String = if data.as_str().is_empty() {
            let mut chars: Vec<char> = Vec::new();
            chars.push('R');
            chars.push('e');
            chars.push('w');
            chars.push('a');
            chars.push('r');
            chars.push('d');
            chars.push(' ');
            chars.push('t');
            chars.push('o');
            chars.push(' ');
            let toc = chars_of_str(to.as_str());
            let mut k: usize = 0;
            while k < toc.len()
                invariant
                    k <= toc@.len(),
                    chars@ == reward_prefix() + toc@.take(k as int),
                decreases toc@.len() - k,
            {
                chars.push(toc[k]);
                proof {
                    assert(chars@ =~= reward_prefix() + toc@.take(k + 1));
                }
                k = k + 1;
            }
            proof {
                assert(toc@.take(toc@.len() as int) =~= toc@);
            }
            string_of_chars(&chars)
        } else {
            data
        };
        let txin = TxInput {
            txid: String::new(),
            vout: -1,
            signature: String::new(),
            pubkey: vstd::slice::slice_to_vec(tag.as_str().as_bytes()),
        };
        let ghost to_view: Seq<char> = to@;
        let txout = match TxOutput::new_tx_output(crate::SUBSIDY, to) {
            Ok(o) => o,
            Err(e) => {
                proof {
                    assert forall|h: Seq<u8>|
                        to_view.len() <= 132 && address_form_ok(h) && to_view
                            == #[trigger] spec_address_of_pubkey_hash(h) implies false by {}
                }
                return Err(e);
            },
        };
        let mut tx = Transaction { id: String::new(), vin: Vec::new(), vout: Vec::new() };
        tx.vin.push(txin);
        tx.vout.push(txout);
        let ghost pre: TxV = tx@;
        match tx.set_id() {
            Ok(_) => {},
            Err(e) => {
                return Err(e);
            },
        }
        proof {
            assert(tx@.vin =~= pre.vin);
            assert(tx@.vout =~= pre.vout);
            assert(pre.id =~= Seq::<char>::empty());
        }
        Ok(tx)
    }
}

impl Transaction {
    /// Builds, signs and returns the transfer of `amount` from one address to
    /// another: spendable outputs of the sender are selected from the index,
    /// each selected output becomes an input, and the outputs pay the
    /// receiver plus any change back to the sender.
    pub fn new_utxo_transaction(
        from: String,
        to: String,
        amount: isize,
        bc: &crate::chain::Blockchain,
        utxoset: &crate::utxoset::UTXOSet,
        wallets: &crate::wallet::Wallets,
    ) -> (r: Result<Transaction, ChainError>)
        requires
            amount >= 0,
            crate::utxoset::utxo_values_ok(crate::utxoset::entry_views(utxoset.entries@)),
        ensures
            spec_get_wallet_of(wallets, from@) is None ==> r == Err::<Transaction, ChainError>(
                ChainError::UnknownWallet,
            ),
            r == Err::<Transaction, ChainError>(ChainError::InsufficientFunds) <==> (
            spec_get_wallet_of(wallets, from@) matches Some(w) && spec_sel_of(
                utxoset,
                w,
                amount as int,
            ).0 <= isize::MAX && spec_sel_of(utxoset, w, amount as int).0 < amount),
            r matches Ok(t) ==> (spec_get_wallet_of(wallets, from@) matches Some(w) && {
                let sel = spec_sel_of(utxoset, w, amount as int);
                &&& sel.0 >= amount
                &&& sel.0 <= isize::MAX
                &&& t@.vout.len() == (if sel.0 == amount {
                    1int
                } else {
                    2int
                })
                &&& t@.vout[0].value == amount
                &&& sel.0 > amount ==> t@.vout[1].value == sel.0 - amount
                &&& (forall|h: Seq<u8>|
                    to@.len() <= 132 && address_form_ok(h) && to@ == #[trigger] spec_address_of_pubkey_hash(h)
                        ==> t@.vout[0].pubkey_hash == hex_of(h))
                &&& (sel.0 > amount ==> forall|h: Seq<u8>|
                    from@.len() <= 132 && address_form_ok(h) && from@ == #[trigger] spec_address_of_pubkey_hash(h)
                        ==> t@.vout[1].pubkey_hash == hex_of(h))
                &&& t@.vin.len() == sel.1.len()
                &&& (forall|i: int|
                    0 <= i < sel.1.len() ==> ((#[trigger] t@.vin[i]).txid == sel.1[i].txid
                        && t@.vin[i].vout == sel.1[i].vout && t@.vin[i].pubkey == w.public_key))
                &&& (forall|i: int|
                    0 <= i < t@.vin.len() ==> #[trigger] t@.vin[i]
                        == crate::chain::spec_signed_vin_chain(t@, bc@, i, w.secret_key))
            }),
    {
        let wallet = match wallets.get_wallet(from.as_str()) {
            Ok(w) => w,
            Err(_) => {
                return Err(ChainError::UnknownWallet);
            },
        };
        let pubkey_hash = hash_pubkey(&wallet.public_key);
        let ph_hex = string_of_chars(&crate::hexcode::hex_chars(pubkey_hash.as_slice()));
        let (acc, refs) = match utxoset.find_spentable_outputs(ph_hex.as_str(), amount) {
            Ok(t) => t,
            Err(e) => {
                return Err(e);
            },
        };
        if acc < amount {
            return Err(ChainError::InsufficientFunds);
        }
        let mut inputs: Vec<TxInput> = Vec::new();
        let mut i: usize = 0;
        let ghost sel = spec_sel_of(utxoset, wallet@, amount as int);
        while i < refs.len()
            invariant
                i <= refs@.len(),
                crate::utxoset::ref_views(refs@) == sel.1,
                inputs@.len() == i,
                wallet@.public_key == wallet.public_key@,
                spec_get_wallet_of(wallets, from@) == Some(wallet@),
                sel == spec_sel_of(utxoset, wallet@, amount as int),
                sel.0 <= isize::MAX,
                acc as int == sel.0,
                acc >= amount,
                forall|k: int|
                    0 <= k < i ==> ((#[trigger] inputs@[k]@).txid == sel.1[k].txid && inputs@[
                    k]@.vout == sel.1[k].vout && inputs@[k]@.pubkey == wallet@.public_key),
            decreases refs@.len() - i,
        {
            if refs[i].vout > (isize::MAX as usize) {
                return Err(ChainError::IoError);
            }
            inputs.push(
                TxInput {
                    txid: refs[i].txid.clone(),
                    vout: refs[i].vout as isize,
                    signature: String::new(),
                    pubkey: clone_bytes(&wallet.public_key),
                },
            );
            proof {
                assert(crate::utxoset::ref_views(refs@)[i as int] == refs@[i as int]@);
            }
            i = i + 1;
        }
        let mut outputs: Vec<TxOutput> = Vec::new();
        let first = match TxOutput::new_tx_output(amount, to) {
            Ok(o) => o,
            Err(e) => {
                return Err(e);
            },
        };
        outputs.push(first);
        if acc > amount {
            let change = match TxOutput::new_tx_output(acc - amount, from) {
                Ok(o) => o,
                Err(e) => {
                    return Err(e);
                },
            };
            outputs.push(change);
        }
        let mut tx = Transaction { id: String::new(), vin: inputs, vout: outputs };
        match tx.set_id() {
            Ok(_) => {},
            Err(e) => {
                return Err(e);
            },
        }
        let ghost presign: TxV = tx@;
        proof {
            assert(!spec_is_coinbase(presign)) by {
                if presign.vin.len() == 1 {
                    assert(presign.vin[0].vout == sel.1[0].vout);
                    assert(sel.1[0] == crate::utxoset::ref_views(refs@)[0]);
                    assert(crate::utxoset::ref_views(refs@)[0] == refs@[0]@);
                }
            }
        }
        match bc.sign_transaction(&mut tx, wallet.secret_key.as_slice()) {
            Ok(_) => {},
            Err(e) => {
                return Err(e);
            },
        }
        proof {
            let key = wallet@.secret_key;
            assert forall|i: int| 0 <= i < tx@.vin.len() implies #[trigger] tx@.vin[i]
                == crate::chain::spec_signed_vin_chain(tx@, bc@, i, key) by {
                assert(tx@.vin[i] == crate::chain::spec_signed_vin_chain(presign, bc@, i, key));
                assert(tx@.vin[i].txid == presign.vin[i].txid);
                assert(tx@.vin[i].vout == presign.vin[i].vout);
                assert(tx@.vin[i].pubkey == presign.vin[i].pubkey);
                let f = crate::chain::spec_find_tx(bc@, tx@.vin[i].txid);
                if f is Some && 0 <= tx@.vin[i].vout < f->Some_0.vout.len() {
                    let ph = f->Some_0.vout[tx@.vin[i].vout].pubkey_hash;
                    assert(spec_trimmed(tx@).vin =~= spec_trimmed(presign).vin) by {
                        assert forall|k: int| 0 <= k < tx@.vin.len() implies spec_trimmed(
                            tx@,
                        ).vin[k] == spec_trimmed(presign).vin[k] by {
                            assert(tx@.vin[k].txid == presign.vin[k].txid && tx@.vin[k].vout
                                == presign.vin[k].vout);
                        }
                    }
                    assert(spec_stuffed(tx@, i, ph).vin =~= spec_stuffed(presign, i, ph).vin);
                    assert(spec_stuffed(tx@, i, ph) == spec_stuffed(presign, i, ph));
                    assert(spec_message(tx@, i, ph) == spec_message(presign, i, ph));
                }
            }
        }
        Ok(tx)
    }
}

/// The wallet the bag holds under an address.
pub open spec fn spec_get_wallet_of(wallets: &crate::wallet::Wallets, from: Seq<char>) -> Option<
    crate::wallet::WalletV,
> {
    crate::wallet::spec_get_wallet(wallets@, from)
}

/// The spend selection an index yields for a wallet and amount.
pub open spec fn spec_sel_of(
    utxoset: &crate::utxoset::UTXOSet,
    w: crate::wallet::WalletV,
    amount: int,
) -> (int, Seq<crate::utxoset::OutRefV>) {
    crate::utxoset::spec_spendable(
        crate::utxoset::entry_views(utxoset.entries@),
        hex_of(spec_hash_pubkey(w.public_key)),
        amount,
    )
}

} // verus!
