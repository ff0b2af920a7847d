//! The UTXO index: for each transaction id, the list of its currently
//! unspent outputs, each kept with its original output index. The index is a
//! cache derived from the chain: a full rebuild scans the chain from the tip
//! back to the genesis block, and applying a block updates it in place.
use vstd::prelude::*;

use crate::block::BlockV;
use crate::chain::Blockchain;
use crate::block::Block;
use crate::errors::ChainError;
use crate::text::chars_eq;
use crate::text::chars_of_str;
use crate::transaction::spec_is_coinbase;
use crate::transaction::Transaction;
use crate::transaction::TxOutput;
use crate::transaction::TxOutV;
use crate::transaction::TxV;

verus! {

/// Mathematical form of one kept output: its original index and the output.
pub ghost struct IdxOutV {
    pub idx: int,
    pub out: TxOutV,
}

/// One unspent output, kept with its original position in the transaction.
pub struct IndexedOutput {
    pub idx: usize,
    pub output: TxOutput,
}

impl View for IndexedOutput {
    type V = IdxOutV;

    open spec fn view(&self) -> IdxOutV {
        IdxOutV { idx: self.idx as int, out: self.output@ }
    }
}

impl Clone for IndexedOutput {
    fn clone(&self) -> (r: Self)
        ensures
            r@ == self@,
    {
        IndexedOutput { idx: self.idx, output: self.output.clone() }
    }
}

/// Mathematical form of one index entry.
pub ghost struct UtxoEntryV {
    pub txid: Seq<char>,
    pub outs: Seq<IdxOutV>,
}

/// The unspent outputs of one transaction.
pub struct UtxoEntry {
    pub txid: String,
    pub outs: Vec<IndexedOutput>,
}

impl View for UtxoEntry {
    type V = UtxoEntryV;

    open spec fn view(&self) -> UtxoEntryV {
        UtxoEntryV { txid: self.txid@, outs: Seq::new(self.outs@.len(), |i: int| self.outs@[i]@) }
    }
}

impl Clone for UtxoEntry {
    fn clone(&self) -> (r: Self)
        ensures
            r@ == self@,
    {
        let mut outs: Vec<IndexedOutput> = Vec::new();
        let mut i: usize = 0;
        while i < self.outs.len()
            invariant
                i <= self.outs@.len(),
                outs@.len() == i,
                forall|k: int| 0 <= k < i ==> #[trigger] outs@[k]@ == self.outs@[k]@,
            decreases self.outs@.len() - i,
        {
            outs.push(self.outs[i].clone());
            i = i + 1;
        }
        let r = UtxoEntry { txid: self.txid.clone(), outs };
        proof {
            assert(r@.outs =~= self@.outs);
        }
        r
    }
}

/// The views of a sequence of entries.
pub open spec fn entry_views(v: Seq<UtxoEntry>) -> Seq<UtxoEntryV> {
    Seq::new(v.len(), |i: int| v[i]@)
}

/// The position of the entry for `txid`, or minus one.
pub open spec fn entry_idx(u: Seq<UtxoEntryV>, txid: Seq<char>) -> int
    decreases u.len(),
{
    if u.len() == 0 {
        -1
    } else if u[0].txid == txid {
        0
    } else {
        let r = entry_idx(u.drop_first(), txid);
        if r < 0 {
            -1
        } else {
            r + 1
        }
    }
}

/// The found entry position names the entry, and a negative answer means no
/// entry carries the id.
pub proof fn lemma_entry_idx(u: Seq<UtxoEntryV>, txid: Seq<char>)
    ensures
        entry_idx(u, txid) >= 0 ==> entry_idx(u, txid) < u.len() && u[entry_idx(u, txid)].txid
            == txid,
        entry_idx(u, txid) < 0 ==> forall|k: int| 0 <= k < u.len() ==> (#[trigger] u[k]).txid
            != txid,
    decreases u.len(),
{
    if u.len() > 0 && u[0].txid != txid {
        lemma_entry_idx(u.drop_first(), txid);
        if entry_idx(u.drop_first(), txid) < 0 {
            assert forall|k: int| 0 <= k < u.len() implies (#[trigger] u[k]).txid != txid by {
                if k > 0 {
                    assert(u.drop_first()[k - 1] == u[k]);
                }
            }
        } else {
            assert(u.drop_first()[entry_idx(u.drop_first(), txid)] == u[entry_idx(u, txid)]);
        }
    }
}

/// Records one unspent output under its transaction id: appended to the
/// transaction's entry, or opening a fresh entry at the end.
pub open spec fn add_output(u: Seq<UtxoEntryV>, txid: Seq<char>, idx: int, out: TxOutV) -> Seq<
    UtxoEntryV,
> {
    let j = entry_idx(u, txid);
    if j < 0 {
        u.push(UtxoEntryV { txid: txid, outs: seq![IdxOutV { idx, out }] })
    } else {
        u.update(j, UtxoEntryV { txid: txid, outs: u[j].outs.push(IdxOutV { idx, out }) })
    }
}

/// The outputs a transaction's inputs spend; a coinbase spends nothing.
pub open spec fn tx_spends(t: TxV) -> Set<(Seq<char>, int)> {
    if spec_is_coinbase(t) {
        Set::empty()
    } else {
        Set::new(
            |p: (Seq<char>, int)|
                exists|i: int|
                    0 <= i < t.vin.len() && p == (#[trigger] t.vin[i].txid, t.vin[i].vout),
        )
    }
}

/// Scans one transaction's outputs from position `k`, keeping the unspent.
pub open spec fn scan_outputs(
    u: Seq<UtxoEntryV>,
    spent: Set<(Seq<char>, int)>,
    txid: Seq<char>,
    vout: Seq<TxOutV>,
    k: int,
) -> Seq<UtxoEntryV>
    decreases vout.len() - k,
{
    if k < 0 || k >= vout.len() {
        u
    } else {
        let u2 = if spent.contains((txid, k)) {
            u
        } else {
            add_output(u, txid, k, vout[k])
        };
        scan_outputs(u2, spent, txid, vout, k + 1)
    }
}

/// Scans a block's transactions from position `j`: each transaction's
/// outputs first, then its inputs join the spent set.
pub open spec fn scan_txs(
    u: Seq<UtxoEntryV>,
    spent: Set<(Seq<char>, int)>,
    txs: Seq<TxV>,
    j: int,
) -> (Seq<UtxoEntryV>, Set<(Seq<char>, int)>)
    decreases txs.len() - j,
{
    if j < 0 || j >= txs.len() {
        (u, spent)
    } else {
        let u2 = scan_outputs(u, spent, txs[j].id, txs[j].vout, 0);
        let s2 = spent + tx_spends(txs[j]);
        scan_txs(u2, s2, txs, j + 1)
    }
}

/// Scans the blocks below position `bi`, newest first.
pub open spec fn scan_blocks(
    u: Seq<UtxoEntryV>,
    spent: Set<(Seq<char>, int)>,
    c: Seq<BlockV>,
    bi: int,
) -> (Seq<UtxoEntryV>, Set<(Seq<char>, int)>)
    decreases bi,
{
    if bi <= 0 {
        (u, spent)
    } else {
        let r = scan_txs(u, spent, c[bi - 1].transactions, 0);
        scan_blocks(r.0, r.1, c, bi - 1)
    }
}

/// The unspent-output view of a whole chain.
pub open spec fn spec_chain_utxo(c: Seq<BlockV>) -> Seq<UtxoEntryV> {
    scan_blocks(Seq::empty(), Set::empty(), c, c.len() as int).0
}

/// A recorded spend reference.
pub struct SpentRef {
    pub txid: String,
    pub vout: isize,
}

/// The set a list of spend references stands for.
pub open spec fn spent_set(v: Seq<SpentRef>) -> Set<(Seq<char>, int)> {
    Set::new(
        |p: (Seq<char>, int)|
            exists|k: int| 0 <= k < v.len() && p == ((#[trigger] v[k]).txid@, v[k].vout as int),
    )
}

/// Whether the pair stands in the recorded spends.
fn spent_contains(v: &Vec<SpentRef>, txid: &str, vout: usize) -> (r: bool)
    ensures
        r == spent_set(v@).contains((txid@, vout as int)),
{
    let mut k: usize = 0;
    while k < v.len()
        invariant
            k <= v@.len(),
            forall|j: int|
                0 <= j < k ==> !((#[trigger] v@[j]).txid@ == txid@ && v@[j].vout as int
                    == vout as int),
        decreases v@.len() - k,
    {
        let a = chars_of_str(v[k].txid.as_str());
        let b = chars_of_str(txid);
        if chars_eq(&a, &b) && v[k].vout >= 0 && v[k].vout as usize == vout {
            proof {
                assert(spent_set(v@).contains((txid@, vout as int)));
            }
            return true;
        }
        k = k + 1;
    }
    proof {
        if spent_set(v@).contains((txid@, vout as int)) {
            let j = choose|j: int|
                0 <= j < v@.len() && (txid@, vout as int) == ((#[trigger] v@[j]).txid@, v@[
                j].vout as int);
            assert(false);
        }
    }
    false
}

/// The position of the entry for `txid` in the live index, or none.
fn find_entry(entries: &Vec<UtxoEntry>, txid: &str) -> (r: Option<usize>)
    ensures
        match r {
            Some(j) => j < entries@.len() && entry_idx(entry_views(entries@), txid@) == j as int,
            None => entry_idx(entry_views(entries@), txid@) < 0,
        },
{
    let want = chars_of_str(txid);
    proof {
        assert(entry_views(entries@).skip(0) =~= entry_views(entries@));
    }
    let mut i: usize = 0;
    while i < entries.len()
        invariant
            i <= entries@.len(),
            want@ == txid@,
            entry_idx(entry_views(entries@), txid@) == if entry_idx(
                entry_views(entries@).skip(i as int),
                txid@,
            ) < 0 {
                -1
            } else {
                entry_idx(entry_views(entries@).skip(i as int), txid@) + i
            },
        decreases entries@.len() - i,
    {
        let have = chars_of_str(entries[i].txid.as_str());
        proof {
            assert(entry_views(entries@).skip(i as int)[0] == entry_views(entries@)[i as int]);
            assert(entry_views(entries@).skip(i as int).drop_first() =~= entry_views(
                entries@,
            ).skip(i + 1));
        }
        if chars_eq(&have, &want) {
            return Some(i);
        }
        i = i + 1;
    }
    proof {
        assert(entry_views(entries@).skip(i as int).len() == 0);
    }
    None
}

/// Appends one unspent output to the live index, as `add_output` says.
fn push_output(entries: &mut Vec<UtxoEntry>, txid: &str, idx: usize, out: TxOutput)
    ensures
        entry_views(final(entries)@) == add_output(
            entry_views(old(entries)@),
            txid@,
            idx as int,
            out@,
        ),
{
    let ghost before: Seq<UtxoEntryV> = entry_views(entries@);
    let ghost ov: TxOutV = out@;
    match find_entry(entries, txid) {
        Some(j) => {
            let mut ent = entries[j].clone();
            ent.outs.push(IndexedOutput { idx, output: out });
            entries.set(j, ent);
            proof {
                assert(entry_views(entries@)[j as int].outs =~= before[j as int].outs.push(
                    IdxOutV { idx: idx as int, out: ov },
                ));
                assert(entry_views(entries@)[j as int] == add_output(
                    before,
                    txid@,
                    idx as int,
                    ov,
                )[j as int]) by {
                    lemma_entry_idx(before, txid@);
                }
                assert(entry_views(entries@) =~= add_output(before, txid@, idx as int, ov));
            }
        },
        None => {
            let mut outs: Vec<IndexedOutput> = Vec::new();
            outs.push(IndexedOutput { idx, output: out });
            entries.push(UtxoEntry { txid: String::from_str(txid), outs });
            proof {
                assert(entry_views(entries@).last().outs =~= seq![
                    IdxOutV { idx: idx as int, out: ov },
                ]);
                assert(entry_views(entries@) =~= add_output(before, txid@, idx as int, ov));
            }
        },
    }
}

impl Blockchain {
    /// The unspent-output view of the whole chain: walks from the tip back to
    /// the genesis block, keeping every output no later block spends.
    pub fn find_utxo(&self) -> (r: Result<Vec<UtxoEntry>, ChainError>)
        ensures
            r matches Ok(v) && entry_views(v@) == spec_chain_utxo(self@),
    {
        let mut entries: Vec<UtxoEntry> = Vec::new();
        let mut spent: Vec<SpentRef> = Vec::new();
        proof {
            assert(entry_views(entries@) =~= Seq::<UtxoEntryV>::empty());
            assert(spent_set(spent@) =~= Set::<(Seq<char>, int)>::empty()) by {
                assert forall|p: (Seq<char>, int)| !spent_set(spent@).contains(p) by {
                    if spent_set(spent@).contains(p) {
                        let k = choose|k: int|
                            0 <= k < spent@.len() && p == ((#[trigger] spent@[k]).txid@, spent@[
                            k].vout as int);
                    }
                }
            }
        }
        let mut bi: usize = self.blocks.len();
        while bi > 0
            invariant
                bi <= self.blocks@.len(),
                scan_blocks(entry_views(entries@), spent_set(spent@), self@, bi as int)
                    == scan_blocks(
                    Seq::empty(),
                    Set::empty(),
                    self@,
                    self@.len() as int,
                ),
            decreases bi,
        {
            bi = bi - 1;
            let ghost u_enter: Seq<UtxoEntryV> = entry_views(entries@);
            let ghost s_enter: Set<(Seq<char>, int)> = spent_set(spent@);
            let block = &self.blocks[bi];
            let ghost txs: Seq<TxV> = self@[bi as int].transactions;
            let mut j: usize = 0;
            while j < block.transactions.len()
                invariant
                    j <= block.transactions@.len(),
                    txs == crate::block::tx_views(block.transactions@),
                    scan_txs(entry_views(entries@), spent_set(spent@), txs, j as int) == scan_txs(
                        u_enter,
                        s_enter,
                        txs,
                        0,
                    ),
                decreases block.transactions@.len() - j,
            {
                let tx = &block.transactions[j];
                let ghost u_tx: Seq<UtxoEntryV> = entry_views(entries@);
                let ghost s_tx: Set<(Seq<char>, int)> = spent_set(spent@);
                proof {
                    assert(txs[j as int] == tx@);
                }
                let mut k: usize = 0;
                while k < tx.vout.len()
                    invariant
                        k <= tx.vout@.len(),
                        txs[j as int] == tx@,
                        j < txs.len(),
                        spent_set(spent@) == s_tx,
                        scan_outputs(
                            entry_views(entries@),
                            s_tx,
                            tx@.id,
                            tx@.vout,
                            k as int,
                        ) == scan_outputs(u_tx, s_tx, tx@.id, tx@.vout, 0),
                    decreases tx.vout@.len() - k,
                {
                    proof {
                        assert(tx@.vout[k as int] == tx.vout@[k as int]@);
                    }
                    if !spent_contains(&spent, tx.id.as_str(), k) {
                        push_output(&mut entries, tx.id.as_str(), k, tx.vout[k].clone());
                    }
                    k = k + 1;
                }
                if !tx.is_coinbase() {
                    let ghost s_mid: Set<(Seq<char>, int)> = spent_set(spent@);
                    let ghost u_mid: Seq<UtxoEntryV> = entry_views(entries@);
                    let mut q: usize = 0;
                    while q < tx.vin.len()
                        invariant
                            q <= tx.vin@.len(),
                            txs[j as int] == tx@,
                            j < txs.len(),
                            !spec_is_coinbase(tx@),
                            entry_views(entries@) == u_mid,
                            spent_set(spent@) =~= s_mid + Set::new(
                                |p: (Seq<char>, int)|
                                    exists|i: int|
                                        0 <= i < q && p == (#[trigger] tx@.vin[i].txid, tx@.vin[
                                        i].vout),
                            ),
                        decreases tx.vin@.len() - q,
                    {
                        let ghost s_before: Set<(Seq<char>, int)> = spent_set(spent@);
                        let ghost pre_vec: Seq<SpentRef> = spent@;
                        spent.push(
                            SpentRef {
                                txid: tx.vin[q].txid.clone(),
                                vout: tx.vin[q].vout,
                            },
                        );
                        proof {
                            assert(spent_set(spent@) =~= s_before.insert(
                                (tx@.vin[q as int].txid, tx@.vin[q as int].vout),
                            )) by {
                                lemma_spent_push(spent@, (tx@.vin[q as int].txid, tx@.vin[
                                q as int].vout));
                                assert(spent@.drop_last() =~= pre_vec);
                            }
                            assert(spent_set(spent@) =~= s_mid + Set::new(
                                |p: (Seq<char>, int)|
                                    exists|i: int|
                                        0 <= i < q + 1 && p == (#[trigger] tx@.vin[i].txid, tx@.vin[
                                        i].vout),
                            ));
                        }
                        q = q + 1;
                    }
                    proof {
                        assert(spent_set(spent@) =~= s_mid + tx_spends(tx@));
                    }
                } else {
                    proof {
                        assert(spent_set(spent@) =~= spent_set(spent@) + tx_spends(tx@));
                    }
                }
                j = j + 1;
            }
            proof {
                assert(scan_txs(entry_views(entries@), spent_set(spent@), txs, txs.len() as int)
                    == (entry_views(entries@), spent_set(spent@)));
            }
        }
        proof {
            assert(scan_blocks(entry_views(entries@), spent_set(spent@), self@, 0) == (
            entry_views(entries@), spent_set(spent@)));
        }
        Ok(entries)
    }
}

/// Pushing a reference adds exactly its pair to the set.
proof fn lemma_spent_push(v: Seq<SpentRef>, p: (Seq<char>, int))
    requires
        v.len() > 0,
        (v.last().txid@, v.last().vout as int) == p,
    ensures
        spent_set(v) =~= spent_set(v.drop_last()).insert(p),
{
    assert forall|x: (Seq<char>, int)| spent_set(v).contains(x) implies spent_set(
        v.drop_last(),
    ).insert(p).contains(x) by {
        let k = choose|k: int|
            0 <= k < v.len() && x == ((#[trigger] v[k]).txid@, v[k].vout as int);
        if k < v.len() - 1 {
            assert(v.drop_last()[k] == v[k]);
            assert(spent_set(v.drop_last()).contains(x));
        }
    }
    assert forall|x: (Seq<char>, int)| spent_set(v.drop_last()).insert(p).contains(x)
        implies spent_set(v).contains(x) by {
        if x == p {
            assert(x == ((v[v.len() - 1]).txid@, v[v.len() - 1].vout as int));
        } else {
            let k = choose|k: int|
                0 <= k < v.drop_last().len() && x == ((#[trigger] v.drop_last()[k]).txid@,
                v.drop_last()[k].vout as int);
            assert(v.drop_last()[k] == v[k]);
        }
    }
}

/// Mathematical form of a spendable-output reference.
pub ghost struct OutRefV {
    pub txid: Seq<char>,
    pub vout: int,
}

/// A spendable output: the transaction and original output index to spend.
pub struct OutRef {
    pub txid: String,
    pub vout: usize,
}

impl View for OutRef {
    type V = OutRefV;

    open spec fn view(&self) -> OutRefV {
        OutRefV { txid: self.txid@, vout: self.vout as int }
    }
}

/// The views of a sequence of references.
pub open spec fn ref_views(v: Seq<OutRef>) -> Seq<OutRefV> {
    Seq::new(v.len(), |i: int| v[i]@)
}

/// Every output value in the index is non-negative, as valid chains demand.
pub open spec fn utxo_values_ok(u: Seq<UtxoEntryV>) -> bool {
    forall|e: int, k: int|
        0 <= e < u.len() && 0 <= k < u[e].outs.len() ==> (#[trigger] u[e].outs[k]).out.value >= 0
}

/// Spend selection over one entry's outputs from position `k`: take outputs
/// locked to `ph` while the accumulated value is below `amount`.
pub open spec fn scan_spend_outs(
    acc: int,
    refs: Seq<OutRefV>,
    txid: Seq<char>,
    outs: Seq<IdxOutV>,
    k: int,
    ph: Seq<char>,
    amount: int,
) -> (int, Seq<OutRefV>)
    decreases outs.len() - k,
{
    if k < 0 || k >= outs.len() {
        (acc, refs)
    } else if outs[k].out.pubkey_hash == ph && acc < amount {
        scan_spend_outs(
            acc + outs[k].out.value,
            refs.push(OutRefV { txid: txid, vout: outs[k].idx }),
            txid,
            outs,
            k + 1,
            ph,
            amount,
        )
    } else {
        scan_spend_outs(acc, refs, txid, outs, k + 1, ph, amount)
    }
}

/// Spend selection over the index entries from position `e`.
pub open spec fn scan_spend(
    acc: int,
    refs: Seq<OutRefV>,
    u: Seq<UtxoEntryV>,
    e: int,
    ph: Seq<char>,
    amount: int,
) -> (int, Seq<OutRefV>)
    decreases u.len() - e,
{
    if e < 0 || e >= u.len() {
        (acc, refs)
    } else {
        let r = scan_spend_outs(acc, refs, u[e].txid, u[e].outs, 0, ph, amount);
        scan_spend(r.0, r.1, u, e + 1, ph, amount)
    }
}

/// What spend selection yields on an index.
pub open spec fn spec_spendable(u: Seq<UtxoEntryV>, ph: Seq<char>, amount: int) -> (
    int,
    Seq<OutRefV>,
) {
    scan_spend(0, Seq::empty(), u, 0, ph, amount)
}

/// All outputs locked to `ph` across the index, in index order.
pub open spec fn spec_utxo_for(u: Seq<UtxoEntryV>, ph: Seq<char>) -> Seq<TxOutV>
    decreases u.len(),
{
    if u.len() == 0 {
        Seq::empty()
    } else {
        spec_utxo_for(u.drop_last(), ph) + spec_outs_for(u.last().outs, ph)
    }
}

/// The outputs among `outs` locked to `ph`, in order.
pub open spec fn spec_outs_for(outs: Seq<IdxOutV>, ph: Seq<char>) -> Seq<TxOutV>
    decreases outs.len(),
{
    if outs.len() == 0 {
        Seq::empty()
    } else {
        let rest = spec_outs_for(outs.drop_last(), ph);
        if outs.last().out.pubkey_hash == ph {
            rest.push(outs.last().out)
        } else {
            rest
        }
    }
}

/// The kept outputs of one entry after spending its output at `vout`.
pub open spec fn outs_without(outs: Seq<IdxOutV>, vout: int) -> Seq<IdxOutV>
    decreases outs.len(),
{
    if outs.len() == 0 {
        Seq::empty()
    } else {
        let p = outs_without(outs.drop_last(), vout);
        if outs.last().idx == vout {
            p
        } else {
            p.push(outs.last())
        }
    }
}

/// The index after one input's referenced output is spent: the pair leaves
/// its entry, and an emptied entry leaves the index.
pub open spec fn spec_remove_out(u: Seq<UtxoEntryV>, txid: Seq<char>, vout: int) -> Seq<
    UtxoEntryV,
> {
    let j = entry_idx(u, txid);
    if j < 0 {
        u
    } else {
        let kept = outs_without(u[j].outs, vout);
        if kept.len() == 0 {
            u.remove(j)
        } else {
            u.update(j, UtxoEntryV { txid: u[j].txid, outs: kept })
        }
    }
}

/// The index after all of one transaction's inputs from position `i` spend.
pub open spec fn spec_apply_inputs(u: Seq<UtxoEntryV>, t: TxV, i: int) -> Seq<UtxoEntryV>
    decreases t.vin.len() - i,
{
    if i < 0 || i >= t.vin.len() {
        u
    } else {
        spec_apply_inputs(spec_remove_out(u, t.vin[i].txid, t.vin[i].vout), t, i + 1)
    }
}

/// The complete output list of a transaction, each with its position.
pub open spec fn full_outs(vout: Seq<TxOutV>) -> Seq<IdxOutV> {
    Seq::new(vout.len(), |k: int| IdxOutV { idx: k, out: vout[k] })
}

/// Writes a transaction's entry, replacing any entry under the same id.
pub open spec fn spec_set_entry(u: Seq<UtxoEntryV>, txid: Seq<char>, outs: Seq<IdxOutV>) -> Seq<
    UtxoEntryV,
> {
    let j = entry_idx(u, txid);
    if j < 0 {
        u.push(UtxoEntryV { txid: txid, outs: outs })
    } else {
        u.update(j, UtxoEntryV { txid: txid, outs: outs })
    }
}

/// The index after one transaction of an applied block: its inputs spend
/// (unless it is a coinbase), then its own outputs are written whole.
pub open spec fn spec_apply_tx(u: Seq<UtxoEntryV>, t: TxV) -> Seq<UtxoEntryV> {
    let u2 = if spec_is_coinbase(t) {
        u
    } else {
        spec_apply_inputs(u, t, 0)
    };
    spec_set_entry(u2, t.id, full_outs(t.vout))
}

/// The index after a block's transactions from position `j`.
pub open spec fn spec_apply_block(u: Seq<UtxoEntryV>, txs: Seq<TxV>, j: int) -> Seq<UtxoEntryV>
    decreases txs.len() - j,
{
    if j < 0 || j >= txs.len() {
        u
    } else {
        spec_apply_block(spec_apply_tx(u, txs[j]), txs, j + 1)
    }
}

/// The UTXO index beside the chain it is derived from.
pub struct UTXOSet {
    pub bc: Blockchain,
    pub entries: Vec<UtxoEntry>,
}

impl UTXOSet {
    /// Wraps a chain with an empty index; `reindex` fills it.
    pub fn new(bc: Blockchain) -> (r: Self)
        ensures
            r.bc@ == bc@,
            entry_views(r.entries@) =~= Seq::<UtxoEntryV>::empty(),
    {
        UTXOSet { bc, entries: Vec::new() }
    }

    /// Rebuilds the index from the chain: afterward it equals the chain scan.
    pub fn reindex(&mut self) -> (r: Result<(), ChainError>)
        ensures
            r is Ok,
            final(self).bc@ == old(self).bc@,
            entry_views(final(self).entries@) == spec_chain_utxo(old(self).bc@),
    {
        let fresh = match self.bc.find_utxo() {
            Ok(v) => v,
            Err(_) => vstd::pervasive::unreached(),
        };
        self.entries = fresh;
        Ok(())
    }

    /// Selects outputs locked to `pubkey_hash` until `amount` is reached:
    /// the accumulated value and the references to spend. The accumulated
    /// value falls short of `amount` exactly when the whole balance does;
    /// an accumulation beyond the machine range fails.
    pub fn find_spentable_outputs(&self, pubkey_hash: &str, amount: isize) -> (r: Result<
        (isize, Vec<OutRef>),
        ChainError,
    >)
        requires
            utxo_values_ok(entry_views(self.entries@)),
            amount >= 0,
        ensures
            spec_spendable(entry_views(self.entries@), pubkey_hash@, amount as int).0
                <= isize::MAX ==> (r matches Ok(t) && t.0 as int == spec_spendable(
                entry_views(self.entries@),
                pubkey_hash@,
                amount as int,
            ).0 && ref_views(t.1@) == spec_spendable(
                entry_views(self.entries@),
                pubkey_hash@,
                amount as int,
            ).1),
            spec_spendable(entry_views(self.entries@), pubkey_hash@, amount as int).0
                > isize::MAX ==> r == Err::<(isize, Vec<OutRef>), ChainError>(ChainError::IoError),
    {
        let ghost uv: Seq<UtxoEntryV> = entry_views(self.entries@);
        let mut acc: i128 = 0;
        let mut refs: Vec<OutRef> = Vec::new();
        proof {
            assert(ref_views(refs@) =~= Seq::<OutRefV>::empty());
        }
        let mut e: usize = 0;
        while e < self.entries.len()
            invariant
                e <= self.entries@.len(),
                uv == entry_views(self.entries@),
                utxo_values_ok(uv),
                amount >= 0,
                0 <= acc,
                acc as int <= amount + isize::MAX,
                scan_spend(acc as int, ref_views(refs@), uv, e as int, pubkey_hash@, amount as int)
                    == spec_spendable(uv, pubkey_hash@, amount as int),
            decreases self.entries@.len() - e,
        {
            let entry = &self.entries[e];
            let ghost acc_enter: int = acc as int;
            let ghost refs_enter: Seq<OutRefV> = ref_views(refs@);
            let ghost eouts: Seq<IdxOutV> = uv[e as int].outs;
            proof {
                assert(entry@ == uv[e as int]);
            }
            let mut k: usize = 0;
            while k < entry.outs.len()
                invariant
                    k <= entry.outs@.len(),
                    entry@ == uv[e as int],
                    e < uv.len(),
                    eouts == uv[e as int].outs,
                    utxo_values_ok(uv),
                    amount >= 0,
                    0 <= acc,
                    acc as int <= amount + isize::MAX,
                    scan_spend_outs(
                        acc as int,
                        ref_views(refs@),
                        uv[e as int].txid,
                        eouts,
                        k as int,
                        pubkey_hash@,
                        amount as int,
                    ) == scan_spend_outs(
                        acc_enter,
                        refs_enter,
                        uv[e as int].txid,
                        eouts,
                        0,
                        pubkey_hash@,
                        amount as int,
                    ),
                decreases entry.outs@.len() - k,
            {
                proof {
                    assert(eouts[k as int] == entry.outs@[k as int]@);
                    assert(eouts[k as int].out.value >= 0);
                }
                if entry.outs[k].output.is_locked_with_key(pubkey_hash) && acc < amount as i128 {
                    let ghost pre_refs: Seq<OutRefV> = ref_views(refs@);
                    acc = acc + entry.outs[k].output.value as i128;
                    refs.push(OutRef { txid: entry.txid.clone(), vout: entry.outs[k].idx });
                    proof {
                        assert(ref_views(refs@) =~= pre_refs.push(
                            OutRefV { txid: uv[e as int].txid, vout: eouts[k as int].idx },
                        ));
                    }
                }
                k = k + 1;
            }
            e = e + 1;
        }
        proof {
            assert(scan_spend(
                acc as int,
                ref_views(refs@),
                uv,
                uv.len() as int,
                pubkey_hash@,
                amount as int,
            ) == (acc as int, ref_views(refs@)));
        }
        if acc > isize::MAX as i128 {
            return Err(ChainError::IoError);
        }
        Ok((acc as isize, refs))
    }

    /// All outputs locked to `pubkey_hash`, in index order.
    pub fn find_utxo(&self, pubkey_hash: &str) -> (r: Result<Vec<TxOutput>, ChainError>)
        ensures
            r matches Ok(v) && crate::codec::txout_views(v@) == spec_utxo_for(
                entry_views(self.entries@),
                pubkey_hash@,
            ),
    {
        let ghost uv: Seq<UtxoEntryV> = entry_views(self.entries@);
        let mut out: Vec<TxOutput> = Vec::new();
        let mut e: usize = 0;
        proof {
            assert(crate::codec::txout_views(out@) =~= spec_utxo_for(
                uv.take(0),
                pubkey_hash@,
            ));
        }
        while e < self.entries.len()
            invariant
                e <= self.entries@.len(),
                uv == entry_views(self.entries@),
                crate::codec::txout_views(out@) == spec_utxo_for(uv.take(e as int), pubkey_hash@),
            decreases self.entries@.len() - e,
        {
            let entry = &self.entries[e];
            let ghost base: Seq<TxOutV> = crate::codec::txout_views(out@);
            let ghost eouts: Seq<IdxOutV> = uv[e as int].outs;
            proof {
                assert(entry@ == uv[e as int]);
            }
            let mut k: usize = 0;
            while k < entry.outs.len()
                invariant
                    k <= entry.outs@.len(),
                    entry@ == uv[e as int],
                    e < uv.len(),
                    eouts == uv[e as int].outs,
                    crate::codec::txout_views(out@) == base + spec_outs_for(
                        eouts.take(k as int),
                        pubkey_hash@,
                    ),
                decreases entry.outs@.len() - k,
            {
                proof {
                    assert(eouts[k as int] == entry.outs@[k as int]@);
                    assert(eouts.take(k + 1).drop_last() =~= eouts.take(k as int));
                    assert(eouts.take(k + 1).last() == eouts[k as int]);
                }
                let ghost pre_vec: Seq<TxOutput> = out@;
                if entry.outs[k].output.is_locked_with_key(pubkey_hash) {
                    out.push(entry.outs[k].output.clone());
                    proof {
                        assert(spec_outs_for(eouts.take(k + 1), pubkey_hash@) == spec_outs_for(
                            eouts.take(k as int),
                            pubkey_hash@,
                        ).push(eouts[k as int].out));
                        assert(out@.last()@ == eouts[k as int].out);
                        assert(crate::codec::txout_views(out@) =~= crate::codec::txout_views(
                            pre_vec,
                        ).push(eouts[k as int].out));
                        assert((base + spec_outs_for(eouts.take(k as int), pubkey_hash@)).push(
                            eouts[k as int].out,
                        ) =~= base + spec_outs_for(eouts.take(k as int), pubkey_hash@).push(
                            eouts[k as int].out,
                        ));
                        assert(crate::codec::txout_views(out@) =~= base + spec_outs_for(
                            eouts.take(k + 1),
                            pubkey_hash@,
                        ));
                    }
                } else {
                    proof {
                        assert(spec_outs_for(eouts.take(k + 1), pubkey_hash@) == spec_outs_for(
                            eouts.take(k as int),
                            pubkey_hash@,
                        ));
                        assert(crate::codec::txout_views(out@) =~= base + spec_outs_for(
                            eouts.take(k + 1),
                            pubkey_hash@,
                        ));
                    }
                }
                k = k + 1;
            }
            proof {
                assert(eouts.take(eouts.len() as int) =~= eouts);
                assert(uv.take(e + 1).drop_last() =~= uv.take(e as int));
                assert(uv.take(e + 1).last() == uv[e as int]);
            }
            e = e + 1;
        }
        proof {
            assert(uv.take(uv.len() as int) =~= uv);
        }
        Ok(out)
    }
}

/// Spends one referenced output in the live index.
fn remove_out(entries: &mut Vec<UtxoEntry>, txid: &str, vout: isize)
    ensures
        entry_views(final(entries)@) == spec_remove_out(
            entry_views(old(entries)@),
            txid@,
            vout as int,
        ),
{
    let ghost before: Seq<UtxoEntryV> = entry_views(entries@);
    let j = match find_entry(entries, txid) {
        Some(j) => j,
        None => {
            return ;
        },
    };
    let entry = &entries[j];
    let ghost eouts: Seq<IdxOutV> = before[j as int].outs;
    proof {
        assert(entry@ == before[j as int]);
    }
    let mut kept: Vec<IndexedOutput> = Vec::new();
    let mut k: usize = 0;
    proof {
        assert(Seq::new(kept@.len(), |i: int| kept@[i]@) =~= outs_without(eouts.take(0), vout as int));
    }
    while k < entry.outs.len()
        invariant
            k <= entry.outs@.len(),
            j < entries@.len(),
            entry == entries@[j as int],
            entry@ == before[j as int],
            eouts == before[j as int].outs,
            Seq::new(kept@.len(), |i: int| kept@[i]@) == outs_without(
                eouts.take(k as int),
                vout as int,
            ),
        decreases entry.outs@.len() - k,
    {
        proof {
            assert(eouts[k as int] == entry.outs@[k as int]@);
            assert(eouts.take(k + 1).drop_last() =~= eouts.take(k as int));
            assert(eouts.take(k + 1).last() == eouts[k as int]);
        }
        let ghost prek: Seq<IndexedOutput> = kept@;
        if vout >= 0 && entry.outs[k].idx == vout as usize {
            proof {
                assert(eouts[k as int].idx == vout as int);
                assert(Seq::new(kept@.len(), |i: int| kept@[i]@) =~= outs_without(
                    eouts.take(k + 1),
                    vout as int,
                ));
            }
        } else {
            kept.push(entry.outs[k].clone());
            proof {
                assert(eouts[k as int].idx != vout as int);
                assert(Seq::new(kept@.len(), |i: int| kept@[i]@) =~= outs_without(
                    eouts.take(k as int),
                    vout as int,
                ).push(eouts[k as int]));
                assert(Seq::new(kept@.len(), |i: int| kept@[i]@) =~= outs_without(
                    eouts.take(k + 1),
                    vout as int,
                ));
            }
        }
        k = k + 1;
    }
    proof {
        assert(eouts.take(eouts.len() as int) =~= eouts);
    }
    if kept.len() == 0 {
        entries.remove(j);
        proof {
            assert(entry_views(entries@) =~= before.remove(j as int));
        }
    } else {
        let txid_copy = entries[j].txid.clone();
        entries.set(j, UtxoEntry { txid: txid_copy, outs: kept });
        proof {
            assert(entry_views(entries@)[j as int].outs =~= outs_without(eouts, vout as int));
            assert(entry_views(entries@) =~= before.update(
                j as int,
                UtxoEntryV { txid: before[j as int].txid, outs: outs_without(eouts, vout as int) },
            ));
        }
    }
}

/// Writes a transaction's complete output list as its entry.
fn set_entry(entries: &mut Vec<UtxoEntry>, tx: &Transaction)
    ensures
        entry_views(final(entries)@) == spec_set_entry(
            entry_views(old(entries)@),
            tx@.id,
            full_outs(tx@.vout),
        ),
{
    let ghost before: Seq<UtxoEntryV> = entry_views(entries@);
    let mut outs: Vec<IndexedOutput> = Vec::new();
    let mut k: usize = 0;
    while k < tx.vout.len()
        invariant
            k <= tx.vout@.len(),
            outs@.len() == k,
            forall|i: int| 0 <= i < k ==> #[trigger] outs@[i]@ == full_outs(tx@.vout)[i],
        decreases tx.vout@.len() - k,
    {
        outs.push(IndexedOutput { idx: k, output: tx.vout[k].clone() });
        proof {
            assert(outs@.last()@ == full_outs(tx@.vout)[k as int]);
        }
        k = k + 1;
    }
    proof {
        assert(Seq::new(outs@.len(), |i: int| outs@[i]@) =~= full_outs(tx@.vout));
    }
    match find_entry(entries, tx.id.as_str()) {
        Some(j) => {
            let txid_copy = entries[j].txid.clone();
            proof {
                lemma_entry_idx(before, tx@.id);
            }
            entries.set(j, UtxoEntry { txid: txid_copy, outs });
            proof {
                assert(entry_views(entries@) =~= spec_set_entry(
                    before,
                    tx@.id,
                    full_outs(tx@.vout),
                ));
            }
        },
        None => {
            entries.push(UtxoEntry { txid: tx.id.clone(), outs });
            proof {
                assert(entry_views(entries@) =~= spec_set_entry(
                    before,
                    tx@.id,
                    full_outs(tx@.vout),
                ));
            }
        },
    }
}

impl UTXOSet {
    /// Applies one block to the index: every non-coinbase input spends the
    /// output it references, then each transaction's own outputs are written.
    pub fn update(&mut self, block: Block) -> (r: Result<(), ChainError>)
        ensures
            r is Ok,
            final(self).bc@ == old(self).bc@,
            entry_views(final(self).entries@) == spec_apply_block(
                entry_views(old(self).entries@),
                crate::block::tx_views(block.transactions@),
                0,
            ),
    {
        let ghost txs: Seq<TxV> = crate::block::tx_views(block.transactions@);
        let mut j: usize = 0;
        while j < block.transactions.len()
            invariant
                j <= block.transactions@.len(),
                txs == crate::block::tx_views(block.transactions@),
                self.bc@ == old(self).bc@,
                spec_apply_block(entry_views(self.entries@), txs, j as int) == spec_apply_block(
                    entry_views(old(self).entries@),
                    txs,
                    0,
                ),
            decreases block.transactions@.len() - j,
        {
            let tx = &block.transactions[j];
            proof {
                assert(txs[j as int] == tx@);
            }
            let ghost u_tx: Seq<UtxoEntryV> = entry_views(self.entries@);
            if !tx.is_coinbase() {
                let mut q: usize = 0;
                while q < tx.vin.len()
                    invariant
                        q <= tx.vin@.len(),
                        txs[j as int] == tx@,
                        self.bc@ == old(self).bc@,
                        spec_apply_inputs(entry_views(self.entries@), tx@, q as int)
                            == spec_apply_inputs(u_tx, tx@, 0),
                    decreases tx.vin@.len() - q,
                {
                    remove_out(&mut self.entries, tx.vin[q].txid.as_str(), tx.vin[q].vout);
                    q = q + 1;
                }
            }
            set_entry(&mut self.entries, tx);
            j = j + 1;
        }
        Ok(())
    }
}

/// The total value of one entry's kept outputs.
pub open spec fn outs_total(outs: Seq<IdxOutV>) -> int
    decreases outs.len(),
{
    if outs.len() == 0 {
        0
    } else {
        outs_total(outs.drop_last()) + outs.last().out.value
    }
}

/// The total value the whole index holds.
pub open spec fn utxo_total(u: Seq<UtxoEntryV>) -> int
    decreases u.len(),
{
    if u.len() == 0 {
        0
    } else {
        utxo_total(u.drop_last()) + outs_total(u.last().outs)
    }
}

/// The total value of a transaction's own outputs.
pub open spec fn txout_total(vout: Seq<TxOutV>) -> int
    decreases vout.len(),
{
    if vout.len() == 0 {
        0
    } else {
        txout_total(vout.drop_last()) + vout.last().value
    }
}

/// The total value an entry loses when its output at `vout` is spent.
pub open spec fn matching_total(outs: Seq<IdxOutV>, vout: int) -> int
    decreases outs.len(),
{
    if outs.len() == 0 {
        0
    } else {
        matching_total(outs.drop_last(), vout) + (if outs.last().idx == vout {
            outs.last().out.value
        } else {
            0
        })
    }
}

/// The value one spend takes out of the index.
pub open spec fn removed_value(u: Seq<UtxoEntryV>, txid: Seq<char>, vout: int) -> int {
    let j = entry_idx(u, txid);
    if j < 0 {
        0
    } else {
        matching_total(u[j].outs, vout)
    }
}

/// The value a transaction's inputs from position `i` take out, spending in
/// order.
pub open spec fn inputs_removed_total(u: Seq<UtxoEntryV>, t: TxV, i: int) -> int
    decreases t.vin.len() - i,
{
    if i < 0 || i >= t.vin.len() {
        0
    } else {
        removed_value(u, t.vin[i].txid, t.vin[i].vout) + inputs_removed_total(
            spec_remove_out(u, t.vin[i].txid, t.vin[i].vout),
            t,
            i + 1,
        )
    }
}

/// Spending an output takes exactly the matching value out of the kept list.
proof fn lemma_outs_without_total(outs: Seq<IdxOutV>, vout: int)
    ensures
        outs_total(outs_without(outs, vout)) == outs_total(outs) - matching_total(outs, vout),
    decreases outs.len(),
{
    if outs.len() > 0 {
        lemma_outs_without_total(outs.drop_last(), vout);
        if outs.last().idx == vout {
        } else {
            assert(outs_without(outs, vout).drop_last() =~= outs_without(
                outs.drop_last(),
                vout,
            ));
        }
    }
}

/// Replacing one entry changes the total by the difference of its outputs.
proof fn lemma_total_update(u: Seq<UtxoEntryV>, j: int, e: UtxoEntryV)
    requires
        0 <= j < u.len(),
    ensures
        utxo_total(u.update(j, e)) == utxo_total(u) - outs_total(u[j].outs) + outs_total(e.outs),
    decreases u.len(),
{
    if j == u.len() - 1 {
        assert(u.update(j, e).drop_last() =~= u.drop_last());
        assert(u.update(j, e).last() == e);
    } else {
        assert(u.update(j, e).drop_last() =~= u.drop_last().update(j, e));
        assert(u.update(j, e).last() == u.last());
        lemma_total_update(u.drop_last(), j, e);
        assert(u.drop_last()[j] == u[j]);
    }
}

/// Dropping one entry takes its whole output total out.
proof fn lemma_total_remove(u: Seq<UtxoEntryV>, j: int)
    requires
        0 <= j < u.len(),
    ensures
        utxo_total(u.remove(j)) == utxo_total(u) - outs_total(u[j].outs),
    decreases u.len(),
{
    if j == u.len() - 1 {
        assert(u.remove(j) =~= u.drop_last());
    } else {
        assert(u.remove(j).drop_last() =~= u.drop_last().remove(j));
        assert(u.remove(j).last() == u.last());
        lemma_total_remove(u.drop_last(), j);
        assert(u.drop_last()[j] == u[j]);
    }
}

/// Appending one entry adds its whole output total.
proof fn lemma_total_push(u: Seq<UtxoEntryV>, e: UtxoEntryV)
    ensures
        utxo_total(u.push(e)) == utxo_total(u) + outs_total(e.outs),
{
    assert(u.push(e).drop_last() =~= u);
    assert(u.push(e).last() == e);
}

/// One spend takes exactly its removed value out of the index total.
pub proof fn lemma_remove_out_total(u: Seq<UtxoEntryV>, txid: Seq<char>, vout: int)
    ensures
        utxo_total(spec_remove_out(u, txid, vout)) == utxo_total(u) - removed_value(
            u,
            txid,
            vout,
        ),
{
    let j = entry_idx(u, txid);
    if j >= 0 {
        lemma_entry_idx(u, txid);
        lemma_outs_without_total(u[j].outs, vout);
        let kept = outs_without(u[j].outs, vout);
        if kept.len() == 0 {
            lemma_total_remove(u, j);
            lemma_outs_total_empty(kept);
        } else {
            lemma_total_update(u, j, UtxoEntryV { txid: u[j].txid, outs: kept });
        }
    }
}

/// An empty kept list holds no value.
proof fn lemma_outs_total_empty(outs: Seq<IdxOutV>)
    requires
        outs.len() == 0,
    ensures
        outs_total(outs) == 0,
{
}

/// A transaction's inputs take exactly their removed values out, in order.
pub proof fn lemma_apply_inputs_total(u: Seq<UtxoEntryV>, t: TxV, i: int)
    requires
        0 <= i <= t.vin.len(),
    ensures
        utxo_total(spec_apply_inputs(u, t, i)) == utxo_total(u) - inputs_removed_total(u, t, i),
    decreases t.vin.len() - i,
{
    if i < t.vin.len() {
        lemma_remove_out_total(u, t.vin[i].txid, t.vin[i].vout);
        lemma_apply_inputs_total(spec_remove_out(u, t.vin[i].txid, t.vin[i].vout), t, i + 1);
    }
}

/// A transaction's own entry holds exactly its outputs' total.
pub proof fn lemma_full_outs_total(vout: Seq<TxOutV>)
    ensures
        outs_total(full_outs(vout)) == txout_total(vout),
    decreases vout.len(),
{
    if vout.len() > 0 {
        assert(full_outs(vout).drop_last() =~= full_outs(vout.drop_last()));
        lemma_full_outs_total(vout.drop_last());
    }
}

/// What applying one transaction does to the value the index holds: its
/// inputs take their referenced values out and its own outputs come in whole.
/// When the two sides weigh the same, the total is conserved: no value is
/// created or destroyed beyond what a coinbase mints.
pub proof fn law_value_conservation(u: Seq<UtxoEntryV>, t: TxV)
    requires
        !spec_is_coinbase(t),
        entry_idx(spec_apply_inputs(u, t, 0), t.id) < 0,
    ensures
        utxo_total(spec_apply_tx(u, t)) == utxo_total(u) - inputs_removed_total(u, t, 0)
            + txout_total(t.vout),
        inputs_removed_total(u, t, 0) == txout_total(t.vout) ==> utxo_total(spec_apply_tx(u, t))
            == utxo_total(u),
{
    lemma_apply_inputs_total(u, t, 0);
    lemma_full_outs_total(t.vout);
    let u2 = spec_apply_inputs(u, t, 0);
    lemma_total_push(u2, UtxoEntryV { txid: t.id, outs: full_outs(t.vout) });
}

impl UTXOSet {
    /// Whether every stored output value is non-negative, as valid chains
    /// demand of the index.
    pub fn values_ok(&self) -> (r: bool)
        ensures
            r == utxo_values_ok(entry_views(self.entries@)),
    {
        let ghost uv: Seq<UtxoEntryV> = entry_views(self.entries@);
        let mut e: usize = 0;
        while e < self.entries.len()
            invariant
                e <= self.entries@.len(),
                uv == entry_views(self.entries@),
                forall|a: int, k: int|
                    0 <= a < e && 0 <= k < uv[a].outs.len() ==> (#[trigger] uv[a].outs[
                    k]).out.value >= 0,
            decreases self.entries@.len() - e,
        {
            let entry = &self.entries[e];
            proof {
                assert(entry@ == uv[e as int]);
            }
            let mut k: usize = 0;
            while k < entry.outs.len()
                invariant
                    k <= entry.outs@.len(),
                    e < uv.len(),
                    uv == entry_views(self.entries@),
                    entry@ == uv[e as int],
                    forall|q: int| 0 <= q < k ==> (#[trigger] uv[e as int].outs[q]).out.value >= 0,
                decreases entry.outs@.len() - k,
            {
                proof {
                    assert(uv[e as int].outs[k as int] == entry.outs@[k as int]@);
                }
                if entry.outs[k].output.value < 0 {
                    proof {
                        assert(!utxo_values_ok(uv));
                    }
                    return false;
                }
                k = k + 1;
            }
            e = e + 1;
        }
        true
    }
}

/// No two index entries share a transaction id.
pub open spec fn utxo_ids_unique(u: Seq<UtxoEntryV>) -> bool {
    forall|a: int, b: int|
        0 <= a < b < u.len() ==> (#[trigger] u[a]).txid != (#[trigger] u[b]).txid
}

/// Within each entry, the kept output positions are pairwise distinct.
pub open spec fn utxo_idx_distinct(u: Seq<UtxoEntryV>) -> bool {
    forall|e: int, k1: int, k2: int|
        0 <= e < u.len() && 0 <= k1 < k2 < u[e].outs.len() ==> (#[trigger] u[e].outs[k1]).idx != (
        #[trigger] u[e].outs[k2]).idx
}

/// The key-value shape the index is meant to keep: one entry per id, one
/// kept output per position.
pub open spec fn utxo_wf(u: Seq<UtxoEntryV>) -> bool {
    utxo_ids_unique(u) && utxo_idx_distinct(u)
}

/// Whether some kept output of the list stands at position `x`.
pub open spec fn outs_has_idx(outs: Seq<IdxOutV>, x: int) -> bool {
    exists|k: int| 0 <= k < outs.len() && (#[trigger] outs[k]).idx == x
}

/// Pairwise-distinct positions within one list.
pub open spec fn outs_distinct(outs: Seq<IdxOutV>) -> bool {
    forall|k1: int, k2: int|
        0 <= k1 < k2 < outs.len() ==> (#[trigger] outs[k1]).idx != (#[trigger] outs[k2]).idx
}

/// Spending keeps the positions distinct and introduces none.
proof fn lemma_outs_without_distinct(outs: Seq<IdxOutV>, v: int)
    requires
        outs_distinct(outs),
    ensures
        outs_distinct(outs_without(outs, v)),
        forall|x: int| #[trigger] outs_has_idx(outs_without(outs, v), x) ==> outs_has_idx(outs, x)
            && x != v,
    decreases outs.len(),
{
    if outs.len() > 0 {
        let head = outs.drop_last();
        assert(outs_distinct(head)) by {
            assert(forall|k1: int, k2: int|
                0 <= k1 < k2 < head.len() ==> head[k1] == outs[k1] && head[k2] == outs[k2]);
        }
        lemma_outs_without_distinct(head, v);
        assert forall|x: int| #[trigger] outs_has_idx(head, x) implies outs_has_idx(outs, x) by {
            let k = choose|k: int| 0 <= k < head.len() && (#[trigger] head[k]).idx == x;
            assert(outs[k] == head[k]);
        }
        if outs.last().idx == v {
        } else {
            let p = outs_without(head, v);
            let w = p.push(outs.last());
            assert forall|k1: int, k2: int| 0 <= k1 < k2 < w.len() implies (#[trigger] w[k1]).idx
                != (#[trigger] w[k2]).idx by {
                if k2 == w.len() - 1 {
                    assert(w[k1] == p[k1]);
                    assert(outs_has_idx(p, p[k1].idx));
                    assert(outs_has_idx(head, p[k1].idx));
                    let k = choose|k: int| 0 <= k < head.len() && (#[trigger] head[k]).idx == p[
                    k1].idx;
                    assert(outs[k] == head[k]);
                    assert(outs[k].idx != outs.last().idx);
                } else {
                    assert(w[k1] == p[k1] && w[k2] == p[k2]);
                }
            }
            assert forall|x: int| #[trigger] outs_has_idx(w, x) implies outs_has_idx(outs, x) && x
                != v by {
                let k = choose|k: int| 0 <= k < w.len() && (#[trigger] w[k]).idx == x;
                if k < w.len() - 1 {
                    assert(w[k] == p[k]);
                    assert(outs_has_idx(p, x));
                } else {
                    assert(w[k] == outs.last());
                    assert(outs[outs.len() - 1].idx == x);
                }
            }
        }
    }
}

/// Dropping one entry keeps ids unique and positions distinct.
proof fn lemma_wf_remove(u: Seq<UtxoEntryV>, j: int)
    requires
        utxo_wf(u),
        0 <= j < u.len(),
    ensures
        utxo_wf(u.remove(j)),
{
    let w = u.remove(j);
    assert forall|a: int, b: int| 0 <= a < b < w.len() implies (#[trigger] w[a]).txid != (
    #[trigger] w[b]).txid by {
        let a0 = if a < j { a } else { a + 1 };
        let b0 = if b < j { b } else { b + 1 };
        assert(w[a] == u[a0] && w[b] == u[b0]);
    }
    assert forall|e: int, k1: int, k2: int|
        0 <= e < w.len() && 0 <= k1 < k2 < w[e].outs.len() implies (#[trigger] w[e].outs[k1]).idx
        != (#[trigger] w[e].outs[k2]).idx by {
        let e0 = if e < j { e } else { e + 1 };
        assert(w[e] == u[e0]);
    }
}

/// Replacing one entry with distinct positions keeps the index well-formed.
proof fn lemma_wf_update(u: Seq<UtxoEntryV>, j: int, e: UtxoEntryV)
    requires
        utxo_wf(u),
        0 <= j < u.len(),
        e.txid == u[j].txid,
        outs_distinct(e.outs),
    ensures
        utxo_wf(u.update(j, e)),
{
    let w = u.update(j, e);
    assert forall|a: int, b: int| 0 <= a < b < w.len() implies (#[trigger] w[a]).txid != (
    #[trigger] w[b]).txid by {
        assert(u[a].txid != u[b].txid);
    }
    assert forall|q: int, k1: int, k2: int|
        0 <= q < w.len() && 0 <= k1 < k2 < w[q].outs.len() implies (#[trigger] w[q].outs[k1]).idx
        != (#[trigger] w[q].outs[k2]).idx by {
        if q != j {
            assert(w[q] == u[q]);
        }
    }
}

/// One spend keeps the index well-formed.
pub proof fn lemma_remove_out_wf(u: Seq<UtxoEntryV>, txid: Seq<char>, vout: int)
    requires
        utxo_wf(u),
    ensures
        utxo_wf(spec_remove_out(u, txid, vout)),
{
    let j = entry_idx(u, txid);
    if j >= 0 {
        lemma_entry_idx(u, txid);
        assert(outs_distinct(u[j].outs)) by {
            assert(forall|k1: int, k2: int|
                0 <= k1 < k2 < u[j].outs.len() ==> (#[trigger] u[j].outs[k1]).idx != (
                #[trigger] u[j].outs[k2]).idx);
        }
        lemma_outs_without_distinct(u[j].outs, vout);
        let kept = outs_without(u[j].outs, vout);
        if kept.len() == 0 {
            lemma_wf_remove(u, j);
        } else {
            lemma_wf_update(u, j, UtxoEntryV { txid: u[j].txid, outs: kept });
        }
    }
}

/// Writing a transaction's own entry keeps the index well-formed: the fresh
/// positions are zero up to the output count, pairwise distinct, and the id
/// either replaces its entry or was absent.
pub proof fn lemma_set_entry_wf(u: Seq<UtxoEntryV>, txid: Seq<char>, vout: Seq<TxOutV>)
    requires
        utxo_wf(u),
    ensures
        utxo_wf(spec_set_entry(u, txid, full_outs(vout))),
{
    let outs = full_outs(vout);
    assert(outs_distinct(outs));
    let j = entry_idx(u, txid);
    if j < 0 {
        lemma_entry_idx(u, txid);
        let w = u.push(UtxoEntryV { txid: txid, outs: outs });
        assert forall|a: int, b: int| 0 <= a < b < w.len() implies (#[trigger] w[a]).txid != (
        #[trigger] w[b]).txid by {
            if b < w.len() - 1 {
                assert(w[a] == u[a] && w[b] == u[b]);
            } else {
                assert(w[a] == u[a]);
            }
        }
        assert forall|e: int, k1: int, k2: int|
            0 <= e < w.len() && 0 <= k1 < k2 < w[e].outs.len() implies (#[trigger] w[e].outs[
        k1]).idx != (#[trigger] w[e].outs[k2]).idx by {
            if e < w.len() - 1 {
                assert(w[e] == u[e]);
            }
        }
    } else {
        lemma_entry_idx(u, txid);
        lemma_wf_update(u, j, UtxoEntryV { txid: txid, outs: outs });
        assert(spec_set_entry(u, txid, outs) == u.update(
            j,
            UtxoEntryV { txid: txid, outs: outs },
        ));
        assert(UtxoEntryV { txid: txid, outs: outs }.txid == u[j].txid);
    }
}

/// Applying a transaction's inputs keeps the index well-formed.
pub proof fn lemma_apply_inputs_wf(u: Seq<UtxoEntryV>, t: TxV, i: int)
    requires
        utxo_wf(u),
        0 <= i <= t.vin.len(),
    ensures
        utxo_wf(spec_apply_inputs(u, t, i)),
    decreases t.vin.len() - i,
{
    if i < t.vin.len() {
        lemma_remove_out_wf(u, t.vin[i].txid, t.vin[i].vout);
        lemma_apply_inputs_wf(spec_remove_out(u, t.vin[i].txid, t.vin[i].vout), t, i + 1);
    }
}

/// Applying a block keeps the index well-formed: ids stay unique and every
/// entry's kept positions stay distinct. This is the key-value shape the
/// index promises its readers, so spend selection never counts one output
/// twice on an index that started well-formed.
pub proof fn law_apply_block_wf(u: Seq<UtxoEntryV>, txs: Seq<TxV>, j: int)
    requires
        utxo_wf(u),
        0 <= j,
    ensures
        utxo_wf(spec_apply_block(u, txs, j)),
    decreases txs.len() - j,
{
    if j < txs.len() {
        let t = txs[j];
        if spec_is_coinbase(t) {
            lemma_set_entry_wf(u, t.id, t.vout);
        } else {
            lemma_apply_inputs_wf(u, t, 0);
            lemma_set_entry_wf(spec_apply_inputs(u, t, 0), t.id, t.vout);
        }
        law_apply_block_wf(spec_apply_tx(u, t), txs, j + 1);
    }
}

/// One recorded output keeps the chain scan's entry ids unique.
proof fn lemma_add_output_ids(u: Seq<UtxoEntryV>, txid: Seq<char>, idx: int, out: TxOutV)
    requires
        utxo_ids_unique(u),
    ensures
        utxo_ids_unique(add_output(u, txid, idx, out)),
{
    let j = entry_idx(u, txid);
    lemma_entry_idx(u, txid);
    if j < 0 {
        let w = u.push(UtxoEntryV { txid: txid, outs: seq![IdxOutV { idx, out }] });
        assert forall|a: int, b: int| 0 <= a < b < w.len() implies (#[trigger] w[a]).txid != (
        #[trigger] w[b]).txid by {
            if b < w.len() - 1 {
                assert(w[a] == u[a] && w[b] == u[b]);
            } else {
                assert(w[a] == u[a]);
            }
        }
    } else {
        let w = u.update(j, UtxoEntryV { txid: txid, outs: u[j].outs.push(IdxOutV { idx, out }) });
        assert forall|a: int, b: int| 0 <= a < b < w.len() implies (#[trigger] w[a]).txid != (
        #[trigger] w[b]).txid by {
            assert(u[a].txid != u[b].txid);
        }
    }
}

/// The output scan keeps entry ids unique.
proof fn lemma_scan_outputs_ids(
    u: Seq<UtxoEntryV>,
    spent: Set<(Seq<char>, int)>,
    txid: Seq<char>,
    vout: Seq<TxOutV>,
    k: int,
)
    requires
        utxo_ids_unique(u),
    ensures
        utxo_ids_unique(scan_outputs(u, spent, txid, vout, k)),
    decreases vout.len() - k,
{
    if 0 <= k < vout.len() {
        if spent.contains((txid, k)) {
            lemma_scan_outputs_ids(u, spent, txid, vout, k + 1);
        } else {
            lemma_add_output_ids(u, txid, k, vout[k]);
            lemma_scan_outputs_ids(add_output(u, txid, k, vout[k]), spent, txid, vout, k + 1);
        }
    }
}

/// The transaction scan keeps entry ids unique.
proof fn lemma_scan_txs_ids(
    u: Seq<UtxoEntryV>,
    spent: Set<(Seq<char>, int)>,
    txs: Seq<TxV>,
    j: int,
)
    requires
        utxo_ids_unique(u),
    ensures
        utxo_ids_unique(scan_txs(u, spent, txs, j).0),
    decreases txs.len() - j,
{
    if 0 <= j < txs.len() {
        lemma_scan_outputs_ids(u, spent, txs[j].id, txs[j].vout, 0);
        lemma_scan_txs_ids(
            scan_outputs(u, spent, txs[j].id, txs[j].vout, 0),
            spent + tx_spends(txs[j]),
            txs,
            j + 1,
        );
    }
}

/// The chain scan's result holds one entry per transaction id.
pub proof fn law_chain_utxo_ids_unique(c: Seq<BlockV>)
    ensures
        utxo_ids_unique(spec_chain_utxo(c)),
{
    lemma_scan_blocks_ids(Seq::empty(), Set::empty(), c, c.len() as int);
}

/// The block scan keeps entry ids unique.
proof fn lemma_scan_blocks_ids(
    u: Seq<UtxoEntryV>,
    spent: Set<(Seq<char>, int)>,
    c: Seq<BlockV>,
    bi: int,
)
    requires
        utxo_ids_unique(u),
    ensures
        utxo_ids_unique(scan_blocks(u, spent, c, bi).0),
    decreases bi,
{
    if bi > 0 {
        lemma_scan_txs_ids(u, spent, c[bi - 1].transactions, 0);
        let r = scan_txs(u, spent, c[bi - 1].transactions, 0);
        lemma_scan_blocks_ids(r.0, r.1, c, bi - 1);
    }
}

/// Whether every transaction of a block, applied in order, takes exactly as
/// much out of the index as its own outputs bring in, under an id the index
/// does not yet hold.
pub open spec fn block_conserving(u: Seq<UtxoEntryV>, txs: Seq<TxV>, j: int) -> bool
    decreases txs.len() - j,
{
    if j < 0 || j >= txs.len() {
        true
    } else {
        let t = txs[j];
        &&& !spec_is_coinbase(t)
        &&& entry_idx(spec_apply_inputs(u, t, 0), t.id) < 0
        &&& inputs_removed_total(u, t, 0) == txout_total(t.vout)
        &&& block_conserving(spec_apply_tx(u, t), txs, j + 1)
    }
}

/// Applying a whole block of conserving transactions leaves the total value
/// the index holds unchanged: no inflation beyond what a coinbase mints.
pub proof fn law_block_value_conservation(u: Seq<UtxoEntryV>, txs: Seq<TxV>, j: int)
    requires
        0 <= j,
        block_conserving(u, txs, j),
    ensures
        utxo_total(spec_apply_block(u, txs, j)) == utxo_total(u),
    decreases txs.len() - j,
{
    if j < txs.len() {
        law_value_conservation(u, txs[j]);
        law_block_value_conservation(spec_apply_tx(u, txs[j]), txs, j + 1);
    }
}

/// Pairwise-distinct spend references: no output is named twice.
pub open spec fn refs_distinct(refs: Seq<OutRefV>) -> bool {
    forall|a: int, b: int|
        0 <= a < b < refs.len() ==> ((#[trigger] refs[a]).txid != (#[trigger] refs[b]).txid
            || refs[a].vout != refs[b].vout)
}

/// Whether some position from `k` on carries the index `x`.
pub open spec fn outs_has_idx_from(outs: Seq<IdxOutV>, k: int, x: int) -> bool {
    exists|q: int| k <= q < outs.len() && (#[trigger] outs[q]).idx == x
}

/// Selection within one entry keeps references distinct: every reference it
/// adds carries the entry's id and one of its remaining distinct positions.
proof fn lemma_spend_outs_distinct(
    acc: int,
    refs: Seq<OutRefV>,
    txid: Seq<char>,
    outs: Seq<IdxOutV>,
    k: int,
    ph: Seq<char>,
    amount: int,
)
    requires
        outs_distinct(outs),
        0 <= k <= outs.len(),
        refs_distinct(refs),
        forall|q: int|
            0 <= q < refs.len() ==> !((#[trigger] refs[q]).txid == txid && outs_has_idx_from(
                outs,
                k,
                refs[q].vout,
            )),
    ensures
        ({
            let rr = scan_spend_outs(acc, refs, txid, outs, k, ph, amount).1;
            &&& refs_distinct(rr)
            &&& rr.len() >= refs.len()
            &&& rr.take(refs.len() as int) == refs
            &&& forall|q: int|
                refs.len() <= q < rr.len() ==> (#[trigger] rr[q]).txid == txid
                    && outs_has_idx_from(outs, k, rr[q].vout)
        }),
    decreases outs.len() - k,
{
    if k == outs.len() {
        assert(scan_spend_outs(acc, refs, txid, outs, k, ph, amount).1.take(refs.len() as int)
            =~= refs);
    } else if outs[k].out.pubkey_hash == ph && acc < amount {
        let r = OutRefV { txid: txid, vout: outs[k].idx };
        let refs2 = refs.push(r);
        assert(refs_distinct(refs2)) by {
            assert forall|a: int, b: int| 0 <= a < b < refs2.len() implies ((
            #[trigger] refs2[a]).txid != (#[trigger] refs2[b]).txid || refs2[a].vout
                != refs2[b].vout) by {
                if b == refs2.len() - 1 {
                    assert(refs2[a] == refs[a]);
                    assert(outs_has_idx_from(outs, k, outs[k].idx));
                } else {
                    assert(refs2[a] == refs[a] && refs2[b] == refs[b]);
                }
            }
        }
        assert forall|q: int| 0 <= q < refs2.len() implies !((#[trigger] refs2[q]).txid == txid
            && outs_has_idx_from(outs, k + 1, refs2[q].vout)) by {
            if q < refs.len() {
                assert(refs2[q] == refs[q]);
                if outs_has_idx_from(outs, k + 1, refs2[q].vout) {
                    let w = choose|w: int|
                        k + 1 <= w < outs.len() && (#[trigger] outs[w]).idx == refs2[q].vout;
                    assert(outs_has_idx_from(outs, k, refs2[q].vout));
                }
            } else {
                if outs_has_idx_from(outs, k + 1, refs2[q].vout) {
                    let w = choose|w: int|
                        k + 1 <= w < outs.len() && (#[trigger] outs[w]).idx == refs2[q].vout;
                    assert(outs[w].idx != outs[k].idx);
                }
            }
        }
        lemma_spend_outs_distinct(
            acc + outs[k].out.value,
            refs2,
            txid,
            outs,
            k + 1,
            ph,
            amount,
        );
        let rr = scan_spend_outs(acc, refs, txid, outs, k, ph, amount).1;
        assert(rr.take(refs2.len() as int).take(refs.len() as int) =~= rr.take(
            refs.len() as int,
        ));
        assert(refs2.take(refs.len() as int) =~= refs);
        assert forall|q: int| refs.len() <= q < rr.len() implies (#[trigger] rr[q]).txid == txid
            && outs_has_idx_from(outs, k, rr[q].vout) by {
            if q < refs2.len() {
                assert(rr.take(refs2.len() as int)[q] == rr[q]);
                assert(rr[q] == r);
                assert(outs_has_idx_from(outs, k, outs[k].idx));
            } else {
                if outs_has_idx_from(outs, k + 1, rr[q].vout) {
                    let w = choose|w: int|
                        k + 1 <= w < outs.len() && (#[trigger] outs[w]).idx == rr[q].vout;
                    assert(outs_has_idx_from(outs, k, rr[q].vout));
                }
            }
        }
    } else {
        lemma_spend_outs_distinct(acc, refs, txid, outs, k + 1, ph, amount);
        let rr = scan_spend_outs(acc, refs, txid, outs, k, ph, amount).1;
        assert forall|q: int| refs.len() <= q < rr.len() implies (#[trigger] rr[q]).txid == txid
            && outs_has_idx_from(outs, k, rr[q].vout) by {
            if outs_has_idx_from(outs, k + 1, rr[q].vout) {
                let w = choose|w: int|
                    k + 1 <= w < outs.len() && (#[trigger] outs[w]).idx == rr[q].vout;
                assert(outs_has_idx_from(outs, k, rr[q].vout));
            }
        }
    }
}

/// Selection across the index keeps references distinct: added references
/// carry ids of entries not yet scanned.
proof fn lemma_spend_distinct(
    acc: int,
    refs: Seq<OutRefV>,
    u: Seq<UtxoEntryV>,
    e: int,
    ph: Seq<char>,
    amount: int,
)
    requires
        utxo_wf(u),
        0 <= e <= u.len(),
        refs_distinct(refs),
        forall|q: int, e2: int|
            0 <= q < refs.len() && e <= e2 < u.len() ==> (#[trigger] refs[q]).txid != (
            #[trigger] u[e2]).txid,
    ensures
        ({
            let rr = scan_spend(acc, refs, u, e, ph, amount).1;
            &&& refs_distinct(rr)
            &&& rr.len() >= refs.len()
            &&& rr.take(refs.len() as int) == refs
            &&& forall|q: int|
                refs.len() <= q < rr.len() ==> (exists|e2: int|
                    e <= e2 < u.len() && (#[trigger] rr[q]).txid == (#[trigger] u[e2]).txid)
        }),
    decreases u.len() - e,
{
    if e == u.len() {
        assert(scan_spend(acc, refs, u, e, ph, amount).1.take(refs.len() as int) =~= refs);
    } else {
        assert(outs_distinct(u[e].outs)) by {
            assert(forall|k1: int, k2: int|
                0 <= k1 < k2 < u[e].outs.len() ==> (#[trigger] u[e].outs[k1]).idx != (
                #[trigger] u[e].outs[k2]).idx);
        }
        lemma_spend_outs_distinct(acc, refs, u[e].txid, u[e].outs, 0, ph, amount);
        let mid = scan_spend_outs(acc, refs, u[e].txid, u[e].outs, 0, ph, amount);
        assert forall|q: int, e2: int|
            0 <= q < mid.1.len() && e + 1 <= e2 < u.len() implies (#[trigger] mid.1[q]).txid != (
        #[trigger] u[e2]).txid by {
            if q < refs.len() {
                assert(mid.1.take(refs.len() as int)[q] == mid.1[q]);
                assert(mid.1[q] == refs[q]);
            } else {
                assert(mid.1[q].txid == u[e as int].txid);
                assert(u[e as int].txid != u[e2].txid);
            }
        }
        lemma_spend_distinct(mid.0, mid.1, u, e + 1, ph, amount);
        let rr = scan_spend(acc, refs, u, e, ph, amount).1;
        assert(rr.take(mid.1.len() as int).take(refs.len() as int) =~= rr.take(
            refs.len() as int,
        ));
        assert(mid.1.take(refs.len() as int) =~= refs);
        assert forall|q: int| refs.len() <= q < rr.len() implies (exists|e2: int|
            e <= e2 < u.len() && (#[trigger] rr[q]).txid == (#[trigger] u[e2]).txid) by {
            if q < mid.1.len() {
                assert(rr.take(mid.1.len() as int)[q] == rr[q]);
                assert(rr[q] == mid.1[q]);
                assert(rr[q].txid == u[e as int].txid);
            }
        }
    }
}

/// On a well-formed index, spend selection never names one output twice.
pub proof fn law_spend_selection_distinct(u: Seq<UtxoEntryV>, ph: Seq<char>, amount: int)
    requires
        utxo_wf(u),
    ensures
        refs_distinct(spec_spendable(u, ph, amount).1),
{
    lemma_spend_distinct(0, Seq::empty(), u, 0, ph, amount);
}

} // verus!
