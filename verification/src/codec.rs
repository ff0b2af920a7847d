//! The canonical JSON wire form of outputs, inputs, transactions and blocks:
//! an exact spec-level rendering, serializers that produce it, and parsers
//! proven to accept every rendering. Hashing a transaction or storing a block
//! goes through this form, so its stability is what keeps ids stable.
use vstd::prelude::*;

use crate::block::tx_views;
use crate::block::Block;
use crate::block::BlockV;
use crate::dec::dec_at;
use crate::dec::dec_of;
use crate::dec::is_dec_digit;
use crate::dec::lemma_dec_of_digits;
use crate::dec::parse_u128;
use crate::dec::push_u128;
use crate::jsontext::at;
use crate::jsontext::int_at;
use crate::jsontext::json_int;
use crate::jsontext::json_string;
use crate::jsontext::lemma_at_concat;
use crate::jsontext::expect_lit;
use crate::jsontext::parse_json_isize;
use crate::jsontext::parse_json_string;
use crate::jsontext::push_json_isize;
use crate::jsontext::push_json_string;
use crate::digests::sha256_hex_of;
use crate::digests::sha256_hex_str;
use crate::errors::ChainError;
use crate::hexcode::all_hex_digits;
use crate::text::chars_of_str;
use crate::text::string_of_chars;
use crate::transaction::Transaction;
use crate::transaction::TxInput;
use crate::transaction::TxInV;
use crate::transaction::TxOutput;
use crate::transaction::TxOutV;
use crate::transaction::TxV;

verus! {

// ---------------------------------------------------------------------------
// Joined array items: `a`, `a,b`, `a,b,c`, ...
// ---------------------------------------------------------------------------
/// The pieces of an array joined by commas.
pub open spec fn join_items(ps: Seq<Seq<char>>) -> Seq<char>
    decreases ps.len(),
{
    if ps.len() == 0 {
        Seq::<char>::empty()
    } else {
        ps[0] + join_rest(ps.drop_first())
    }
}

/// The tail of a joined array: a leading comma before each piece.
pub open spec fn join_rest(ps: Seq<Seq<char>>) -> Seq<char>
    decreases ps.len(),
{
    if ps.len() == 0 {
        Seq::<char>::empty()
    } else {
        seq![','] + ps[0] + join_rest(ps.drop_first())
    }
}

/// A JSON array around joined pieces.
pub open spec fn json_array(ps: Seq<Seq<char>>) -> Seq<char> {
    seq!['['] + (join_items(ps) + seq![']'])
}

pub proof fn lemma_join_rest_push(ps: Seq<Seq<char>>, x: Seq<char>)
    ensures
        join_rest(ps.push(x)) == join_rest(ps) + seq![','] + x,
    decreases ps.len(),
{
    if ps.len() == 0 {
        assert(ps.push(x)[0] == x);
        assert(ps.push(x).drop_first() =~= Seq::<Seq<char>>::empty());
        assert(join_rest(ps.push(x)) == seq![','] + x + join_rest(Seq::<Seq<char>>::empty()));
        assert(join_rest(ps.push(x)) =~= join_rest(ps) + seq![','] + x);
    } else {
        assert(ps.push(x)[0] == ps[0]);
        assert(ps.push(x).drop_first() =~= ps.drop_first().push(x));
        lemma_join_rest_push(ps.drop_first(), x);
        assert(join_rest(ps.push(x)) =~= join_rest(ps) + seq![','] + x);
    }
}

pub proof fn lemma_join_items_push(ps: Seq<Seq<char>>, x: Seq<char>)
    ensures
        ps.len() == 0 ==> join_items(ps.push(x)) == x,
        ps.len() > 0 ==> join_items(ps.push(x)) == join_items(ps) + seq![','] + x,
{
    if ps.len() == 0 {
        assert(ps.push(x)[0] == x);
        assert(ps.push(x).drop_first() =~= Seq::<Seq<char>>::empty());
        assert(join_items(ps.push(x)) =~= x);
    } else {
        assert(ps.push(x)[0] == ps[0]);
        assert(ps.push(x).drop_first() =~= ps.drop_first().push(x));
        lemma_join_rest_push(ps.drop_first(), x);
        assert(join_items(ps.push(x)) =~= join_items(ps) + seq![','] + x);
    }
}

/// A joined array splits at any element count into items and rest.
pub proof fn lemma_join_split(ps: Seq<Seq<char>>, j: int)
    requires
        1 <= j <= ps.len(),
    ensures
        join_items(ps) == join_items(ps.take(j)) + join_rest(ps.skip(j)),
    decreases ps.len() - j,
{
    if j == ps.len() {
        assert(ps.take(j) =~= ps);
        assert(join_rest(ps.skip(j)) =~= Seq::<char>::empty());
        assert(join_items(ps.take(j)) + join_rest(ps.skip(j)) =~= join_items(ps));
    } else {
        lemma_join_split(ps, j + 1);
        assert(ps.take(j + 1) =~= ps.take(j).push(ps[j]));
        lemma_join_items_push(ps.take(j), ps[j]);
        assert(ps.skip(j)[0] == ps[j]);
        assert(ps.skip(j).drop_first() =~= ps.skip(j + 1));
        assert(join_rest(ps.skip(j)) == seq![','] + ps[j] + join_rest(ps.skip(j + 1)));
        assert(join_items(ps.take(j)) + join_rest(ps.skip(j)) =~= join_items(ps.take(j + 1))
            + join_rest(ps.skip(j + 1)));
    }
}

/// What stands at the cursor after `j` of an array's elements were read.
pub proof fn lemma_arr_stands(s: Seq<char>, pos: int, ps: Seq<Seq<char>>, j: int, cur: int)
    requires
        at(s, pos, json_array(ps)),
        1 <= j <= ps.len(),
        cur == pos + 1 + join_items(ps.take(j)).len(),
    ensures
        j < ps.len() ==> at(
            s,
            cur,
            seq![','] + (ps[j] + (join_rest(ps.skip(j + 1)) + seq![']'])),
        ),
        j == ps.len() ==> at(s, cur, seq![']']) && cur + 1 == pos + json_array(ps).len(),
{
    lemma_at_concat(s, pos, seq!['['], join_items(ps) + seq![']']);
    lemma_join_split(ps, j);
    assert(join_items(ps) + seq![']'] =~= join_items(ps.take(j)) + (join_rest(ps.skip(j))
        + seq![']']));
    lemma_at_concat(s, pos + 1, join_items(ps.take(j)), join_rest(ps.skip(j)) + seq![']']);
    if j < ps.len() {
        assert(ps.skip(j)[0] == ps[j]);
        assert(ps.skip(j).drop_first() =~= ps.skip(j + 1));
        assert(join_rest(ps.skip(j)) + seq![']'] =~= seq![','] + (ps[j] + (join_rest(
            ps.skip(j + 1),
        ) + seq![']'])));
    } else {
        assert(ps.skip(j).len() == 0);
        assert(join_rest(ps.skip(j)) + seq![']'] =~= seq![']']);
    }
}

/// What stands right after the opening bracket of a non-empty array.
pub proof fn lemma_arr_first(s: Seq<char>, pos: int, ps: Seq<Seq<char>>)
    requires
        at(s, pos, json_array(ps)),
        ps.len() > 0,
    ensures
        at(s, pos + 1, ps[0] + (join_rest(ps.skip(1)) + seq![']'])),
        join_items(ps.take(1)) == ps[0],
{
    lemma_at_concat(s, pos, seq!['['], join_items(ps) + seq![']']);
    assert(ps.drop_first() =~= ps.skip(1));
    assert(join_items(ps) + seq![']'] =~= ps[0] + (join_rest(ps.skip(1)) + seq![']']));
    assert(ps.take(1)[0] == ps[0]);
    assert(ps.take(1).drop_first() =~= Seq::<Seq<char>>::empty());
    assert(join_items(ps.take(1)) =~= ps[0]);
}

// ---------------------------------------------------------------------------
// The canonical forms
// ---------------------------------------------------------------------------
pub open spec fn lit_value() -> Seq<char> {
    seq!['{', '"', 'v', 'a', 'l', 'u', 'e', '"', ':']
}

pub open spec fn lit_pubkey_hash() -> Seq<char> {
    seq![',', '"', 'p', 'u', 'b', 'k', 'e', 'y', '_', 'h', 'a', 's', 'h', '"', ':']
}

pub open spec fn lit_txid() -> Seq<char> {
    seq!['{', '"', 't', 'x', 'i', 'd', '"', ':']
}

pub open spec fn lit_vout() -> Seq<char> {
    seq![',', '"', 'v', 'o', 'u', 't', '"', ':']
}

pub open spec fn lit_signature() -> Seq<char> {
    seq![',', '"', 's', 'i', 'g', 'n', 'a', 't', 'u', 'r', 'e', '"', ':']
}

pub open spec fn lit_pubkey() -> Seq<char> {
    seq![',', '"', 'p', 'u', 'b', 'k', 'e', 'y', '"', ':']
}

pub open spec fn lit_id() -> Seq<char> {
    seq!['{', '"', 'i', 'd', '"', ':']
}

pub open spec fn lit_vin() -> Seq<char> {
    seq![',', '"', 'v', 'i', 'n', '"', ':']
}

pub open spec fn lit_timestamp() -> Seq<char> {
    seq!['{', '"', 't', 'i', 'm', 'e', 's', 't', 'a', 'm', 'p', '"', ':']
}

pub open spec fn lit_transactions() -> Seq<char> {
    seq![',', '"', 't', 'r', 'a', 'n', 's', 'a', 'c', 't', 'i', 'o', 'n', 's', '"', ':']
}

pub open spec fn lit_prev_block_hash() -> Seq<char> {
    seq![',', '"', 'p', 'r', 'e', 'v', '_', 'b', 'l', 'o', 'c', 'k', '_', 'h', 'a', 's', 'h', '"',
        ':']
}

pub open spec fn lit_hash() -> Seq<char> {
    seq![',', '"', 'h', 'a', 's', 'h', '"', ':']
}

pub open spec fn lit_nonce() -> Seq<char> {
    seq![',', '"', 'n', 'o', 'n', 'c', 'e', '"', ':']
}

pub open spec fn lit_close() -> Seq<char> {
    seq!['}']
}

/// The canonical JSON form of a transaction output.
#[verifier::opaque]
pub open spec fn json_txout(m: TxOutV) -> Seq<char> {
    lit_value() + (json_int(m.value) + (lit_pubkey_hash() + (json_string(m.pubkey_hash)
        + lit_close())))
}

/// The canonical JSON form of a transaction input.
#[verifier::opaque]
pub open spec fn json_txin(m: TxInV) -> Seq<char> {
    lit_txid() + (json_string(m.txid) + (lit_vout() + (json_int(m.vout) + (lit_signature() + (
    json_string(m.signature) + (lit_pubkey() + (json_bytes(m.pubkey) + lit_close())))))))
}

pub open spec fn bytes_pieces(v: Seq<u8>) -> Seq<Seq<char>> {
    Seq::new(v.len(), |i: int| dec_of(v[i] as nat))
}

/// The canonical JSON form of a byte vector: an array of numbers.
pub open spec fn json_bytes(v: Seq<u8>) -> Seq<char> {
    json_array(bytes_pieces(v))
}

pub open spec fn txin_pieces(v: Seq<TxInV>) -> Seq<Seq<char>> {
    Seq::new(v.len(), |i: int| json_txin(v[i]))
}

pub open spec fn txout_pieces(v: Seq<TxOutV>) -> Seq<Seq<char>> {
    Seq::new(v.len(), |i: int| json_txout(v[i]))
}

/// The canonical JSON form of a transaction.
#[verifier::opaque]
pub open spec fn json_tx(m: TxV) -> Seq<char> {
    lit_id() + (json_string(m.id) + (lit_vin() + (json_array(txin_pieces(m.vin)) + (lit_vout() + (
    json_array(txout_pieces(m.vout)) + lit_close())))))
}

pub open spec fn tx_pieces(v: Seq<TxV>) -> Seq<Seq<char>> {
    Seq::new(v.len(), |i: int| json_tx(v[i]))
}

/// The canonical JSON form of a block.
#[verifier::opaque]
pub open spec fn json_block(m: BlockV) -> Seq<char> {
    lit_timestamp() + (dec_of(m.timestamp) + (lit_transactions() + (json_array(
        tx_pieces(m.transactions),
    ) + (lit_prev_block_hash() + (json_string(m.prev_block_hash) + (lit_hash() + (json_string(
        m.hash,
    ) + (lit_nonce() + (dec_of(m.nonce) + lit_close())))))))))
}

/// The numeric fields of an output fit their machine type.
pub open spec fn txout_fits(m: TxOutV) -> bool {
    isize::MIN <= m.value <= isize::MAX
}

/// The numeric fields of an input fit their machine type.
pub open spec fn txin_fits(m: TxInV) -> bool {
    isize::MIN <= m.vout <= isize::MAX
}

/// The numeric fields of a transaction fit their machine types.
pub open spec fn tx_fits(m: TxV) -> bool {
    &&& forall|i: int| 0 <= i < m.vin.len() ==> txin_fits(#[trigger] m.vin[i])
    &&& forall|i: int| 0 <= i < m.vout.len() ==> txout_fits(#[trigger] m.vout[i])
}

/// The numeric fields of a block fit their machine types.
pub open spec fn block_fits(m: BlockV) -> bool {
    &&& m.timestamp <= u128::MAX
    &&& m.nonce <= u128::MAX
    &&& forall|i: int| 0 <= i < m.transactions.len() ==> tx_fits(#[trigger] m.transactions[i])
}

// ---------------------------------------------------------------------------
// Serializers
// ---------------------------------------------------------------------------
fn push_lit(out: &mut Vec<char>, lit: &[char])
    ensures
        final(out)@ == old(out)@ + lit@,
{
    let ghost base: Seq<char> = out@;
    let mut i: usize = 0;
    while i < lit.len()
        invariant
            i <= lit@.len(),
            out@ == base + lit@.take(i as int),
        decreases lit@.len() - i,
    {
        out.push(lit[i]);
        proof {
            assert(out@ =~= base + lit@.take(i + 1));
        }
        i = i + 1;
    }
    proof {
        assert(base + lit@.take(lit@.len() as int) =~= base + lit@);
    }
}

/// Appends the canonical form of an output.
pub fn push_txout(out: &mut Vec<char>, o: &TxOutput)
    ensures
        final(out)@ == old(out)@ + json_txout(o@),
{
    let lit1: [char; 9] = ['{', '"', 'v', 'a', 'l', 'u', 'e', '"', ':'];
    let lit2: [char; 15] = [',', '"', 'p', 'u', 'b', 'k', 'e', 'y', '_', 'h', 'a', 's', 'h', '"',
        ':'];
    push_lit(out, &lit1);
    push_json_isize(out, o.value);
    push_lit(out, &lit2);
    let ph = chars_of_str(o.pubkey_hash.as_str());
    push_json_string(out, &ph);
    out.push('}');
    proof {
        reveal(json_txout);
        assert(lit1@ =~= lit_value());
        assert(lit2@ =~= lit_pubkey_hash());
        assert(out@ =~= old(out)@ + json_txout(o@));
    }
}

/// Appends the canonical form of a byte vector.
pub fn push_bytes(out: &mut Vec<char>, v: &Vec<u8>)
    ensures
        final(out)@ == old(out)@ + json_bytes(v@),
{
    let ghost base: Seq<char> = out@;
    out.push('[');
    let mut i: usize = 0;
    while i < v.len()
        invariant
            i <= v@.len(),
            out@ == base + seq!['['] + join_items(bytes_pieces(v@.take(i as int))),
        decreases v@.len() - i,
    {
        if i > 0 {
            out.push(',');
        }
        push_u128(out, v[i] as u128);
        proof {
            assert(bytes_pieces(v@.take(i + 1)) =~= bytes_pieces(v@.take(i as int)).push(
                dec_of(v@[i as int] as nat),
            ));
            lemma_join_items_push(bytes_pieces(v@.take(i as int)), dec_of(v@[i as int] as nat));
            assert(out@ =~= base + seq!['['] + join_items(bytes_pieces(v@.take(i + 1))));
        }
        i = i + 1;
    }
    out.push(']');
    proof {
        assert(v@.take(v@.len() as int) =~= v@);
        assert(bytes_pieces(v@.take(v@.len() as int)) =~= bytes_pieces(v@));
        assert(out@ =~= base + json_bytes(v@));
    }
}

/// Appends the canonical form of an input.
pub fn push_txin(out: &mut Vec<char>, x: &TxInput)
    ensures
        final(out)@ == old(out)@ + json_txin(x@),
{
    let lit1: [char; 8] = ['{', '"', 't', 'x', 'i', 'd', '"', ':'];
    let lit2: [char; 8] = [',', '"', 'v', 'o', 'u', 't', '"', ':'];
    let lit3: [char; 13] = [',', '"', 's', 'i', 'g', 'n', 'a', 't', 'u', 'r', 'e', '"', ':'];
    let lit4: [char; 10] = [',', '"', 'p', 'u', 'b', 'k', 'e', 'y', '"', ':'];
    push_lit(out, &lit1);
    let txid = chars_of_str(x.txid.as_str());
    push_json_string(out, &txid);
    push_lit(out, &lit2);
    push_json_isize(out, x.vout);
    push_lit(out, &lit3);
    let sig = chars_of_str(x.signature.as_str());
    push_json_string(out, &sig);
    push_lit(out, &lit4);
    push_bytes(out, &x.pubkey);
    out.push('}');
    proof {
        reveal(json_txin);
        assert(lit1@ =~= lit_txid());
        assert(lit2@ =~= lit_vout());
        assert(lit3@ =~= lit_signature());
        assert(lit4@ =~= lit_pubkey());
        assert(out@ =~= old(out)@ + json_txin(x@));
    }
}

/// Appends the canonical form of a transaction.
#[verifier::rlimit(100)]
pub fn push_tx(out: &mut Vec<char>, t: &Transaction)
    ensures
        final(out)@ == old(out)@ + json_tx(t@),
{
    let lit1: [char; 6] = ['{', '"', 'i', 'd', '"', ':'];
    let lit2: [char; 7] = [',', '"', 'v', 'i', 'n', '"', ':'];
    let lit3: [char; 8] = [',', '"', 'v', 'o', 'u', 't', '"', ':'];
    push_lit(out, &lit1);
    let id = chars_of_str(t.id.as_str());
    push_json_string(out, &id);
    push_lit(out, &lit2);
    let ghost base_vin: Seq<char> = out@;
    out.push('[');
    let mut i: usize = 0;
    while i < t.vin.len()
        invariant
            i <= t.vin@.len(),
            out@ == base_vin + seq!['['] + join_items(txin_pieces(t@.vin.take(i as int))),
        decreases t.vin@.len() - i,
    {
        if i > 0 {
            out.push(',');
        }
        push_txin(out, &t.vin[i]);
        proof {
            assert(txin_pieces(t@.vin.take(i + 1)) =~= txin_pieces(t@.vin.take(i as int)).push(
                json_txin(t@.vin[i as int]),
            ));
            lemma_join_items_push(txin_pieces(t@.vin.take(i as int)), json_txin(t@.vin[i as int]));
            assert(t@.vin[i as int] == t.vin@[i as int]@);
            assert(out@ =~= base_vin + seq!['['] + join_items(txin_pieces(t@.vin.take(i + 1))));
        }
        i = i + 1;
    }
    out.push(']');
    proof {
        assert(t@.vin.take(t@.vin.len() as int) =~= t@.vin);
    }
    push_lit(out, &lit3);
    let ghost base_vout: Seq<char> = out@;
    out.push('[');
    let mut k: usize = 0;
    while k < t.vout.len()
        invariant
            k <= t.vout@.len(),
            out@ == base_vout + seq!['['] + join_items(txout_pieces(t@.vout.take(k as int))),
        decreases t.vout@.len() - k,
    {
        if k > 0 {
            out.push(',');
        }
        push_txout(out, &t.vout[k]);
        proof {
            assert(txout_pieces(t@.vout.take(k + 1)) =~= txout_pieces(t@.vout.take(k as int)).push(
                json_txout(t@.vout[k as int]),
            ));
            lemma_join_items_push(
                txout_pieces(t@.vout.take(k as int)),
                json_txout(t@.vout[k as int]),
            );
            assert(t@.vout[k as int] == t.vout@[k as int]@);
            assert(out@ =~= base_vout + seq!['['] + join_items(txout_pieces(t@.vout.take(k + 1))));
        }
        k = k + 1;
    }
    out.push(']');
    out.push('}');
    proof {
        reveal(json_tx);
        assert(t@.vout.take(t@.vout.len() as int) =~= t@.vout);
        assert(lit1@ =~= lit_id());
        assert(lit2@ =~= lit_vin());
        assert(lit3@ =~= lit_vout());
        assert(out@ =~= old(out)@ + json_tx(t@));
    }
}

/// Appends the canonical form of a block.
#[verifier::rlimit(100)]
pub fn push_block(out: &mut Vec<char>, b: &Block)
    ensures
        final(out)@ == old(out)@ + json_block(b@),
{
    let lit1: [char; 13] = ['{', '"', 't', 'i', 'm', 'e', 's', 't', 'a', 'm', 'p', '"', ':'];
    let lit2: [char; 16] = [',', '"', 't', 'r', 'a', 'n', 's', 'a', 'c', 't', 'i', 'o', 'n', 's',
        '"', ':'];
    let lit3: [char; 19] = [',', '"', 'p', 'r', 'e', 'v', '_', 'b', 'l', 'o', 'c', 'k', '_', 'h',
        'a', 's', 'h', '"', ':'];
    let lit4: [char; 8] = [',', '"', 'h', 'a', 's', 'h', '"', ':'];
    let lit5: [char; 9] = [',', '"', 'n', 'o', 'n', 'c', 'e', '"', ':'];
    push_lit(out, &lit1);
    push_u128(out, b.timestamp);
    push_lit(out, &lit2);
    let ghost base_txs: Seq<char> = out@;
    out.push('[');
    let mut i: usize = 0;
    while i < b.transactions.len()
        invariant
            i <= b.transactions@.len(),
            out@ == base_txs + seq!['['] + join_items(
                tx_pieces(b@.transactions.take(i as int)),
            ),
        decreases b.transactions@.len() - i,
    {
        if i > 0 {
            out.push(',');
        }
        push_tx(out, &b.transactions[i]);
        proof {
            assert(tx_pieces(b@.transactions.take(i + 1)) =~= tx_pieces(
                b@.transactions.take(i as int),
            ).push(json_tx(b@.transactions[i as int])));
            lemma_join_items_push(
                tx_pieces(b@.transactions.take(i as int)),
                json_tx(b@.transactions[i as int]),
            );
            assert(b@.transactions[i as int] == b.transactions@[i as int]@);
            assert(out@ =~= base_txs + seq!['['] + join_items(
                tx_pieces(b@.transactions.take(i + 1)),
            ));
        }
        i = i + 1;
    }
    out.push(']');
    proof {
        assert(b@.transactions.take(b@.transactions.len() as int) =~= b@.transactions);
    }
    push_lit(out, &lit3);
    let prev = chars_of_str(b.prev_block_hash.as_str());
    push_json_string(out, &prev);
    push_lit(out, &lit4);
    let hash = chars_of_str(b.hash.as_str());
    push_json_string(out, &hash);
    push_lit(out, &lit5);
    push_u128(out, b.nonce);
    out.push('}');
    proof {
        reveal(json_block);
        assert(lit1@ =~= lit_timestamp());
        assert(lit2@ =~= lit_transactions());
        assert(lit3@ =~= lit_prev_block_hash());
        assert(lit4@ =~= lit_hash());
        assert(lit5@ =~= lit_nonce());
        assert(out@ =~= old(out)@ + json_block(b@));
    }
}

// ---------------------------------------------------------------------------
// Parsers
// ---------------------------------------------------------------------------
/// The views of a sequence of inputs.
pub open spec fn txin_views(v: Seq<TxInput>) -> Seq<TxInV> {
    Seq::new(v.len(), |i: int| v[i]@)
}

/// The views of a sequence of outputs.
pub open spec fn txout_views(v: Seq<TxOutput>) -> Seq<TxOutV> {
    Seq::new(v.len(), |i: int| v[i]@)
}

/// A number followed by a non-digit stands at `pos` in canonical form.
pub proof fn lemma_dec_at(s: Seq<char>, pos: int, n: nat, rest: Seq<char>)
    requires
        0 <= pos,
        at(s, pos, dec_of(n) + rest),
        rest.len() > 0,
        !is_dec_digit(rest[0]),
    ensures
        dec_at(s, pos, n),
        at(s, pos + dec_of(n).len(), rest),
{
    lemma_at_concat(s, pos, dec_of(n), rest);
    assert(s.subrange(pos + dec_of(n).len(), pos + dec_of(n).len() + rest.len() as int)[0]
        == rest[0]);
}

/// A signed number followed by a non-digit stands at `pos` in canonical form.
pub proof fn lemma_int_at(s: Seq<char>, pos: int, i: int, rest: Seq<char>)
    requires
        0 <= pos,
        at(s, pos, json_int(i) + rest),
        rest.len() > 0,
        !is_dec_digit(rest[0]),
    ensures
        int_at(s, pos, i),
        at(s, pos + json_int(i).len(), rest),
{
    lemma_at_concat(s, pos, json_int(i), rest);
    if i < 0 {
        assert(json_int(i) + rest =~= seq!['-'] + (dec_of((-i) as nat) + rest));
        lemma_at_concat(s, pos, seq!['-'], dec_of((-i) as nat) + rest);
        assert(s.subrange(pos, pos + 1)[0] == '-');
        lemma_dec_at(s, pos + 1, (-i) as nat, rest);
    } else {
        lemma_dec_at(s, pos, i as nat, rest);
    }
}

/// Where each part of an output's canonical form stands.
pub proof fn txout_parts(s: Seq<char>, pos: int, m: TxOutV)
    requires
        at(s, pos, json_txout(m)),
    ensures
        at(s, pos, lit_value()),
        int_at(s, pos + 9, m.value),
        at(s, pos + 9 + json_int(m.value).len(), lit_pubkey_hash()),
        at(s, pos + 24 + json_int(m.value).len(), json_string(m.pubkey_hash)),
        at(s, pos + 24 + json_int(m.value).len() + json_string(m.pubkey_hash).len(), lit_close()),
        json_txout(m).len() == 25 + json_int(m.value).len() + json_string(m.pubkey_hash).len(),
{
    reveal(json_txout);
    lemma_at_concat(s, pos, lit_value(), json_int(m.value) + (lit_pubkey_hash() + (json_string(
        m.pubkey_hash,
    ) + lit_close())));
    lemma_int_at(
        s,
        pos + 9,
        m.value,
        lit_pubkey_hash() + (json_string(m.pubkey_hash) + lit_close()),
    );
    lemma_at_concat(
        s,
        pos + 9 + json_int(m.value).len(),
        lit_pubkey_hash(),
        json_string(m.pubkey_hash) + lit_close(),
    );
    lemma_at_concat(
        s,
        pos + 24 + json_int(m.value).len(),
        json_string(m.pubkey_hash),
        lit_close(),
    );
}

/// Reads an output in canonical form.
pub fn parse_txout(s: &Vec<char>, pos: usize) -> (r: Result<(TxOutput, usize), ()>)
    requires
        pos <= s@.len(),
    ensures
        r matches Ok(t) ==> pos < t.1 <= s@.len(),
        forall|m: TxOutV|
            txout_fits(m) && at(s@, pos as int, #[trigger] json_txout(m)) ==> (r matches Ok(t)
                && t.0@ == m && t.1 == pos + json_txout(m).len()),
{
    let lit1a: [char; 9] = ['{', '"', 'v', 'a', 'l', 'u', 'e', '"', ':'];
    let lit2a: [char; 15] = [',', '"', 'p', 'u', 'b', 'k', 'e', 'y', '_', 'h', 'a', 's', 'h', '"',
        ':'];
    let closea: [char; 1] = ['}'];
    let lit1: &[char] = &lit1a;
    let lit2: &[char] = &lit2a;
    let close: &[char] = &closea;
    proof {
        assert(lit1@ =~= lit_value());
        assert(lit2@ =~= lit_pubkey_hash());
        assert(close@ =~= lit_close());
    }
    let p1 = match expect_lit(s, pos, lit1) {
        Ok(p) => p,
        Err(_) => {
            proof {
                assert forall|m: TxOutV|
                    txout_fits(m) && at(s@, pos as int, #[trigger] json_txout(m)) implies false by {
                    txout_parts(s@, pos as int, m);
                }
            }
            return Err(());
        },
    };
    let (val, p2) = match parse_json_isize(s, p1) {
        Ok(t) => t,
        Err(_) => {
            proof {
                assert forall|m: TxOutV|
                    txout_fits(m) && at(s@, pos as int, #[trigger] json_txout(m)) implies false by {
                    txout_parts(s@, pos as int, m);
                    assert(int_at(s@, p1 as int, m.value));
                }
            }
            return Err(());
        },
    };
    let p3 = match expect_lit(s, p2, lit2) {
        Ok(p) => p,
        Err(_) => {
            proof {
                assert forall|m: TxOutV|
                    txout_fits(m) && at(s@, pos as int, #[trigger] json_txout(m)) implies false by {
                    txout_parts(s@, pos as int, m);
                    assert(int_at(s@, p1 as int, m.value));
                    assert(p2 == p1 + json_int(m.value).len());
                }
            }
            return Err(());
        },
    };
    let (ph, p4) = match parse_json_string(s, p3) {
        Ok(t) => t,
        Err(_) => {
            proof {
                assert forall|m: TxOutV|
                    txout_fits(m) && at(s@, pos as int, #[trigger] json_txout(m)) implies false by {
                    txout_parts(s@, pos as int, m);
                    assert(int_at(s@, p1 as int, m.value));
                    assert(p3 == p1 + json_int(m.value).len() + 15);
                    assert(at(s@, p3 as int, json_string(m.pubkey_hash)));
                }
            }
            return Err(());
        },
    };
    let p5 = match expect_lit(s, p4, close) {
        Ok(p) => p,
        Err(_) => {
            proof {
                assert forall|m: TxOutV|
                    txout_fits(m) && at(s@, pos as int, #[trigger] json_txout(m)) implies false by {
                    txout_parts(s@, pos as int, m);
                    assert(int_at(s@, p1 as int, m.value));
                    assert(p3 == p1 + json_int(m.value).len() + 15);
                    assert(at(s@, p3 as int, json_string(m.pubkey_hash)));
                    assert(p4 == p3 + json_string(m.pubkey_hash).len());
                }
            }
            return Err(());
        },
    };
    let out = TxOutput { value: val, pubkey_hash: string_of_chars(&ph) };
    proof {
        assert forall|m: TxOutV|
            txout_fits(m) && at(s@, pos as int, #[trigger] json_txout(m)) implies (out@ == m && p5
            == pos + json_txout(m).len()) by {
            txout_parts(s@, pos as int, m);
            assert(int_at(s@, p1 as int, m.value));
            assert(val as int == m.value);
            assert(p3 == p1 + json_int(m.value).len() + 15);
            assert(at(s@, p3 as int, json_string(m.pubkey_hash)));
            assert(ph@ == m.pubkey_hash);
            assert(p4 == p3 + json_string(m.pubkey_hash).len());
        }
    }
    Ok((out, p5))
}

/// Reads a byte array in canonical form.
pub fn parse_bytes(s: &Vec<char>, pos: usize) -> (r: Result<(Vec<u8>, usize), ()>)
    requires
        pos <= s@.len(),
    ensures
        r matches Ok(t) ==> pos < t.1 <= s@.len(),
        forall|v: Seq<u8>|
            at(s@, pos as int, #[trigger] json_bytes(v)) ==> (r matches Ok(t) && t.0@ == v && t.1
                == pos + json_bytes(v).len()),
{
    let ghost orig: Seq<char> = s@;
    if pos == s.len() || s[pos] != '[' {
        proof {
            assert forall|v: Seq<u8>| at(orig, pos as int, #[trigger] json_bytes(v))
                implies false by {
                assert(orig.subrange(pos as int, pos + json_bytes(v).len() as int)[0] == '[');
            }
        }
        return Err(());
    }
    let mut cur: usize = pos + 1;
    if cur < s.len() && s[cur] == ']' {
        proof {
            assert forall|v: Seq<u8>| at(orig, pos as int, #[trigger] json_bytes(v)) implies (
            v.len() == 0 && cur + 1 == pos + json_bytes(v).len()) by {
                if v.len() > 0 {
                    lemma_arr_first(orig, pos as int, bytes_pieces(v));
                    lemma_dec_of_digits(v[0] as nat);
                    let piece = bytes_pieces(v)[0] + (join_rest(bytes_pieces(v).skip(1))
                        + seq![']']);
                    assert(orig.subrange(pos + 1, pos + 1 + piece.len() as int)[0] == piece[0]);
                    assert(is_dec_digit(orig[cur as int]));
                }
                assert(join_items(bytes_pieces(v)) =~= Seq::<char>::empty());
            }
        }
        let out: Vec<u8> = Vec::new();
        return Ok((out, cur + 1));
    }
    // First element.
    let (e0, c1) = match parse_first_byte(s, pos, cur) {
        Ok(t) => t,
        Err(_) => {
            return Err(());
        },
    };
    let mut out: Vec<u8> = Vec::new();
    out.push(e0);
    let mut cur2: usize = c1;
    proof {
        assert forall|v: Seq<u8>| at(orig, pos as int, #[trigger] json_bytes(v)) implies (1
            <= out@.len() <= v.len() && out@ == v.take(out@.len() as int) && cur2 == pos + 1
            + join_items(bytes_pieces(v).take(out@.len() as int)).len()) by {
            assert(out@ =~= v.take(1));
        }
    }
    loop
        invariant
            pos < cur2 <= s@.len(),
            s@ == orig,
            out@.len() >= 1,
            forall|v: Seq<u8>|
                at(orig, pos as int, #[trigger] json_bytes(v)) ==> (1 <= out@.len() <= v.len()
                    && out@ == v.take(out@.len() as int) && cur2 == pos + 1 + join_items(
                    bytes_pieces(v).take(out@.len() as int),
                ).len()),
        decreases s@.len() - cur2,
    {
        if cur2 == s.len() {
            proof {
                assert forall|v: Seq<u8>| at(orig, pos as int, #[trigger] json_bytes(v))
                    implies false by {
                    lemma_arr_stands(orig, pos as int, bytes_pieces(v), out@.len() as int,
                        cur2 as int);
                }
            }
            return Err(());
        }
        if s[cur2] == ']' {
            proof {
                assert forall|v: Seq<u8>| at(orig, pos as int, #[trigger] json_bytes(v)) implies (
                out@ == v && cur2 + 1 == pos + json_bytes(v).len()) by {
                    lemma_arr_stands(orig, pos as int, bytes_pieces(v), out@.len() as int,
                        cur2 as int);
                    if out@.len() < v.len() {
                        let piece = seq![','] + (bytes_pieces(v)[out@.len() as int] + (join_rest(
                            bytes_pieces(v).skip(out@.len() as int + 1),
                        ) + seq![']']));
                        assert(orig.subrange(cur2 as int, cur2 + piece.len() as int)[0]
                            == piece[0]);
                    }
                    assert(v.take(v.len() as int) =~= v);
                }
            }
            return Ok((out, cur2 + 1));
        }
        if s[cur2] != ',' {
            proof {
                assert forall|v: Seq<u8>| at(orig, pos as int, #[trigger] json_bytes(v))
                    implies false by {
                    lemma_arr_stands(orig, pos as int, bytes_pieces(v), out@.len() as int,
                        cur2 as int);
                    if out@.len() < v.len() {
                        let piece = seq![','] + (bytes_pieces(v)[out@.len() as int] + (join_rest(
                            bytes_pieces(v).skip(out@.len() as int + 1),
                        ) + seq![']']));
                        assert(orig.subrange(cur2 as int, cur2 + piece.len() as int)[0]
                            == piece[0]);
                    } else {
                        assert(orig.subrange(cur2 as int, cur2 + 1)[0] == ']');
                    }
                }
            }
            return Err(());
        }
        let ghost prev: Seq<u8> = out@;
        proof {
            assert forall|v: Seq<u8>| at(orig, pos as int, #[trigger] json_bytes(v)) implies (1
                <= prev.len() < v.len()) by {
                lemma_arr_stands(orig, pos as int, bytes_pieces(v), prev.len() as int, cur2 as int);
                if prev.len() == v.len() {
                    assert(orig.subrange(cur2 as int, cur2 + 1)[0] == ']');
                }
            }
        }
        let (e, c2) = match parse_next_byte(s, pos, cur2, Ghost(out@.len() as int)) {
            Ok(t) => t,
            Err(_) => {
                return Err(());
            },
        };
        out.push(e);
        proof {
            let j = prev.len() as int;
            assert forall|v: Seq<u8>| at(orig, pos as int, #[trigger] json_bytes(v)) implies (1
                <= out@.len() <= v.len() && out@ == v.take(out@.len() as int) && c2 == pos + 1
                + join_items(bytes_pieces(v).take(out@.len() as int)).len()) by {
                assert(prev == v.take(j));
                assert(e == v[j] && c2 == pos + 1 + join_items(
                    bytes_pieces(v).take(j + 1),
                ).len());
                assert(out@ =~= v.take(j + 1));
            }
        }
        cur2 = c2;
    }
}

/// Reads the first element of a non-empty byte array: `cur` stands right
/// after the opening bracket and does not hold the closing one.
fn parse_first_byte(s: &Vec<char>, pos: usize, cur: usize) -> (r: Result<(u8, usize), ()>)
    requires
        pos < cur <= s@.len(),
        cur == pos + 1,
        cur < s@.len() ==> s@[cur as int] != ']',
    ensures
        r matches Ok(t) ==> cur < t.1 <= s@.len(),
        forall|v: Seq<u8>|
            at(s@, pos as int, #[trigger] json_bytes(v)) ==> (r matches Ok(t) && v.len() >= 1
                && t.0 == v[0] && t.1 == pos + 1 + join_items(bytes_pieces(v).take(1)).len()),
{
    proof {
        assert forall|v: Seq<u8>| at(s@, pos as int, #[trigger] json_bytes(v)) implies (v.len()
            >= 1 && dec_at(s@, cur as int, v[0] as nat) && v[0] as nat <= u128::MAX) by {
            if v.len() == 0 {
                assert(join_items(bytes_pieces(v)) =~= Seq::<char>::empty());
                assert(json_bytes(v) =~= seq!['[', ']']);
                assert(s@.subrange(pos as int, pos + 2)[1] == ']');
                if cur == s@.len() {
                } else {
                }
            } else {
                lemma_arr_first(s@, pos as int, bytes_pieces(v));
                let rest = join_rest(bytes_pieces(v).skip(1)) + seq![']'];
                assert(bytes_pieces(v)[0] + (rest) =~= dec_of(v[0] as nat) + rest);
                lemma_dec_at(s@, cur as int, v[0] as nat, rest);
                if bytes_pieces(v).skip(1).len() > 0 {
                    assert(rest[0] == ',');
                } else {
                    assert(rest =~= seq![']']);
                }
            }
        }
    }
    match parse_u128(s, cur) {
        Ok((n, p)) => {
            if n <= 255 {
                proof {
                    assert forall|v: Seq<u8>| at(s@, pos as int, #[trigger] json_bytes(v)) implies (
                    v.len() >= 1 && (n as u8) == v[0] && p == pos + 1 + join_items(
                        bytes_pieces(v).take(1),
                    ).len()) by {
                        assert(v.len() >= 1);
                        assert(dec_at(s@, cur as int, v[0] as nat));
                        assert(n as nat == v[0] as nat && p == cur + dec_of(v[0] as nat).len());
                        lemma_arr_first(s@, pos as int, bytes_pieces(v));
                        assert(bytes_pieces(v)[0] == dec_of(v[0] as nat));
                        assert(join_items(bytes_pieces(v).take(1)) == dec_of(v[0] as nat));
                    }
                }
                Ok((n as u8, p))
            } else {
                proof {
                    assert forall|v: Seq<u8>| at(s@, pos as int, #[trigger] json_bytes(v))
                        implies false by {}
                }
                Err(())
            }
        },
        Err(_) => {
            proof {
                assert forall|v: Seq<u8>| at(s@, pos as int, #[trigger] json_bytes(v))
                    implies false by {}
            }
            Err(())
        },
    }
}

/// Reads one more element of a byte array: `cur` holds the separating comma
/// after `j` elements were read.
fn parse_next_byte(s: &Vec<char>, pos: usize, cur: usize, j: Ghost<int>) -> (r: Result<
    (u8, usize),
    (),
>)
    requires
        pos < cur < s@.len(),
    ensures
        r matches Ok(t) ==> cur < t.1 <= s@.len(),
        forall|v: Seq<u8>|
            (at(s@, pos as int, #[trigger] json_bytes(v)) && 1 <= j@ < v.len() && cur == pos + 1
                + join_items(bytes_pieces(v).take(j@)).len()) ==> (r matches Ok(t) && t.0 == v[j@]
                && t.1 == pos + 1 + join_items(bytes_pieces(v).take(j@ + 1)).len()),
{
    proof {
        assert forall|v: Seq<u8>|
            (at(s@, pos as int, #[trigger] json_bytes(v)) && 1 <= j@ < v.len() && cur == pos + 1
                + join_items(bytes_pieces(v).take(j@)).len()) implies (dec_at(
            s@,
            cur + 1,
            v[j@] as nat,
        ) && v[j@] as nat <= u128::MAX) by {
            lemma_arr_stands(s@, pos as int, bytes_pieces(v), j@, cur as int);
            let rest = join_rest(bytes_pieces(v).skip(j@ + 1)) + seq![']'];
            assert(seq![','] + (bytes_pieces(v)[j@] + rest) =~= seq![','] + (dec_of(v[j@] as nat)
                + rest));
            lemma_at_concat(s@, cur as int, seq![','], dec_of(v[j@] as nat) + rest);
            lemma_dec_at(s@, cur + 1, v[j@] as nat, rest);
            if bytes_pieces(v).skip(j@ + 1).len() > 0 {
                assert(rest[0] == ',');
            } else {
                assert(rest =~= seq![']']);
            }
        }
    }
    let slen: usize = s.len();
    proof {
        assert(cur < slen);
    }
    match parse_u128(s, cur + 1) {
        Ok((n, p)) => {
            if n <= 255 {
                proof {
                    assert forall|v: Seq<u8>|
                        (at(s@, pos as int, #[trigger] json_bytes(v)) && 1 <= j@ < v.len() && cur
                            == pos + 1 + join_items(bytes_pieces(v).take(j@)).len()) implies ((
                    n as u8) == v[j@] && p == pos + 1 + join_items(
                        bytes_pieces(v).take(j@ + 1),
                    ).len()) by {
                        assert(bytes_pieces(v).take(j@ + 1) =~= bytes_pieces(v).take(j@).push(
                            bytes_pieces(v)[j@],
                        ));
                        lemma_join_items_push(bytes_pieces(v).take(j@), bytes_pieces(v)[j@]);
                    }
                }
                Ok((n as u8, p))
            } else {
                proof {
                    assert forall|v: Seq<u8>|
                        (at(s@, pos as int, #[trigger] json_bytes(v)) && 1 <= j@ < v.len() && cur
                            == pos + 1 + join_items(bytes_pieces(v).take(j@)).len())
                        implies false by {}
                }
                Err(())
            }
        },
        Err(_) => {
            proof {
                assert forall|v: Seq<u8>|
                    (at(s@, pos as int, #[trigger] json_bytes(v)) && 1 <= j@ < v.len() && cur == pos
                        + 1 + join_items(bytes_pieces(v).take(j@)).len()) implies false by {}
            }
            Err(())
        },
    }
}

/// Reads the first element of a non-empty array of this kind.
fn parse_first_txin(s: &Vec<char>, pos: usize, cur: usize) -> (r: Result<(TxInput, usize), ()>)
    requires
        pos < cur <= s@.len(),
        cur == pos + 1,
        cur < s@.len() ==> s@[cur as int] != ']',
    ensures
        r matches Ok(t) ==> cur < t.1 <= s@.len(),
        forall|mv: Seq<TxInV>|
            (forall|k: int| 0 <= k < mv.len() ==> txin_fits(#[trigger] mv[k])) && at(s@, pos as int, json_array(#[trigger] txin_pieces(mv))) ==> (r matches
                Ok(t) && mv.len() >= 1 && t.0@ == mv[0] && t.1 == pos + 1 + join_items(
                txin_pieces(mv).take(1),
            ).len()),
{
    proof {
        assert forall|mv: Seq<TxInV>|
            (forall|k: int| 0 <= k < mv.len() ==> txin_fits(#[trigger] mv[k])) && at(s@, pos as int, json_array(#[trigger] txin_pieces(mv))) implies (mv.len()
            >= 1 && at(s@, cur as int, json_txin(mv[0]))) by {
            if mv.len() == 0 {
                assert(join_items(txin_pieces(mv)) =~= Seq::<char>::empty());
                assert(json_array(txin_pieces(mv)) =~= seq!['[', ']']);
                assert(s@.subrange(pos as int, pos + 2)[1] == ']');
            } else {
                lemma_arr_first(s@, pos as int, txin_pieces(mv));
                lemma_at_concat(
                    s@,
                    cur as int,
                    txin_pieces(mv)[0],
                    join_rest(txin_pieces(mv).skip(1)) + seq![']'],
                );
                assert(txin_pieces(mv)[0] == json_txin(mv[0]));
            }
        }
    }
    match parse_txin(s, cur) {
        Ok((e, p)) => {
            proof {
                assert forall|mv: Seq<TxInV>|
                    (forall|k: int| 0 <= k < mv.len() ==> txin_fits(#[trigger] mv[k])) && at(s@, pos as int, json_array(#[trigger] txin_pieces(mv))) implies (
                mv.len() >= 1 && e@ == mv[0] && p == pos + 1 + join_items(
                    txin_pieces(mv).take(1),
                ).len()) by {
                    lemma_arr_first(s@, pos as int, txin_pieces(mv));
                    assert(txin_pieces(mv)[0] == json_txin(mv[0]));
                }
            }
            Ok((e, p))
        },
        Err(_) => {
            proof {
                assert forall|mv: Seq<TxInV>|
                    (forall|k: int| 0 <= k < mv.len() ==> txin_fits(#[trigger] mv[k])) && at(s@, pos as int, json_array(#[trigger] txin_pieces(mv)))
                    implies false by {
                    assert(at(s@, cur as int, json_txin(mv[0])));
                }
            }
            Err(())
        },
    }
}

/// Reads one more element of an array of this kind, past a separating comma.
fn parse_next_txin(s: &Vec<char>, pos: usize, cur: usize, j: Ghost<int>) -> (r: Result<
    (TxInput, usize),
    (),
>)
    requires
        pos < cur < s@.len(),
    ensures
        r matches Ok(t) ==> cur < t.1 <= s@.len(),
        forall|mv: Seq<TxInV>|
            ((forall|k: int| 0 <= k < mv.len() ==> txin_fits(#[trigger] mv[k])) && at(s@, pos as int, json_array(#[trigger] txin_pieces(mv))) && 1 <= j@
                < mv.len() && cur == pos + 1 + join_items(txin_pieces(mv).take(j@)).len()) ==> (r
                matches Ok(t) && t.0@ == mv[j@] && t.1 == pos + 1 + join_items(
                txin_pieces(mv).take(j@ + 1),
            ).len()),
{
    proof {
        assert forall|mv: Seq<TxInV>|
            ((forall|k: int| 0 <= k < mv.len() ==> txin_fits(#[trigger] mv[k])) && at(s@, pos as int, json_array(#[trigger] txin_pieces(mv))) && 1 <= j@
                < mv.len() && cur == pos + 1 + join_items(txin_pieces(mv).take(j@)).len()) implies (at(
            s@,
            cur + 1,
            json_txin(mv[j@]),
        )) by {
            lemma_arr_stands(s@, pos as int, txin_pieces(mv), j@, cur as int);
            lemma_at_concat(
                s@,
                cur as int,
                seq![','],
                txin_pieces(mv)[j@] + (join_rest(txin_pieces(mv).skip(j@ + 1)) + seq![']']),
            );
            lemma_at_concat(
                s@,
                cur + 1,
                txin_pieces(mv)[j@],
                join_rest(txin_pieces(mv).skip(j@ + 1)) + seq![']'],
            );
            assert(txin_pieces(mv)[j@] == json_txin(mv[j@]));
        }
    }
    let slen: usize = s.len();
    proof {
        assert(cur < slen);
    }
    match parse_txin(s, cur + 1) {
        Ok((e, p)) => {
            proof {
                assert forall|mv: Seq<TxInV>|
                    ((forall|k: int| 0 <= k < mv.len() ==> txin_fits(#[trigger] mv[k])) && at(s@, pos as int, json_array(#[trigger] txin_pieces(mv))) && 1
                        <= j@ < mv.len() && cur == pos + 1 + join_items(
                        txin_pieces(mv).take(j@),
                    ).len()) implies (e@ == mv[j@] && p == pos + 1 + join_items(
                    txin_pieces(mv).take(j@ + 1),
                ).len()) by {
                    assert(at(s@, cur + 1, json_txin(mv[j@])));
                    assert(txin_pieces(mv).take(j@ + 1) =~= txin_pieces(mv).take(j@).push(
                        txin_pieces(mv)[j@],
                    ));
                    lemma_join_items_push(txin_pieces(mv).take(j@), txin_pieces(mv)[j@]);
                }
            }
            Ok((e, p))
        },
        Err(_) => {
            proof {
                assert forall|mv: Seq<TxInV>|
                    ((forall|k: int| 0 <= k < mv.len() ==> txin_fits(#[trigger] mv[k])) && at(s@, pos as int, json_array(#[trigger] txin_pieces(mv))) && 1
                        <= j@ < mv.len() && cur == pos + 1 + join_items(
                        txin_pieces(mv).take(j@),
                    ).len()) implies false by {
                    assert(at(s@, cur + 1, json_txin(mv[j@])));
                }
            }
            Err(())
        },
    }
}

/// Reads an array of this kind in canonical form.
pub fn parse_txin_arr(s: &Vec<char>, pos: usize) -> (r: Result<(Vec<TxInput>, usize), ()>)
    requires
        pos <= s@.len(),
    ensures
        r matches Ok(t) ==> pos < t.1 <= s@.len(),
        forall|mv: Seq<TxInV>|
            ((forall|k: int| 0 <= k < mv.len() ==> txin_fits(#[trigger] mv[k])) && at(s@, pos as int, json_array(#[trigger] txin_pieces(mv)))) ==> (r matches
                Ok(t) && txin_views(t.0@) == mv && t.1 == pos + json_array(txin_pieces(mv)).len()),
{
    let ghost orig: Seq<char> = s@;
    if pos == s.len() || s[pos] != '[' {
        proof {
            assert forall|mv: Seq<TxInV>|
                ((forall|k: int| 0 <= k < mv.len() ==> txin_fits(#[trigger] mv[k])) && at(orig, pos as int, json_array(#[trigger] txin_pieces(mv))))
                implies false by {
                assert(orig.subrange(pos as int, pos + json_array(txin_pieces(mv)).len() as int)[0]
                    == '[');
            }
        }
        return Err(());
    }
    let mut cur: usize = pos + 1;
    if cur < s.len() && s[cur] == ']' {
        proof {
            assert forall|mv: Seq<TxInV>|
                ((forall|k: int| 0 <= k < mv.len() ==> txin_fits(#[trigger] mv[k])) && at(orig, pos as int, json_array(#[trigger] txin_pieces(mv)))) implies (
            mv.len() == 0 && cur + 1 == pos + json_array(txin_pieces(mv)).len() && txin_views(
                Seq::<TxInput>::empty(),
            ) == mv) by {
                if mv.len() > 0 {
                    lemma_arr_first(orig, pos as int, txin_pieces(mv));
                    lemma_json_txin_first(mv[0]);
                    let piece = txin_pieces(mv)[0] + (join_rest(txin_pieces(mv).skip(1)) + seq![']']);
                    assert(orig.subrange(pos + 1, pos + 1 + piece.len() as int)[0] == piece[0]);
                    assert(txin_pieces(mv)[0] == json_txin(mv[0]));
                    assert(piece[0] == '{');
                }
                assert(join_items(txin_pieces(mv)) =~= Seq::<char>::empty());
                assert(txin_views(Seq::<TxInput>::empty()) =~= mv);
            }
        }
        let out: Vec<TxInput> = Vec::new();
        return Ok((out, cur + 1));
    }
    let (e0, c1) = match parse_first_txin(s, pos, cur) {
        Ok(t) => t,
        Err(_) => {
            return Err(());
        },
    };
    let mut out: Vec<TxInput> = Vec::new();
    out.push(e0);
    let mut cur2: usize = c1;
    proof {
        assert forall|mv: Seq<TxInV>|
            ((forall|k: int| 0 <= k < mv.len() ==> txin_fits(#[trigger] mv[k])) && at(orig, pos as int, json_array(#[trigger] txin_pieces(mv)))) implies (1
            <= out@.len() <= mv.len() && txin_views(out@) == mv.take(out@.len() as int) && cur2
            == pos + 1 + join_items(txin_pieces(mv).take(out@.len() as int)).len()) by {
            assert(txin_views(out@) =~= mv.take(1));
        }
    }
    loop
        invariant
            pos < cur2 <= s@.len(),
            s@ == orig,
            out@.len() >= 1,
            forall|mv: Seq<TxInV>|
                ((forall|k: int| 0 <= k < mv.len() ==> txin_fits(#[trigger] mv[k])) && at(orig, pos as int, json_array(#[trigger] txin_pieces(mv)))) ==> (1
                    <= out@.len() <= mv.len() && txin_views(out@) == mv.take(out@.len() as int)
                    && cur2 == pos + 1 + join_items(txin_pieces(mv).take(out@.len() as int)).len()),
        decreases s@.len() - cur2,
    {
        if cur2 == s.len() {
            proof {
                assert forall|mv: Seq<TxInV>|
                    ((forall|k: int| 0 <= k < mv.len() ==> txin_fits(#[trigger] mv[k])) && at(orig, pos as int, json_array(#[trigger] txin_pieces(mv))))
                    implies false by {
                    lemma_arr_stands(orig, pos as int, txin_pieces(mv), out@.len() as int,
                        cur2 as int);
                }
            }
            return Err(());
        }
        if s[cur2] == ']' {
            proof {
                assert forall|mv: Seq<TxInV>|
                    ((forall|k: int| 0 <= k < mv.len() ==> txin_fits(#[trigger] mv[k])) && at(orig, pos as int, json_array(#[trigger] txin_pieces(mv))))
                    implies (txin_views(out@) == mv && cur2 + 1 == pos + json_array(
                    txin_pieces(mv),
                ).len()) by {
                    lemma_arr_stands(orig, pos as int, txin_pieces(mv), out@.len() as int,
                        cur2 as int);
                    if out@.len() < mv.len() {
                        let piece = seq![','] + (txin_pieces(mv)[out@.len() as int] + (join_rest(
                            txin_pieces(mv).skip(out@.len() as int + 1),
                        ) + seq![']']));
                        assert(orig.subrange(cur2 as int, cur2 + piece.len() as int)[0]
                            == piece[0]);
                    }
                    assert(mv.take(mv.len() as int) =~= mv);
                }
            }
            return Ok((out, cur2 + 1));
        }
        if s[cur2] != ',' {
            proof {
                assert forall|mv: Seq<TxInV>|
                    ((forall|k: int| 0 <= k < mv.len() ==> txin_fits(#[trigger] mv[k])) && at(orig, pos as int, json_array(#[trigger] txin_pieces(mv))))
                    implies false by {
                    lemma_arr_stands(orig, pos as int, txin_pieces(mv), out@.len() as int,
                        cur2 as int);
                    if out@.len() < mv.len() {
                        let piece = seq![','] + (txin_pieces(mv)[out@.len() as int] + (join_rest(
                            txin_pieces(mv).skip(out@.len() as int + 1),
                        ) + seq![']']));
                        assert(orig.subrange(cur2 as int, cur2 + piece.len() as int)[0]
                            == piece[0]);
                    } else {
                        assert(orig.subrange(cur2 as int, cur2 + 1)[0] == ']');
                    }
                }
            }
            return Err(());
        }
        let ghost prevlen: int = out@.len() as int;
        proof {
            assert forall|mv: Seq<TxInV>|
                ((forall|k: int| 0 <= k < mv.len() ==> txin_fits(#[trigger] mv[k])) && at(orig, pos as int, json_array(#[trigger] txin_pieces(mv)))) implies (
            prevlen < mv.len()) by {
                lemma_arr_stands(orig, pos as int, txin_pieces(mv), prevlen, cur2 as int);
                if prevlen == mv.len() {
                    assert(orig.subrange(cur2 as int, cur2 + 1)[0] == ']');
                }
            }
        }
        let (e, c2) = match parse_next_txin(s, pos, cur2, Ghost(out@.len() as int)) {
            Ok(t) => t,
            Err(_) => {
                return Err(());
            },
        };
        out.push(e);
        proof {
            assert forall|mv: Seq<TxInV>|
                ((forall|k: int| 0 <= k < mv.len() ==> txin_fits(#[trigger] mv[k])) && at(orig, pos as int, json_array(#[trigger] txin_pieces(mv)))) implies (1
                <= out@.len() <= mv.len() && txin_views(out@) == mv.take(out@.len() as int) && c2
                == pos + 1 + join_items(txin_pieces(mv).take(out@.len() as int)).len()) by {
                assert(e@ == mv[prevlen] && c2 == pos + 1 + join_items(
                    txin_pieces(mv).take(prevlen + 1),
                ).len());
                assert(txin_views(out@) =~= mv.take(prevlen + 1));
            }
        }
        cur2 = c2;
    }
}

/// Reads the first element of a non-empty array of this kind.
fn parse_first_txout(s: &Vec<char>, pos: usize, cur: usize) -> (r: Result<(TxOutput, usize), ()>)
    requires
        pos < cur <= s@.len(),
        cur == pos + 1,
        cur < s@.len() ==> s@[cur as int] != ']',
    ensures
        r matches Ok(t) ==> cur < t.1 <= s@.len(),
        forall|mv: Seq<TxOutV>|
            (forall|k: int| 0 <= k < mv.len() ==> txout_fits(#[trigger] mv[k])) && at(s@, pos as int, json_array(#[trigger] txout_pieces(mv))) ==> (r matches
                Ok(t) && mv.len() >= 1 && t.0@ == mv[0] && t.1 == pos + 1 + join_items(
                txout_pieces(mv).take(1),
            ).len()),
{
    proof {
        assert forall|mv: Seq<TxOutV>|
            (forall|k: int| 0 <= k < mv.len() ==> txout_fits(#[trigger] mv[k])) && at(s@, pos as int, json_array(#[trigger] txout_pieces(mv))) implies (mv.len()
            >= 1 && at(s@, cur as int, json_txout(mv[0]))) by {
            if mv.len() == 0 {
                assert(join_items(txout_pieces(mv)) =~= Seq::<char>::empty());
                assert(json_array(txout_pieces(mv)) =~= seq!['[', ']']);
                assert(s@.subrange(pos as int, pos + 2)[1] == ']');
            } else {
                lemma_arr_first(s@, pos as int, txout_pieces(mv));
                lemma_at_concat(
                    s@,
                    cur as int,
                    txout_pieces(mv)[0],
                    join_rest(txout_pieces(mv).skip(1)) + seq![']'],
                );
                assert(txout_pieces(mv)[0] == json_txout(mv[0]));
            }
        }
    }
    match parse_txout(s, cur) {
        Ok((e, p)) => {
            proof {
                assert forall|mv: Seq<TxOutV>|
                    (forall|k: int| 0 <= k < mv.len() ==> txout_fits(#[trigger] mv[k])) && at(s@, pos as int, json_array(#[trigger] txout_pieces(mv))) implies (
                mv.len() >= 1 && e@ == mv[0] && p == pos + 1 + join_items(
                    txout_pieces(mv).take(1),
                ).len()) by {
                    lemma_arr_first(s@, pos as int, txout_pieces(mv));
                    assert(txout_pieces(mv)[0] == json_txout(mv[0]));
                }
            }
            Ok((e, p))
        },
        Err(_) => {
            proof {
                assert forall|mv: Seq<TxOutV>|
                    (forall|k: int| 0 <= k < mv.len() ==> txout_fits(#[trigger] mv[k])) && at(s@, pos as int, json_array(#[trigger] txout_pieces(mv)))
                    implies false by {
                    assert(at(s@, cur as int, json_txout(mv[0])));
                }
            }
            Err(())
        },
    }
}

/// Reads one more element of an array of this kind, past a separating comma.
fn parse_next_txout(s: &Vec<char>, pos: usize, cur: usize, j: Ghost<int>) -> (r: Result<
    (TxOutput, usize),
    (),
>)
    requires
        pos < cur < s@.len(),
    ensures
        r matches Ok(t) ==> cur < t.1 <= s@.len(),
        forall|mv: Seq<TxOutV>|
            ((forall|k: int| 0 <= k < mv.len() ==> txout_fits(#[trigger] mv[k])) && at(s@, pos as int, json_array(#[trigger] txout_pieces(mv))) && 1 <= j@
                < mv.len() && cur == pos + 1 + join_items(txout_pieces(mv).take(j@)).len()) ==> (r
                matches Ok(t) && t.0@ == mv[j@] && t.1 == pos + 1 + join_items(
                txout_pieces(mv).take(j@ + 1),
            ).len()),
{
    proof {
        assert forall|mv: Seq<TxOutV>|
            ((forall|k: int| 0 <= k < mv.len() ==> txout_fits(#[trigger] mv[k])) && at(s@, pos as int, json_array(#[trigger] txout_pieces(mv))) && 1 <= j@
                < mv.len() && cur == pos + 1 + join_items(txout_pieces(mv).take(j@)).len()) implies (at(
            s@,
            cur + 1,
            json_txout(mv[j@]),
        )) by {
            lemma_arr_stands(s@, pos as int, txout_pieces(mv), j@, cur as int);
            lemma_at_concat(
                s@,
                cur as int,
                seq![','],
                txout_pieces(mv)[j@] + (join_rest(txout_pieces(mv).skip(j@ + 1)) + seq![']']),
            );
            lemma_at_concat(
                s@,
                cur + 1,
                txout_pieces(mv)[j@],
                join_rest(txout_pieces(mv).skip(j@ + 1)) + seq![']'],
            );
            assert(txout_pieces(mv)[j@] == json_txout(mv[j@]));
        }
    }
    let slen: usize = s.len();
    proof {
        assert(cur < slen);
    }
    match parse_txout(s, cur + 1) {
        Ok((e, p)) => {
            proof {
                assert forall|mv: Seq<TxOutV>|
                    ((forall|k: int| 0 <= k < mv.len() ==> txout_fits(#[trigger] mv[k])) && at(s@, pos as int, json_array(#[trigger] txout_pieces(mv))) && 1
                        <= j@ < mv.len() && cur == pos + 1 + join_items(
                        txout_pieces(mv).take(j@),
                    ).len()) implies (e@ == mv[j@] && p == pos + 1 + join_items(
                    txout_pieces(mv).take(j@ + 1),
                ).len()) by {
                    assert(at(s@, cur + 1, json_txout(mv[j@])));
                    assert(txout_pieces(mv).take(j@ + 1) =~= txout_pieces(mv).take(j@).push(
                        txout_pieces(mv)[j@],
                    ));
                    lemma_join_items_push(txout_pieces(mv).take(j@), txout_pieces(mv)[j@]);
                }
            }
            Ok((e, p))
        },
        Err(_) => {
            proof {
                assert forall|mv: Seq<TxOutV>|
                    ((forall|k: int| 0 <= k < mv.len() ==> txout_fits(#[trigger] mv[k])) && at(s@, pos as int, json_array(#[trigger] txout_pieces(mv))) && 1
                        <= j@ < mv.len() && cur == pos + 1 + join_items(
                        txout_pieces(mv).take(j@),
                    ).len()) implies false by {
                    assert(at(s@, cur + 1, json_txout(mv[j@])));
                }
            }
            Err(())
        },
    }
}

/// Reads an array of this kind in canonical form.
pub fn parse_txout_arr(s: &Vec<char>, pos: usize) -> (r: Result<(Vec<TxOutput>, usize), ()>)
    requires
        pos <= s@.len(),
    ensures
        r matches Ok(t) ==> pos < t.1 <= s@.len(),
        forall|mv: Seq<TxOutV>|
            ((forall|k: int| 0 <= k < mv.len() ==> txout_fits(#[trigger] mv[k])) && at(s@, pos as int, json_array(#[trigger] txout_pieces(mv)))) ==> (r matches
                Ok(t) && txout_views(t.0@) == mv && t.1 == pos + json_array(txout_pieces(mv)).len()),
{
    let ghost orig: Seq<char> = s@;
    if pos == s.len() || s[pos] != '[' {
        proof {
            assert forall|mv: Seq<TxOutV>|
                ((forall|k: int| 0 <= k < mv.len() ==> txout_fits(#[trigger] mv[k])) && at(orig, pos as int, json_array(#[trigger] txout_pieces(mv))))
                implies false by {
                assert(orig.subrange(pos as int, pos + json_array(txout_pieces(mv)).len() as int)[0]
                    == '[');
            }
        }
        return Err(());
    }
    let mut cur: usize = pos + 1;
    if cur < s.len() && s[cur] == ']' {
        proof {
            assert forall|mv: Seq<TxOutV>|
                ((forall|k: int| 0 <= k < mv.len() ==> txout_fits(#[trigger] mv[k])) && at(orig, pos as int, json_array(#[trigger] txout_pieces(mv)))) implies (
            mv.len() == 0 && cur + 1 == pos + json_array(txout_pieces(mv)).len() && txout_views(
                Seq::<TxOutput>::empty(),
            ) == mv) by {
                if mv.len() > 0 {
                    lemma_arr_first(orig, pos as int, txout_pieces(mv));
                    lemma_json_txout_first(mv[0]);
                    let piece = txout_pieces(mv)[0] + (join_rest(txout_pieces(mv).skip(1)) + seq![']']);
                    assert(orig.subrange(pos + 1, pos + 1 + piece.len() as int)[0] == piece[0]);
                    assert(txout_pieces(mv)[0] == json_txout(mv[0]));
                    assert(piece[0] == '{');
                }
                assert(join_items(txout_pieces(mv)) =~= Seq::<char>::empty());
                assert(txout_views(Seq::<TxOutput>::empty()) =~= mv);
            }
        }
        let out: Vec<TxOutput> = Vec::new();
        return Ok((out, cur + 1));
    }
    let (e0, c1) = match parse_first_txout(s, pos, cur) {
        Ok(t) => t,
        Err(_) => {
            return Err(());
        },
    };
    let mut out: Vec<TxOutput> = Vec::new();
    out.push(e0);
    let mut cur2: usize = c1;
    proof {
        assert forall|mv: Seq<TxOutV>|
            ((forall|k: int| 0 <= k < mv.len() ==> txout_fits(#[trigger] mv[k])) && at(orig, pos as int, json_array(#[trigger] txout_pieces(mv)))) implies (1
            <= out@.len() <= mv.len() && txout_views(out@) == mv.take(out@.len() as int) && cur2
            == pos + 1 + join_items(txout_pieces(mv).take(out@.len() as int)).len()) by {
            assert(txout_views(out@) =~= mv.take(1));
        }
    }
    loop
        invariant
            pos < cur2 <= s@.len(),
            s@ == orig,
            out@.len() >= 1,
            forall|mv: Seq<TxOutV>|
                ((forall|k: int| 0 <= k < mv.len() ==> txout_fits(#[trigger] mv[k])) && at(orig, pos as int, json_array(#[trigger] txout_pieces(mv)))) ==> (1
                    <= out@.len() <= mv.len() && txout_views(out@) == mv.take(out@.len() as int)
                    && cur2 == pos + 1 + join_items(txout_pieces(mv).take(out@.len() as int)).len()),
        decreases s@.len() - cur2,
    {
        if cur2 == s.len() {
            proof {
                assert forall|mv: Seq<TxOutV>|
                    ((forall|k: int| 0 <= k < mv.len() ==> txout_fits(#[trigger] mv[k])) && at(orig, pos as int, json_array(#[trigger] txout_pieces(mv))))
                    implies false by {
                    lemma_arr_stands(orig, pos as int, txout_pieces(mv), out@.len() as int,
                        cur2 as int);
                }
            }
            return Err(());
        }
        if s[cur2] == ']' {
            proof {
                assert forall|mv: Seq<TxOutV>|
                    ((forall|k: int| 0 <= k < mv.len() ==> txout_fits(#[trigger] mv[k])) && at(orig, pos as int, json_array(#[trigger] txout_pieces(mv))))
                    implies (txout_views(out@) == mv && cur2 + 1 == pos + json_array(
                    txout_pieces(mv),
                ).len()) by {
                    lemma_arr_stands(orig, pos as int, txout_pieces(mv), out@.len() as int,
                        cur2 as int);
                    if out@.len() < mv.len() {
                        let piece = seq![','] + (txout_pieces(mv)[out@.len() as int] + (join_rest(
                            txout_pieces(mv).skip(out@.len() as int + 1),
                        ) + seq![']']));
                        assert(orig.subrange(cur2 as int, cur2 + piece.len() as int)[0]
                            == piece[0]);
                    }
                    assert(mv.take(mv.len() as int) =~= mv);
                }
            }
            return Ok((out, cur2 + 1));
        }
        if s[cur2] != ',' {
            proof {
                assert forall|mv: Seq<TxOutV>|
                    ((forall|k: int| 0 <= k < mv.len() ==> txout_fits(#[trigger] mv[k])) && at(orig, pos as int, json_array(#[trigger] txout_pieces(mv))))
                    implies false by {
                    lemma_arr_stands(orig, pos as int, txout_pieces(mv), out@.len() as int,
                        cur2 as int);
                    if out@.len() < mv.len() {
                        let piece = seq![','] + (txout_pieces(mv)[out@.len() as int] + (join_rest(
                            txout_pieces(mv).skip(out@.len() as int + 1),
                        ) + seq![']']));
                        assert(orig.subrange(cur2 as int, cur2 + piece.len() as int)[0]
                            == piece[0]);
                    } else {
                        assert(orig.subrange(cur2 as int, cur2 + 1)[0] == ']');
                    }
                }
            }
            return Err(());
        }
        let ghost prevlen: int = out@.len() as int;
        proof {
            assert forall|mv: Seq<TxOutV>|
                ((forall|k: int| 0 <= k < mv.len() ==> txout_fits(#[trigger] mv[k])) && at(orig, pos as int, json_array(#[trigger] txout_pieces(mv)))) implies (
            prevlen < mv.len()) by {
                lemma_arr_stands(orig, pos as int, txout_pieces(mv), prevlen, cur2 as int);
                if prevlen == mv.len() {
                    assert(orig.subrange(cur2 as int, cur2 + 1)[0] == ']');
                }
            }
        }
        let (e, c2) = match parse_next_txout(s, pos, cur2, Ghost(out@.len() as int)) {
            Ok(t) => t,
            Err(_) => {
                return Err(());
            },
        };
        out.push(e);
        proof {
            assert forall|mv: Seq<TxOutV>|
                ((forall|k: int| 0 <= k < mv.len() ==> txout_fits(#[trigger] mv[k])) && at(orig, pos as int, json_array(#[trigger] txout_pieces(mv)))) implies (1
                <= out@.len() <= mv.len() && txout_views(out@) == mv.take(out@.len() as int) && c2
                == pos + 1 + join_items(txout_pieces(mv).take(out@.len() as int)).len()) by {
                assert(e@ == mv[prevlen] && c2 == pos + 1 + join_items(
                    txout_pieces(mv).take(prevlen + 1),
                ).len());
                assert(txout_views(out@) =~= mv.take(prevlen + 1));
            }
        }
        cur2 = c2;
    }
}

/// Reads the first element of a non-empty array of this kind.
fn parse_first_tx(s: &Vec<char>, pos: usize, cur: usize) -> (r: Result<(Transaction, usize), ()>)
    requires
        pos < cur <= s@.len(),
        cur == pos + 1,
        cur < s@.len() ==> s@[cur as int] != ']',
    ensures
        r matches Ok(t) ==> cur < t.1 <= s@.len(),
        forall|mv: Seq<TxV>|
            (forall|k: int| 0 <= k < mv.len() ==> tx_fits(#[trigger] mv[k])) && at(s@, pos as int, json_array(#[trigger] tx_pieces(mv))) ==> (r matches
                Ok(t) && mv.len() >= 1 && t.0@ == mv[0] && t.1 == pos + 1 + join_items(
                tx_pieces(mv).take(1),
            ).len()),
{
    proof {
        assert forall|mv: Seq<TxV>|
            (forall|k: int| 0 <= k < mv.len() ==> tx_fits(#[trigger] mv[k])) && at(s@, pos as int, json_array(#[trigger] tx_pieces(mv))) implies (mv.len()
            >= 1 && at(s@, cur as int, json_tx(mv[0]))) by {
            if mv.len() == 0 {
                assert(join_items(tx_pieces(mv)) =~= Seq::<char>::empty());
                assert(json_array(tx_pieces(mv)) =~= seq!['[', ']']);
                assert(s@.subrange(pos as int, pos + 2)[1] == ']');
            } else {
                lemma_arr_first(s@, pos as int, tx_pieces(mv));
                lemma_at_concat(
                    s@,
                    cur as int,
                    tx_pieces(mv)[0],
                    join_rest(tx_pieces(mv).skip(1)) + seq![']'],
                );
                assert(tx_pieces(mv)[0] == json_tx(mv[0]));
            }
        }
    }
    match parse_tx(s, cur) {
        Ok((e, p)) => {
            proof {
                assert forall|mv: Seq<TxV>|
                    (forall|k: int| 0 <= k < mv.len() ==> tx_fits(#[trigger] mv[k])) && at(s@, pos as int, json_array(#[trigger] tx_pieces(mv))) implies (
                mv.len() >= 1 && e@ == mv[0] && p == pos + 1 + join_items(
                    tx_pieces(mv).take(1),
                ).len()) by {
                    lemma_arr_first(s@, pos as int, tx_pieces(mv));
                    assert(tx_pieces(mv)[0] == json_tx(mv[0]));
                }
            }
            Ok((e, p))
        },
        Err(_) => {
            proof {
                assert forall|mv: Seq<TxV>|
                    (forall|k: int| 0 <= k < mv.len() ==> tx_fits(#[trigger] mv[k])) && at(s@, pos as int, json_array(#[trigger] tx_pieces(mv)))
                    implies false by {
                    assert(at(s@, cur as int, json_tx(mv[0])));
                }
            }
            Err(())
        },
    }
}

/// Reads one more element of an array of this kind, past a separating comma.
fn parse_next_tx(s: &Vec<char>, pos: usize, cur: usize, j: Ghost<int>) -> (r: Result<
    (Transaction, usize),
    (),
>)
    requires
        pos < cur < s@.len(),
    ensures
        r matches Ok(t) ==> cur < t.1 <= s@.len(),
        forall|mv: Seq<TxV>|
            ((forall|k: int| 0 <= k < mv.len() ==> tx_fits(#[trigger] mv[k])) && at(s@, pos as int, json_array(#[trigger] tx_pieces(mv))) && 1 <= j@
                < mv.len() && cur == pos + 1 + join_items(tx_pieces(mv).take(j@)).len()) ==> (r
                matches Ok(t) && t.0@ == mv[j@] && t.1 == pos + 1 + join_items(
                tx_pieces(mv).take(j@ + 1),
            ).len()),
{
    proof {
        assert forall|mv: Seq<TxV>|
            ((forall|k: int| 0 <= k < mv.len() ==> tx_fits(#[trigger] mv[k])) && at(s@, pos as int, json_array(#[trigger] tx_pieces(mv))) && 1 <= j@
                < mv.len() && cur == pos + 1 + join_items(tx_pieces(mv).take(j@)).len()) implies (at(
            s@,
            cur + 1,
            json_tx(mv[j@]),
        )) by {
            lemma_arr_stands(s@, pos as int, tx_pieces(mv), j@, cur as int);
            lemma_at_concat(
                s@,
                cur as int,
                seq![','],
                tx_pieces(mv)[j@] + (join_rest(tx_pieces(mv).skip(j@ + 1)) + seq![']']),
            );
            lemma_at_concat(
                s@,
                cur + 1,
                tx_pieces(mv)[j@],
                join_rest(tx_pieces(mv).skip(j@ + 1)) + seq![']'],
            );
            assert(tx_pieces(mv)[j@] == json_tx(mv[j@]));
        }
    }
    let slen: usize = s.len();
    proof {
        assert(cur < slen);
    }
    match parse_tx(s, cur + 1) {
        Ok((e, p)) => {
            proof {
                assert forall|mv: Seq<TxV>|
                    ((forall|k: int| 0 <= k < mv.len() ==> tx_fits(#[trigger] mv[k])) && at(s@, pos as int, json_array(#[trigger] tx_pieces(mv))) && 1
                        <= j@ < mv.len() && cur == pos + 1 + join_items(
                        tx_pieces(mv).take(j@),
                    ).len()) implies (e@ == mv[j@] && p == pos + 1 + join_items(
                    tx_pieces(mv).take(j@ + 1),
                ).len()) by {
                    assert(at(s@, cur + 1, json_tx(mv[j@])));
                    assert(tx_pieces(mv).take(j@ + 1) =~= tx_pieces(mv).take(j@).push(
                        tx_pieces(mv)[j@],
                    ));
                    lemma_join_items_push(tx_pieces(mv).take(j@), tx_pieces(mv)[j@]);
                }
            }
            Ok((e, p))
        },
        Err(_) => {
            proof {
                assert forall|mv: Seq<TxV>|
                    ((forall|k: int| 0 <= k < mv.len() ==> tx_fits(#[trigger] mv[k])) && at(s@, pos as int, json_array(#[trigger] tx_pieces(mv))) && 1
                        <= j@ < mv.len() && cur == pos + 1 + join_items(
                        tx_pieces(mv).take(j@),
                    ).len()) implies false by {
                    assert(at(s@, cur + 1, json_tx(mv[j@])));
                }
            }
            Err(())
        },
    }
}

/// Reads an array of this kind in canonical form.
#[verifier::rlimit(100)]
#[verifier::spinoff_prover]
pub fn parse_tx_arr(s: &Vec<char>, pos: usize) -> (r: Result<(Vec<Transaction>, usize), ()>)
    requires
        pos <= s@.len(),
    ensures
        r matches Ok(t) ==> pos < t.1 <= s@.len(),
        forall|mv: Seq<TxV>|
            ((forall|k: int| 0 <= k < mv.len() ==> tx_fits(#[trigger] mv[k])) && at(s@, pos as int, json_array(#[trigger] tx_pieces(mv)))) ==> (r matches
                Ok(t) && tx_views(t.0@) == mv && t.1 == pos + json_array(tx_pieces(mv)).len()),
{
    let ghost orig: Seq<char> = s@;
    if pos == s.len() || s[pos] != '[' {
        proof {
            assert forall|mv: Seq<TxV>|
                ((forall|k: int| 0 <= k < mv.len() ==> tx_fits(#[trigger] mv[k])) && at(orig, pos as int, json_array(#[trigger] tx_pieces(mv))))
                implies false by {
                assert(orig.subrange(pos as int, pos + json_array(tx_pieces(mv)).len() as int)[0]
                    == '[');
            }
        }
        return Err(());
    }
    let mut cur: usize = pos + 1;
    if cur < s.len() && s[cur] == ']' {
        proof {
            assert forall|mv: Seq<TxV>|
                ((forall|k: int| 0 <= k < mv.len() ==> tx_fits(#[trigger] mv[k])) && at(orig, pos as int, json_array(#[trigger] tx_pieces(mv)))) implies (
            mv.len() == 0 && cur + 1 == pos + json_array(tx_pieces(mv)).len() && tx_views(
                Seq::<Transaction>::empty(),
            ) == mv) by {
                if mv.len() > 0 {
                    lemma_arr_first(orig, pos as int, tx_pieces(mv));
                    lemma_json_tx_first(mv[0]);
                    let piece = tx_pieces(mv)[0] + (join_rest(tx_pieces(mv).skip(1)) + seq![']']);
                    assert(orig.subrange(pos + 1, pos + 1 + piece.len() as int)[0] == piece[0]);
                    assert(tx_pieces(mv)[0] == json_tx(mv[0]));
                    assert(piece[0] == '{');
                }
                assert(join_items(tx_pieces(mv)) =~= Seq::<char>::empty());
                assert(tx_views(Seq::<Transaction>::empty()) =~= mv);
            }
        }
        let out: Vec<Transaction> = Vec::new();
        return Ok((out, cur + 1));
    }
    let (e0, c1) = match parse_first_tx(s, pos, cur) {
        Ok(t) => t,
        Err(_) => {
            return Err(());
        },
    };
    let mut out: Vec<Transaction> = Vec::new();
    out.push(e0);
    let mut cur2: usize = c1;
    proof {
        assert forall|mv: Seq<TxV>|
            ((forall|k: int| 0 <= k < mv.len() ==> tx_fits(#[trigger] mv[k])) && at(orig, pos as int, json_array(#[trigger] tx_pieces(mv)))) implies (1
            <= out@.len() <= mv.len() && tx_views(out@) == mv.take(out@.len() as int) && cur2
            == pos + 1 + join_items(tx_pieces(mv).take(out@.len() as int)).len()) by {
            assert(tx_views(out@) =~= mv.take(1));
        }
    }
    loop
        invariant
            pos < cur2 <= s@.len(),
            s@ == orig,
            out@.len() >= 1,
            forall|mv: Seq<TxV>|
                ((forall|k: int| 0 <= k < mv.len() ==> tx_fits(#[trigger] mv[k])) && at(orig, pos as int, json_array(#[trigger] tx_pieces(mv)))) ==> (1
                    <= out@.len() <= mv.len() && tx_views(out@) == mv.take(out@.len() as int)
                    && cur2 == pos + 1 + join_items(tx_pieces(mv).take(out@.len() as int)).len()),
        decreases s@.len() - cur2,
    {
        if cur2 == s.len() {
            proof {
                assert forall|mv: Seq<TxV>|
                    ((forall|k: int| 0 <= k < mv.len() ==> tx_fits(#[trigger] mv[k])) && at(orig, pos as int, json_array(#[trigger] tx_pieces(mv))))
                    implies false by {
                    lemma_arr_stands(orig, pos as int, tx_pieces(mv), out@.len() as int,
                        cur2 as int);
                }
            }
            return Err(());
        }
        if s[cur2] == ']' {
            proof {
                assert forall|mv: Seq<TxV>|
                    ((forall|k: int| 0 <= k < mv.len() ==> tx_fits(#[trigger] mv[k])) && at(orig, pos as int, json_array(#[trigger] tx_pieces(mv))))
                    implies (tx_views(out@) == mv && cur2 + 1 == pos + json_array(
                    tx_pieces(mv),
                ).len()) by {
                    lemma_arr_stands(orig, pos as int, tx_pieces(mv), out@.len() as int,
                        cur2 as int);
                    if out@.len() < mv.len() {
                        let piece = seq![','] + (tx_pieces(mv)[out@.len() as int] + (join_rest(
                            tx_pieces(mv).skip(out@.len() as int + 1),
                        ) + seq![']']));
                        assert(orig.subrange(cur2 as int, cur2 + piece.len() as int)[0]
                            == piece[0]);
                    }
                    assert(mv.take(mv.len() as int) =~= mv);
                }
            }
            return Ok((out, cur2 + 1));
        }
        if s[cur2] != ',' {
            proof {
                assert forall|mv: Seq<TxV>|
                    ((forall|k: int| 0 <= k < mv.len() ==> tx_fits(#[trigger] mv[k])) && at(orig, pos as int, json_array(#[trigger] tx_pieces(mv))))
                    implies false by {
                    lemma_arr_stands(orig, pos as int, tx_pieces(mv), out@.len() as int,
                        cur2 as int);
                    if out@.len() < mv.len() {
                        let piece = seq![','] + (tx_pieces(mv)[out@.len() as int] + (join_rest(
                            tx_pieces(mv).skip(out@.len() as int + 1),
                        ) + seq![']']));
                        assert(orig.subrange(cur2 as int, cur2 + piece.len() as int)[0]
                            == piece[0]);
                    } else {
                        assert(orig.subrange(cur2 as int, cur2 + 1)[0] == ']');
                    }
                }
            }
            return Err(());
        }
        let ghost prevlen: int = out@.len() as int;
        proof {
            assert forall|mv: Seq<TxV>|
                ((forall|k: int| 0 <= k < mv.len() ==> tx_fits(#[trigger] mv[k])) && at(orig, pos as int, json_array(#[trigger] tx_pieces(mv)))) implies (
            prevlen < mv.len()) by {
                lemma_arr_stands(orig, pos as int, tx_pieces(mv), prevlen, cur2 as int);
                if prevlen == mv.len() {
                    assert(orig.subrange(cur2 as int, cur2 + 1)[0] == ']');
                }
            }
        }
        let (e, c2) = match parse_next_tx(s, pos, cur2, Ghost(out@.len() as int)) {
            Ok(t) => t,
            Err(_) => {
                return Err(());
            },
        };
        out.push(e);
        proof {
            assert forall|mv: Seq<TxV>|
                ((forall|k: int| 0 <= k < mv.len() ==> tx_fits(#[trigger] mv[k])) && at(orig, pos as int, json_array(#[trigger] tx_pieces(mv)))) implies (1
                <= out@.len() <= mv.len() && tx_views(out@) == mv.take(out@.len() as int) && c2
                == pos + 1 + join_items(tx_pieces(mv).take(out@.len() as int)).len()) by {
                assert(e@ == mv[prevlen] && c2 == pos + 1 + join_items(
                    tx_pieces(mv).take(prevlen + 1),
                ).len());
                assert(tx_views(out@) =~= mv.take(prevlen + 1));
            }
        }
        cur2 = c2;
    }
}


/// A rendered input starts with an opening brace.
pub proof fn lemma_json_txin_first(m: TxInV)
    ensures
        json_txin(m).len() >= 1,
        json_txin(m)[0] == '{',
{
    reveal(json_txin);
}

/// A rendered output starts with an opening brace.
pub proof fn lemma_json_txout_first(m: TxOutV)
    ensures
        json_txout(m).len() >= 1,
        json_txout(m)[0] == '{',
{
    reveal(json_txout);
}

/// A rendered transaction starts with an opening brace.
pub proof fn lemma_json_tx_first(m: TxV)
    ensures
        json_tx(m).len() >= 1,
        json_tx(m)[0] == '{',
{
    reveal(json_tx);
}

/// Where each part of an input's canonical form stands.
pub proof fn txin_parts(s: Seq<char>, pos: int, m: TxInV)
    requires
        at(s, pos, json_txin(m)),
    ensures
        at(s, pos, lit_txid()),
        at(s, pos + 8, json_string(m.txid)),
        at(s, pos + 8 + json_string(m.txid).len(), lit_vout()),
        int_at(s, pos + 16 + json_string(m.txid).len(), m.vout),
        at(
            s,
            pos + 16 + json_string(m.txid).len() + json_int(m.vout).len(),
            lit_signature(),
        ),
        at(
            s,
            pos + 29 + json_string(m.txid).len() + json_int(m.vout).len(),
            json_string(m.signature),
        ),
        at(
            s,
            pos + 29 + json_string(m.txid).len() + json_int(m.vout).len() + json_string(
                m.signature,
            ).len(),
            lit_pubkey(),
        ),
        at(
            s,
            pos + 39 + json_string(m.txid).len() + json_int(m.vout).len() + json_string(
                m.signature,
            ).len(),
            json_bytes(m.pubkey),
        ),
        at(
            s,
            pos + 39 + json_string(m.txid).len() + json_int(m.vout).len() + json_string(
                m.signature,
            ).len() + json_bytes(m.pubkey).len(),
            lit_close(),
        ),
        json_txin(m).len() == 40 + json_string(m.txid).len() + json_int(m.vout).len()
            + json_string(m.signature).len() + json_bytes(m.pubkey).len(),
{
    reveal(json_txin);
    let r1 = json_string(m.txid) + (lit_vout() + (json_int(m.vout) + (lit_signature() + (
    json_string(m.signature) + (lit_pubkey() + (json_bytes(m.pubkey) + lit_close()))))));
    lemma_at_concat(s, pos, lit_txid(), r1);
    let r2 = lit_vout() + (json_int(m.vout) + (lit_signature() + (json_string(m.signature) + (
    lit_pubkey() + (json_bytes(m.pubkey) + lit_close())))));
    lemma_at_concat(s, pos + 8, json_string(m.txid), r2);
    let a2 = pos + 8 + json_string(m.txid).len();
    let r3 = json_int(m.vout) + (lit_signature() + (json_string(m.signature) + (lit_pubkey() + (
    json_bytes(m.pubkey) + lit_close()))));
    lemma_at_concat(s, a2, lit_vout(), r3);
    let a3 = a2 + 8;
    let r4 = lit_signature() + (json_string(m.signature) + (lit_pubkey() + (json_bytes(m.pubkey)
        + lit_close())));
    lemma_int_at(s, a3, m.vout, r4);
    let a4 = a3 + json_int(m.vout).len();
    let r5 = json_string(m.signature) + (lit_pubkey() + (json_bytes(m.pubkey) + lit_close()));
    lemma_at_concat(s, a4, lit_signature(), r5);
    let a5 = a4 + 13;
    let r6 = lit_pubkey() + (json_bytes(m.pubkey) + lit_close());
    lemma_at_concat(s, a5, json_string(m.signature), r6);
    let a6 = a5 + json_string(m.signature).len();
    let r7 = json_bytes(m.pubkey) + lit_close();
    lemma_at_concat(s, a6, lit_pubkey(), r7);
    let a7 = a6 + 10;
    lemma_at_concat(s, a7, json_bytes(m.pubkey), lit_close());
}

/// Reads an input in canonical form.
#[verifier::rlimit(100)]
#[verifier::spinoff_prover]
pub fn parse_txin(s: &Vec<char>, pos: usize) -> (r: Result<(TxInput, usize), ()>)
    requires
        pos <= s@.len(),
    ensures
        r matches Ok(t) ==> pos < t.1 <= s@.len(),
        forall|m: TxInV|
            txin_fits(m) && at(s@, pos as int, #[trigger] json_txin(m)) ==> (r matches Ok(t)
                && t.0@ == m && t.1 == pos + json_txin(m).len()),
{
    let lit1a: [char; 8] = ['{', '"', 't', 'x', 'i', 'd', '"', ':'];
    let lit2a: [char; 8] = [',', '"', 'v', 'o', 'u', 't', '"', ':'];
    let lit3a: [char; 13] = [',', '"', 's', 'i', 'g', 'n', 'a', 't', 'u', 'r', 'e', '"', ':'];
    let lit4a: [char; 10] = [',', '"', 'p', 'u', 'b', 'k', 'e', 'y', '"', ':'];
    let closea: [char; 1] = ['}'];
    let lit1: &[char] = &lit1a;
    let lit2: &[char] = &lit2a;
    let lit3: &[char] = &lit3a;
    let lit4: &[char] = &lit4a;
    let close: &[char] = &closea;
    proof {
        assert(lit1@ =~= lit_txid());
        assert(lit2@ =~= lit_vout());
        assert(lit3@ =~= lit_signature());
        assert(lit4@ =~= lit_pubkey());
        assert(close@ =~= lit_close());
    }
    let p1 = match expect_lit(s, pos, lit1) {
        Ok(p) => p,
        Err(_) => {
            proof {
                assert forall|m: TxInV|
                    txin_fits(m) && at(s@, pos as int, #[trigger] json_txin(m)) implies false by {
                    txin_parts(s@, pos as int, m);
                }
            }
            return Err(());
        },
    };
    let (txid, p2) = match parse_json_string(s, p1) {
        Ok(t) => t,
        Err(_) => {
            proof {
                assert forall|m: TxInV|
                    txin_fits(m) && at(s@, pos as int, #[trigger] json_txin(m)) implies false by {
                    txin_parts(s@, pos as int, m);
                }
            }
            return Err(());
        },
    };
    let p3 = match expect_lit(s, p2, lit2) {
        Ok(p) => p,
        Err(_) => {
            proof {
                assert forall|m: TxInV|
                    txin_fits(m) && at(s@, pos as int, #[trigger] json_txin(m)) implies false by {
                    txin_parts(s@, pos as int, m);
                    assert(p2 == p1 + json_string(m.txid).len());
                }
            }
            return Err(());
        },
    };
    let (vout, p4) = match parse_json_isize(s, p3) {
        Ok(t) => t,
        Err(_) => {
            proof {
                assert forall|m: TxInV|
                    txin_fits(m) && at(s@, pos as int, #[trigger] json_txin(m)) implies false by {
                    txin_parts(s@, pos as int, m);
                    assert(p2 == p1 + json_string(m.txid).len());
                    assert(int_at(s@, p3 as int, m.vout));
                }
            }
            return Err(());
        },
    };
    let p5 = match expect_lit(s, p4, lit3) {
        Ok(p) => p,
        Err(_) => {
            proof {
                assert forall|m: TxInV|
                    txin_fits(m) && at(s@, pos as int, #[trigger] json_txin(m)) implies false by {
                    txin_parts(s@, pos as int, m);
                    assert(p2 == p1 + json_string(m.txid).len());
                    assert(int_at(s@, p3 as int, m.vout));
                    assert(p4 == p3 + json_int(m.vout).len());
                }
            }
            return Err(());
        },
    };
    let (sig, p6) = match parse_json_string(s, p5) {
        Ok(t) => t,
        Err(_) => {
            proof {
                assert forall|m: TxInV|
                    txin_fits(m) && at(s@, pos as int, #[trigger] json_txin(m)) implies false by {
                    txin_parts(s@, pos as int, m);
                    assert(p2 == p1 + json_string(m.txid).len());
                    assert(int_at(s@, p3 as int, m.vout));
                    assert(p4 == p3 + json_int(m.vout).len());
                    assert(at(s@, p5 as int, json_string(m.signature)));
                }
            }
            return Err(());
        },
    };
    let p7 = match expect_lit(s, p6, lit4) {
        Ok(p) => p,
        Err(_) => {
            proof {
                assert forall|m: TxInV|
                    txin_fits(m) && at(s@, pos as int, #[trigger] json_txin(m)) implies false by {
                    txin_parts(s@, pos as int, m);
                    assert(p2 == p1 + json_string(m.txid).len());
                    assert(int_at(s@, p3 as int, m.vout));
                    assert(p4 == p3 + json_int(m.vout).len());
                    assert(at(s@, p5 as int, json_string(m.signature)));
                    assert(p6 == p5 + json_string(m.signature).len());
                }
            }
            return Err(());
        },
    };
    let (pk, p8) = match parse_bytes(s, p7) {
        Ok(t) => t,
        Err(_) => {
            proof {
                assert forall|m: TxInV|
                    txin_fits(m) && at(s@, pos as int, #[trigger] json_txin(m)) implies false by {
                    txin_parts(s@, pos as int, m);
                    assert(p2 == p1 + json_string(m.txid).len());
                    assert(int_at(s@, p3 as int, m.vout));
                    assert(p4 == p3 + json_int(m.vout).len());
                    assert(at(s@, p5 as int, json_string(m.signature)));
                    assert(p6 == p5 + json_string(m.signature).len());
                    assert(at(s@, p7 as int, json_bytes(m.pubkey)));
                }
            }
            return Err(());
        },
    };
    let p9 = match expect_lit(s, p8, close) {
        Ok(p) => p,
        Err(_) => {
            proof {
                assert forall|m: TxInV|
                    txin_fits(m) && at(s@, pos as int, #[trigger] json_txin(m)) implies false by {
                    txin_parts(s@, pos as int, m);
                    assert(p2 == p1 + json_string(m.txid).len());
                    assert(int_at(s@, p3 as int, m.vout));
                    assert(p4 == p3 + json_int(m.vout).len());
                    assert(at(s@, p5 as int, json_string(m.signature)));
                    assert(p6 == p5 + json_string(m.signature).len());
                    assert(at(s@, p7 as int, json_bytes(m.pubkey)));
                    assert(p8 == p7 + json_bytes(m.pubkey).len());
                }
            }
            return Err(());
        },
    };
    let out = TxInput {
        txid: string_of_chars(&txid),
        vout,
        signature: string_of_chars(&sig),
        pubkey: pk,
    };
    proof {
        assert forall|m: TxInV|
            txin_fits(m) && at(s@, pos as int, #[trigger] json_txin(m)) implies (out@ == m && p9
            == pos + json_txin(m).len()) by {
            txin_parts(s@, pos as int, m);
            assert(txid@ == m.txid);
            assert(p2 == p1 + json_string(m.txid).len());
            assert(int_at(s@, p3 as int, m.vout));
            assert(vout as int == m.vout);
            assert(p4 == p3 + json_int(m.vout).len());
            assert(at(s@, p5 as int, json_string(m.signature)));
            assert(sig@ == m.signature);
            assert(p6 == p5 + json_string(m.signature).len());
            assert(at(s@, p7 as int, json_bytes(m.pubkey)));
            assert(pk@ == m.pubkey);
            assert(p8 == p7 + json_bytes(m.pubkey).len());
        }
    }
    Ok((out, p9))
}

/// Where each part of a transaction's canonical form stands.
pub proof fn tx_parts(s: Seq<char>, pos: int, m: TxV)
    requires
        at(s, pos, json_tx(m)),
    ensures
        at(s, pos, lit_id()),
        at(s, pos + 6, json_string(m.id)),
        at(s, pos + 6 + json_string(m.id).len(), lit_vin()),
        at(s, pos + 13 + json_string(m.id).len(), json_array(txin_pieces(m.vin))),
        at(
            s,
            pos + 13 + json_string(m.id).len() + json_array(txin_pieces(m.vin)).len(),
            lit_vout(),
        ),
        at(
            s,
            pos + 21 + json_string(m.id).len() + json_array(txin_pieces(m.vin)).len(),
            json_array(txout_pieces(m.vout)),
        ),
        at(
            s,
            pos + 21 + json_string(m.id).len() + json_array(txin_pieces(m.vin)).len()
                + json_array(txout_pieces(m.vout)).len(),
            lit_close(),
        ),
        json_tx(m).len() == 22 + json_string(m.id).len() + json_array(txin_pieces(m.vin)).len()
            + json_array(txout_pieces(m.vout)).len(),
{
    reveal(json_tx);
    let r1 = json_string(m.id) + (lit_vin() + (json_array(txin_pieces(m.vin)) + (lit_vout() + (
    json_array(txout_pieces(m.vout)) + lit_close()))));
    lemma_at_concat(s, pos, lit_id(), r1);
    let r2 = lit_vin() + (json_array(txin_pieces(m.vin)) + (lit_vout() + (json_array(
        txout_pieces(m.vout),
    ) + lit_close())));
    lemma_at_concat(s, pos + 6, json_string(m.id), r2);
    let b2 = pos + 6 + json_string(m.id).len();
    let r3 = json_array(txin_pieces(m.vin)) + (lit_vout() + (json_array(txout_pieces(m.vout))
        + lit_close()));
    lemma_at_concat(s, b2, lit_vin(), r3);
    let b3 = b2 + 7;
    let r4 = lit_vout() + (json_array(txout_pieces(m.vout)) + lit_close());
    lemma_at_concat(s, b3, json_array(txin_pieces(m.vin)), r4);
    let b4 = b3 + json_array(txin_pieces(m.vin)).len();
    let r5 = json_array(txout_pieces(m.vout)) + lit_close();
    lemma_at_concat(s, b4, lit_vout(), r5);
    let b5 = b4 + 8;
    lemma_at_concat(s, b5, json_array(txout_pieces(m.vout)), lit_close());
}

/// Reads a transaction in canonical form.
#[verifier::rlimit(100)]
#[verifier::spinoff_prover]
pub fn parse_tx(s: &Vec<char>, pos: usize) -> (r: Result<(Transaction, usize), ()>)
    requires
        pos <= s@.len(),
    ensures
        r matches Ok(t) ==> pos < t.1 <= s@.len(),
        forall|m: TxV|
            tx_fits(m) && at(s@, pos as int, #[trigger] json_tx(m)) ==> (r matches Ok(t) && t.0@
                == m && t.1 == pos + json_tx(m).len()),
{
    let lit1a: [char; 6] = ['{', '"', 'i', 'd', '"', ':'];
    let lit2a: [char; 7] = [',', '"', 'v', 'i', 'n', '"', ':'];
    let lit3a: [char; 8] = [',', '"', 'v', 'o', 'u', 't', '"', ':'];
    let closea: [char; 1] = ['}'];
    let lit1: &[char] = &lit1a;
    let lit2: &[char] = &lit2a;
    let lit3: &[char] = &lit3a;
    let close: &[char] = &closea;
    proof {
        assert(lit1@ =~= lit_id());
        assert(lit2@ =~= lit_vin());
        assert(lit3@ =~= lit_vout());
        assert(close@ =~= lit_close());
    }
    let p1 = match expect_lit(s, pos, lit1) {
        Ok(p) => p,
        Err(_) => {
            proof {
                assert forall|m: TxV|
                    tx_fits(m) && at(s@, pos as int, #[trigger] json_tx(m)) implies false by {
                    tx_parts(s@, pos as int, m);
                }
            }
            return Err(());
        },
    };
    let (id, p2) = match parse_json_string(s, p1) {
        Ok(t) => t,
        Err(_) => {
            proof {
                assert forall|m: TxV|
                    tx_fits(m) && at(s@, pos as int, #[trigger] json_tx(m)) implies false by {
                    tx_parts(s@, pos as int, m);
                }
            }
            return Err(());
        },
    };
    let p3 = match expect_lit(s, p2, lit2) {
        Ok(p) => p,
        Err(_) => {
            proof {
                assert forall|m: TxV|
                    tx_fits(m) && at(s@, pos as int, #[trigger] json_tx(m)) implies false by {
                    tx_parts(s@, pos as int, m);
                    assert(p2 == p1 + json_string(m.id).len());
                }
            }
            return Err(());
        },
    };
    let (vin, p4) = match parse_txin_arr(s, p3) {
        Ok(t) => t,
        Err(_) => {
            proof {
                assert forall|m: TxV|
                    tx_fits(m) && at(s@, pos as int, #[trigger] json_tx(m)) implies false by {
                    tx_parts(s@, pos as int, m);
                    assert(p2 == p1 + json_string(m.id).len());
                    assert(at(s@, p3 as int, json_array(txin_pieces(m.vin))));
                }
            }
            return Err(());
        },
    };
    let p5 = match expect_lit(s, p4, lit3) {
        Ok(p) => p,
        Err(_) => {
            proof {
                assert forall|m: TxV|
                    tx_fits(m) && at(s@, pos as int, #[trigger] json_tx(m)) implies false by {
                    tx_parts(s@, pos as int, m);
                    assert(p2 == p1 + json_string(m.id).len());
                    assert(at(s@, p3 as int, json_array(txin_pieces(m.vin))));
                    assert(p4 == p3 + json_array(txin_pieces(m.vin)).len());
                }
            }
            return Err(());
        },
    };
    let (vout, p6) = match parse_txout_arr(s, p5) {
        Ok(t) => t,
        Err(_) => {
            proof {
                assert forall|m: TxV|
                    tx_fits(m) && at(s@, pos as int, #[trigger] json_tx(m)) implies false by {
                    tx_parts(s@, pos as int, m);
                    assert(p2 == p1 + json_string(m.id).len());
                    assert(at(s@, p3 as int, json_array(txin_pieces(m.vin))));
                    assert(p4 == p3 + json_array(txin_pieces(m.vin)).len());
                    assert(at(s@, p5 as int, json_array(txout_pieces(m.vout))));
                }
            }
            return Err(());
        },
    };
    let p7 = match expect_lit(s, p6, close) {
        Ok(p) => p,
        Err(_) => {
            proof {
                assert forall|m: TxV|
                    tx_fits(m) && at(s@, pos as int, #[trigger] json_tx(m)) implies false by {
                    tx_parts(s@, pos as int, m);
                    assert(p2 == p1 + json_string(m.id).len());
                    assert(at(s@, p3 as int, json_array(txin_pieces(m.vin))));
                    assert(p4 == p3 + json_array(txin_pieces(m.vin)).len());
                    assert(at(s@, p5 as int, json_array(txout_pieces(m.vout))));
                    assert(p6 == p5 + json_array(txout_pieces(m.vout)).len());
                }
            }
            return Err(());
        },
    };
    let out = Transaction { id: string_of_chars(&id), vin, vout };
    proof {
        assert forall|m: TxV|
            tx_fits(m) && at(s@, pos as int, #[trigger] json_tx(m)) implies (out@ == m && p7 == pos
            + json_tx(m).len()) by {
            tx_parts(s@, pos as int, m);
            assert(id@ == m.id);
            assert(p2 == p1 + json_string(m.id).len());
            assert(at(s@, p3 as int, json_array(txin_pieces(m.vin))));
            assert(txin_views(vin@) == m.vin);
            assert(p4 == p3 + json_array(txin_pieces(m.vin)).len());
            assert(at(s@, p5 as int, json_array(txout_pieces(m.vout))));
            assert(txout_views(vout@) == m.vout);
            assert(p6 == p5 + json_array(txout_pieces(m.vout)).len());
            assert(out@.vin =~= m.vin);
            assert(out@.vout =~= m.vout);
        }
    }
    Ok((out, p7))
}

/// Where each part of a block's canonical form stands.
#[verifier::rlimit(100)]
#[verifier::spinoff_prover]
pub proof fn block_parts(s: Seq<char>, pos: int, m: BlockV)
    requires
        at(s, pos, json_block(m)),
    ensures
        at(s, pos, lit_timestamp()),
        dec_at(s, pos + 13, m.timestamp),
        at(s, pos + 13 + dec_of(m.timestamp).len(), lit_transactions()),
        at(s, pos + 29 + dec_of(m.timestamp).len(), json_array(tx_pieces(m.transactions))),
        at(
            s,
            pos + 29 + dec_of(m.timestamp).len() + json_array(tx_pieces(m.transactions)).len(),
            lit_prev_block_hash(),
        ),
        at(
            s,
            pos + 48 + dec_of(m.timestamp).len() + json_array(tx_pieces(m.transactions)).len(),
            json_string(m.prev_block_hash),
        ),
        at(
            s,
            pos + 48 + dec_of(m.timestamp).len() + json_array(tx_pieces(m.transactions)).len()
                + json_string(m.prev_block_hash).len(),
            lit_hash(),
        ),
        at(
            s,
            pos + 56 + dec_of(m.timestamp).len() + json_array(tx_pieces(m.transactions)).len()
                + json_string(m.prev_block_hash).len(),
            json_string(m.hash),
        ),
        at(
            s,
            pos + 56 + dec_of(m.timestamp).len() + json_array(tx_pieces(m.transactions)).len()
                + json_string(m.prev_block_hash).len() + json_string(m.hash).len(),
            lit_nonce(),
        ),
        dec_at(
            s,
            pos + 65 + dec_of(m.timestamp).len() + json_array(tx_pieces(m.transactions)).len()
                + json_string(m.prev_block_hash).len() + json_string(m.hash).len(),
            m.nonce,
        ),
        at(
            s,
            pos + 65 + dec_of(m.timestamp).len() + json_array(tx_pieces(m.transactions)).len()
                + json_string(m.prev_block_hash).len() + json_string(m.hash).len() + dec_of(
                m.nonce,
            ).len(),
            lit_close(),
        ),
        json_block(m).len() == 66 + dec_of(m.timestamp).len() + json_array(
            tx_pieces(m.transactions),
        ).len() + json_string(m.prev_block_hash).len() + json_string(m.hash).len() + dec_of(
            m.nonce,
        ).len(),
{
    reveal(json_block);
    let r1 = dec_of(m.timestamp) + (lit_transactions() + (json_array(tx_pieces(m.transactions))
        + (lit_prev_block_hash() + (json_string(m.prev_block_hash) + (lit_hash() + (json_string(
        m.hash,
    ) + (lit_nonce() + (dec_of(m.nonce) + lit_close()))))))));
    lemma_at_concat(s, pos, lit_timestamp(), r1);
    let r2 = lit_transactions() + (json_array(tx_pieces(m.transactions)) + (lit_prev_block_hash()
        + (json_string(m.prev_block_hash) + (lit_hash() + (json_string(m.hash) + (lit_nonce() + (
    dec_of(m.nonce) + lit_close())))))));
    lemma_dec_at(s, pos + 13, m.timestamp, r2);
    let c2 = pos + 13 + dec_of(m.timestamp).len();
    let r3 = json_array(tx_pieces(m.transactions)) + (lit_prev_block_hash() + (json_string(
        m.prev_block_hash,
    ) + (lit_hash() + (json_string(m.hash) + (lit_nonce() + (dec_of(m.nonce) + lit_close()))))));
    lemma_at_concat(s, c2, lit_transactions(), r3);
    let c3 = c2 + 16;
    let r4 = lit_prev_block_hash() + (json_string(m.prev_block_hash) + (lit_hash() + (json_string(
        m.hash,
    ) + (lit_nonce() + (dec_of(m.nonce) + lit_close())))));
    lemma_at_concat(s, c3, json_array(tx_pieces(m.transactions)), r4);
    let c4 = c3 + json_array(tx_pieces(m.transactions)).len();
    let r5 = json_string(m.prev_block_hash) + (lit_hash() + (json_string(m.hash) + (lit_nonce()
        + (dec_of(m.nonce) + lit_close()))));
    lemma_at_concat(s, c4, lit_prev_block_hash(), r5);
    let c5 = c4 + 19;
    let r6 = lit_hash() + (json_string(m.hash) + (lit_nonce() + (dec_of(m.nonce) + lit_close())));
    lemma_at_concat(s, c5, json_string(m.prev_block_hash), r6);
    let c6 = c5 + json_string(m.prev_block_hash).len();
    let r7 = json_string(m.hash) + (lit_nonce() + (dec_of(m.nonce) + lit_close()));
    lemma_at_concat(s, c6, lit_hash(), r7);
    let c7 = c6 + 8;
    let r8 = lit_nonce() + (dec_of(m.nonce) + lit_close());
    lemma_at_concat(s, c7, json_string(m.hash), r8);
    let c8 = c7 + json_string(m.hash).len();
    let r9 = dec_of(m.nonce) + lit_close();
    lemma_at_concat(s, c8, lit_nonce(), r9);
    let c9 = c8 + 9;
    lemma_dec_at(s, c9, m.nonce, lit_close());
}

/// Reads a block in canonical form.
#[verifier::rlimit(100)]
#[verifier::spinoff_prover]
pub fn parse_block(s: &Vec<char>, pos: usize) -> (r: Result<(Block, usize), ()>)
    requires
        pos <= s@.len(),
    ensures
        r matches Ok(t) ==> pos < t.1 <= s@.len(),
        forall|m: BlockV|
            block_fits(m) && at(s@, pos as int, #[trigger] json_block(m)) ==> (r matches Ok(t)
                && t.0@ == m && t.1 == pos + json_block(m).len()),
{
    let lit1a: [char; 13] = ['{', '"', 't', 'i', 'm', 'e', 's', 't', 'a', 'm', 'p', '"', ':'];
    let lit2a: [char; 16] = [',', '"', 't', 'r', 'a', 'n', 's', 'a', 'c', 't', 'i', 'o', 'n', 's',
        '"', ':'];
    let lit3a: [char; 19] = [',', '"', 'p', 'r', 'e', 'v', '_', 'b', 'l', 'o', 'c', 'k', '_', 'h',
        'a', 's', 'h', '"', ':'];
    let lit4a: [char; 8] = [',', '"', 'h', 'a', 's', 'h', '"', ':'];
    let lit5a: [char; 9] = [',', '"', 'n', 'o', 'n', 'c', 'e', '"', ':'];
    let closea: [char; 1] = ['}'];
    let lit1: &[char] = &lit1a;
    let lit2: &[char] = &lit2a;
    let lit3: &[char] = &lit3a;
    let lit4: &[char] = &lit4a;
    let lit5: &[char] = &lit5a;
    let close: &[char] = &closea;
    proof {
        assert(lit1@ =~= lit_timestamp());
        assert(lit2@ =~= lit_transactions());
        assert(lit3@ =~= lit_prev_block_hash());
        assert(lit4@ =~= lit_hash());
        assert(lit5@ =~= lit_nonce());
        assert(close@ =~= lit_close());
    }
    let p1 = match expect_lit(s, pos, lit1) {
        Ok(p) => p,
        Err(_) => {
            proof {
                assert forall|m: BlockV|
                    block_fits(m) && at(s@, pos as int, #[trigger] json_block(m)) implies false by {
                    block_parts(s@, pos as int, m);
                }
            }
            return Err(());
        },
    };
    let (ts, p2) = match parse_u128(s, p1) {
        Ok(t) => t,
        Err(_) => {
            proof {
                assert forall|m: BlockV|
                    block_fits(m) && at(s@, pos as int, #[trigger] json_block(m)) implies false by {
                    block_parts(s@, pos as int, m);
                    assert(dec_at(s@, p1 as int, m.timestamp));
                }
            }
            return Err(());
        },
    };
    let p3 = match expect_lit(s, p2, lit2) {
        Ok(p) => p,
        Err(_) => {
            proof {
                assert forall|m: BlockV|
                    block_fits(m) && at(s@, pos as int, #[trigger] json_block(m)) implies false by {
                    block_parts(s@, pos as int, m);
                    assert(dec_at(s@, p1 as int, m.timestamp));
                    assert(p2 == p1 + dec_of(m.timestamp).len());
                }
            }
            return Err(());
        },
    };
    let (txs, p4) = match parse_tx_arr(s, p3) {
        Ok(t) => t,
        Err(_) => {
            proof {
                assert forall|m: BlockV|
                    block_fits(m) && at(s@, pos as int, #[trigger] json_block(m)) implies false by {
                    block_parts(s@, pos as int, m);
                    assert(dec_at(s@, p1 as int, m.timestamp));
                    assert(p2 == p1 + dec_of(m.timestamp).len());
                    assert(at(s@, p3 as int, json_array(tx_pieces(m.transactions))));
                }
            }
            return Err(());
        },
    };
    let p5 = match expect_lit(s, p4, lit3) {
        Ok(p) => p,
        Err(_) => {
            proof {
                assert forall|m: BlockV|
                    block_fits(m) && at(s@, pos as int, #[trigger] json_block(m)) implies false by {
                    block_parts(s@, pos as int, m);
                    assert(dec_at(s@, p1 as int, m.timestamp));
                    assert(p2 == p1 + dec_of(m.timestamp).len());
                    assert(at(s@, p3 as int, json_array(tx_pieces(m.transactions))));
                    assert(p4 == p3 + json_array(tx_pieces(m.transactions)).len());
                }
            }
            return Err(());
        },
    };
    let res = parse_block_tail(s, Ghost(pos as int), p5, ts, txs);
    proof {
        assert forall|m: BlockV|
            block_fits(m) && at(s@, pos as int, #[trigger] json_block(m)) implies (res matches Ok(
            t,
        ) && t.0@ == m && t.1 == pos + json_block(m).len()) by {
            block_parts(s@, pos as int, m);
            assert(dec_at(s@, p1 as int, m.timestamp));
            assert(ts as nat == m.timestamp);
            assert(p2 == p1 + dec_of(m.timestamp).len());
            assert(at(s@, p3 as int, json_array(tx_pieces(m.transactions))));
            assert(tx_views(txs@) == m.transactions);
            assert(p4 == p3 + json_array(tx_pieces(m.transactions)).len());
        }
    }
    res
}

/// Reads the tail of a block's canonical form: the two hash strings, the
/// nonce, and the closing brace, and builds the block.
#[verifier::rlimit(100)]
#[verifier::spinoff_prover]
fn parse_block_tail(
    s: &Vec<char>,
    pos0: Ghost<int>,
    p5: usize,
    ts: u128,
    txs: Vec<Transaction>,
) -> (r: Result<(Block, usize), ()>)
    requires
        p5 <= s@.len(),
    ensures
        r matches Ok(t) ==> p5 < t.1 <= s@.len(),
        forall|m: BlockV|
            (block_fits(m) && at(s@, pos0@, #[trigger] json_block(m)) && ts as nat == m.timestamp
                && tx_views(txs@) == m.transactions && p5 == pos0@ + 48 + dec_of(
                m.timestamp,
            ).len() + json_array(tx_pieces(m.transactions)).len()) ==> (r matches Ok(t) && t.0@
                == m && t.1 == pos0@ + json_block(m).len()),
{
    let lit4a: [char; 8] = [',', '"', 'h', 'a', 's', 'h', '"', ':'];
    let lit5a: [char; 9] = [',', '"', 'n', 'o', 'n', 'c', 'e', '"', ':'];
    let closea: [char; 1] = ['}'];
    let lit4: &[char] = &lit4a;
    let lit5: &[char] = &lit5a;
    let close: &[char] = &closea;
    proof {
        assert(lit4@ =~= lit_hash());
        assert(lit5@ =~= lit_nonce());
        assert(close@ =~= lit_close());
    }
    let (prev, p6) = match parse_json_string(s, p5) {
        Ok(t) => t,
        Err(_) => {
            proof {
                assert forall|m: BlockV|
                    (block_fits(m) && at(s@, pos0@, #[trigger] json_block(m)) && ts as nat
                        == m.timestamp && tx_views(txs@) == m.transactions && p5 == pos0@ + 48
                        + dec_of(m.timestamp).len() + json_array(tx_pieces(m.transactions)).len())
                    implies false by {
                    block_parts(s@, pos0@, m);
                    assert(at(s@, p5 as int, json_string(m.prev_block_hash)));
                }
            }
            return Err(());
        },
    };
    let p7 = match expect_lit(s, p6, lit4) {
        Ok(p) => p,
        Err(_) => {
            proof {
                assert forall|m: BlockV|
                    (block_fits(m) && at(s@, pos0@, #[trigger] json_block(m)) && ts as nat
                        == m.timestamp && tx_views(txs@) == m.transactions && p5 == pos0@ + 48
                        + dec_of(m.timestamp).len() + json_array(tx_pieces(m.transactions)).len())
                    implies false by {
                    block_parts(s@, pos0@, m);
                    assert(at(s@, p5 as int, json_string(m.prev_block_hash)));
                    assert(p6 == p5 + json_string(m.prev_block_hash).len());
                }
            }
            return Err(());
        },
    };
    let (hsh, p8) = match parse_json_string(s, p7) {
        Ok(t) => t,
        Err(_) => {
            proof {
                assert forall|m: BlockV|
                    (block_fits(m) && at(s@, pos0@, #[trigger] json_block(m)) && ts as nat
                        == m.timestamp && tx_views(txs@) == m.transactions && p5 == pos0@ + 48
                        + dec_of(m.timestamp).len() + json_array(tx_pieces(m.transactions)).len())
                    implies false by {
                    block_parts(s@, pos0@, m);
                    assert(at(s@, p5 as int, json_string(m.prev_block_hash)));
                    assert(p6 == p5 + json_string(m.prev_block_hash).len());
                    assert(at(s@, p7 as int, json_string(m.hash)));
                }
            }
            return Err(());
        },
    };
    let p9 = match expect_lit(s, p8, lit5) {
        Ok(p) => p,
        Err(_) => {
            proof {
                assert forall|m: BlockV|
                    (block_fits(m) && at(s@, pos0@, #[trigger] json_block(m)) && ts as nat
                        == m.timestamp && tx_views(txs@) == m.transactions && p5 == pos0@ + 48
                        + dec_of(m.timestamp).len() + json_array(tx_pieces(m.transactions)).len())
                    implies false by {
                    block_parts(s@, pos0@, m);
                    assert(at(s@, p5 as int, json_string(m.prev_block_hash)));
                    assert(p6 == p5 + json_string(m.prev_block_hash).len());
                    assert(at(s@, p7 as int, json_string(m.hash)));
                    assert(p8 == p7 + json_string(m.hash).len());
                }
            }
            return Err(());
        },
    };
    let (nc, p10) = match parse_u128(s, p9) {
        Ok(t) => t,
        Err(_) => {
            proof {
                assert forall|m: BlockV|
                    (block_fits(m) && at(s@, pos0@, #[trigger] json_block(m)) && ts as nat
                        == m.timestamp && tx_views(txs@) == m.transactions && p5 == pos0@ + 48
                        + dec_of(m.timestamp).len() + json_array(tx_pieces(m.transactions)).len())
                    implies false by {
                    block_parts(s@, pos0@, m);
                    assert(at(s@, p5 as int, json_string(m.prev_block_hash)));
                    assert(p6 == p5 + json_string(m.prev_block_hash).len());
                    assert(at(s@, p7 as int, json_string(m.hash)));
                    assert(p8 == p7 + json_string(m.hash).len());
                    assert(dec_at(s@, p9 as int, m.nonce));
                }
            }
            return Err(());
        },
    };
    let p11 = match expect_lit(s, p10, close) {
        Ok(p) => p,
        Err(_) => {
            proof {
                assert forall|m: BlockV|
                    (block_fits(m) && at(s@, pos0@, #[trigger] json_block(m)) && ts as nat
                        == m.timestamp && tx_views(txs@) == m.transactions && p5 == pos0@ + 48
                        + dec_of(m.timestamp).len() + json_array(tx_pieces(m.transactions)).len())
                    implies false by {
                    block_parts(s@, pos0@, m);
                    assert(at(s@, p5 as int, json_string(m.prev_block_hash)));
                    assert(p6 == p5 + json_string(m.prev_block_hash).len());
                    assert(at(s@, p7 as int, json_string(m.hash)));
                    assert(p8 == p7 + json_string(m.hash).len());
                    assert(dec_at(s@, p9 as int, m.nonce));
                    assert(p10 == p9 + dec_of(m.nonce).len());
                }
            }
            return Err(());
        },
    };
    let out = Block {
        timestamp: ts,
        transactions: txs,
        prev_block_hash: string_of_chars(&prev),
        hash: string_of_chars(&hsh),
        nonce: nc,
    };
    proof {
        assert forall|m: BlockV|
            (block_fits(m) && at(s@, pos0@, #[trigger] json_block(m)) && ts as nat == m.timestamp
                && tx_views(txs@) == m.transactions && p5 == pos0@ + 48 + dec_of(
                m.timestamp,
            ).len() + json_array(tx_pieces(m.transactions)).len()) implies (out@ == m && p11
            == pos0@ + json_block(m).len()) by {
            block_parts(s@, pos0@, m);
            assert(at(s@, p5 as int, json_string(m.prev_block_hash)));
            assert(prev@ == m.prev_block_hash);
            assert(p6 == p5 + json_string(m.prev_block_hash).len());
            assert(at(s@, p7 as int, json_string(m.hash)));
            assert(hsh@ == m.hash);
            assert(p8 == p7 + json_string(m.hash).len());
            assert(dec_at(s@, p9 as int, m.nonce));
            assert(nc as nat == m.nonce);
            assert(p10 == p9 + dec_of(m.nonce).len());
            assert(out@.transactions =~= m.transactions);
        }
    }
    Ok((out, p11))
}

/// The id a transaction's canonical form hashes to.
pub open spec fn spec_tx_hash(m: TxV) -> Seq<char> {
    sha256_hex_of(json_tx(m))
}

impl Transaction {
    /// The canonical JSON text of this transaction.
    pub fn serialize(&self) -> (r: Result<String, ChainError>)
        ensures
            r matches Ok(v) && v@ == json_tx(self@),
    {
        let mut out: Vec<char> = Vec::new();
        push_tx(&mut out, self);
        Ok(string_of_chars(&out))
    }

    /// Reads a transaction back from its canonical JSON text.
    pub fn deserialize(data: &str) -> (r: Result<Transaction, ChainError>)
        ensures
            forall|m: TxV|
                tx_fits(m) && data@ == #[trigger] json_tx(m) ==> (r matches Ok(t) && t@ == m),
            r is Err ==> r == Err::<Transaction, ChainError>(ChainError::SerializationError),
    {
        let chars = chars_of_str(data);
        match parse_tx(&chars, 0) {
            Ok((t, p)) => {
                if p == chars.len() {
                    proof {
                        assert forall|m: TxV| tx_fits(m) && data@ == #[trigger] json_tx(m)
                            implies t@ == m by {
                            assert(chars@.subrange(0, json_tx(m).len() as int) =~= json_tx(m));
                        }
                    }
                    Ok(t)
                } else {
                    proof {
                        assert forall|m: TxV| tx_fits(m) && data@ == #[trigger] json_tx(m)
                            implies false by {
                            assert(chars@.subrange(0, json_tx(m).len() as int) =~= json_tx(m));
                        }
                    }
                    Err(ChainError::SerializationError)
                }
            },
            Err(_) => {
                proof {
                    assert forall|m: TxV| tx_fits(m) && data@ == #[trigger] json_tx(m)
                        implies false by {
                        assert(chars@.subrange(0, json_tx(m).len() as int) =~= json_tx(m));
                    }
                }
                Err(ChainError::SerializationError)
            },
        }
    }

    /// The hex SHA-256 digest of this transaction's canonical form: its id.
    pub fn hash(&self) -> (r: Result<String, ChainError>)
        ensures
            r matches Ok(h) && h@ == spec_tx_hash(self@),
            r matches Ok(h) && h@.len() == 64,
            r matches Ok(h) && all_hex_digits(h@),
    {
        let mut out: Vec<char> = Vec::new();
        push_tx(&mut out, self);
        let text = string_of_chars(&out);
        Ok(sha256_hex_str(text.as_str()))
    }

    /// Computes and stores this transaction's id.
    pub fn set_id(&mut self) -> (r: Result<(), ChainError>)
        ensures
            r matches Ok(u) && final(self)@ == (TxV { id: spec_tx_hash(old(self)@), ..old(self)@ }),
    {
        let h = match self.hash() {
            Ok(h) => h,
            Err(_) => vstd::pervasive::unreached(),
        };
        self.id = h;
        Ok(())
    }
}

impl Block {
    /// The canonical JSON text of this block.
    pub fn serialize(&self) -> (r: Result<String, ChainError>)
        ensures
            r matches Ok(v) && v@ == json_block(self@),
    {
        let mut out: Vec<char> = Vec::new();
        push_block(&mut out, self);
        Ok(string_of_chars(&out))
    }

    /// Reads a block back from its canonical JSON text.
    pub fn deserialize(data: &str) -> (r: Result<Block, ChainError>)
        ensures
            forall|m: BlockV|
                block_fits(m) && data@ == #[trigger] json_block(m) ==> (r matches Ok(b) && b@
                    == m),
            r is Err ==> r == Err::<Block, ChainError>(ChainError::SerializationError),
    {
        let chars = chars_of_str(data);
        match parse_block(&chars, 0) {
            Ok((b, p)) => {
                if p == chars.len() {
                    proof {
                        assert forall|m: BlockV| block_fits(m) && data@ == #[trigger] json_block(m)
                            implies b@ == m by {
                            assert(chars@.subrange(0, json_block(m).len() as int) =~= json_block(
                                m,
                            ));
                        }
                    }
                    Ok(b)
                } else {
                    proof {
                        assert forall|m: BlockV| block_fits(m) && data@ == #[trigger] json_block(m)
                            implies false by {
                            assert(chars@.subrange(0, json_block(m).len() as int) =~= json_block(
                                m,
                            ));
                        }
                    }
                    Err(ChainError::SerializationError)
                }
            },
            Err(_) => {
                proof {
                    assert forall|m: BlockV| block_fits(m) && data@ == #[trigger] json_block(m)
                        implies false by {
                        assert(chars@.subrange(0, json_block(m).len() as int) =~= json_block(m));
                    }
                }
                Err(ChainError::SerializationError)
            },
        }
    }
}

} // verus!
