//! The proof-of-work engine: the canonical textual preimage of a block, the
//! nonce search, and the validator. A block's hex hash, read as a 256-bit
//! big-endian integer, must not exceed the fixed target.
use vstd::prelude::*;
use vstd::arithmetic::power::lemma_pow0;
use vstd::arithmetic::power::lemma_pow1;
use vstd::arithmetic::power::lemma_pow_adds;
use vstd::arithmetic::power::lemma_pow_multiplies;
use vstd::arithmetic::power::pow;
use vstd::arithmetic::power2::lemma2_to64;
use vstd::arithmetic::power2::lemma_pow2;
use vstd::arithmetic::power2::pow2;

use crate::block::spec_hash_transactions;
use crate::block::Block;
use crate::block::BlockV;
use crate::dec::dec_of;
use crate::dec::push_u128;
use crate::digests::sha256_hex_of;
use crate::digests::sha256_hex_str;
use crate::errors::ChainError;
use crate::hexcode::all_hex_digits;
use crate::hexcode::hex_val;
use crate::hexcode::hex_val_exec;
use crate::hexcode::is_hex_digit;
use crate::text::chars_of_str;
use crate::text::string_of_chars;

verus! {

/// The difficulty: the hash must not exceed two to the power of 256 minus this.
pub const TARGET_BITS: u32 = 10;

/// The proof-of-work target: `2 ^ (256 - TARGET_BITS)`.
pub open spec fn pow_target() -> nat {
    pow2((256 - TARGET_BITS) as nat)
}

/// The canonical preimage text: previous hash, transactions digest,
/// timestamp, difficulty and nonce, colon-separated, numbers in base ten.
pub open spec fn pow_preimage(b: BlockV, nonce: nat) -> Seq<char> {
    b.prev_block_hash + seq![':'] + spec_hash_transactions(b.transactions) + seq![':'] + dec_of(
        b.timestamp,
    ) + seq![':'] + dec_of(TARGET_BITS as nat) + seq![':'] + dec_of(nonce)
}

/// The hex hash a nonce gives a block.
pub open spec fn pow_hash(b: BlockV, nonce: nat) -> Seq<char> {
    sha256_hex_of(pow_preimage(b, nonce))
}

/// The numeric value of a hex string read as a big-endian integer.
pub open spec fn hex_val_of(s: Seq<char>) -> nat
    decreases s.len(),
{
    if s.len() == 0 {
        0
    } else {
        hex_val_of(s.drop_last()) * 16 + hex_val(s.last())
    }
}

/// Whether a hex hash meets the proof-of-work target.
pub open spec fn spec_meets_target(h: Seq<char>) -> bool {
    hex_val_of(h) <= pow_target()
}

/// A block whose stored nonce seals it: its recomputed hash meets the target.
pub open spec fn spec_pow_valid(b: BlockV) -> bool {
    spec_meets_target(pow_hash(b, b.nonce))
}

/// A block that stores its own proof-of-work hash, and that hash meets the
/// target.
pub open spec fn spec_block_sealed(b: BlockV) -> bool {
    b.hash == pow_hash(b, b.nonce) && spec_meets_target(b.hash)
}

/// The value of a hex string is below sixteen to its length.
pub proof fn lemma_hex_val_bound(s: Seq<char>)
    requires
        all_hex_digits(s),
    ensures
        hex_val_of(s) < pow(16, s.len()),
    decreases s.len(),
{
    vstd::arithmetic::power::lemma_pow_positive(16, s.len());
    if s.len() == 0 {
    } else {
        assert(all_hex_digits(s.drop_last())) by {
            assert(forall|i: int| 0 <= i < s.len() - 1 ==> s.drop_last()[i] == s[i]);
        }
        lemma_hex_val_bound(s.drop_last());
        assert(is_hex_digit(s.last()));
        assert(hex_val(s.last()) < 16);
        assert(hex_val_of(s.drop_last()) * 16 + 15 < pow(16, (s.len() - 1) as nat) * 16) by (
        nonlinear_arith)
            requires
                hex_val_of(s.drop_last()) < pow(16, (s.len() - 1) as nat),
        ;
        lemma_pow_adds(16, (s.len() - 1) as nat, 1);
        lemma_pow1(16);
        assert(pow(16, (s.len() - 1) as nat) * 16 == pow(16, s.len()));
    }
}

/// A hex string splits at an index into a high part scaled up and a low part.
pub proof fn lemma_hex_val_split(s: Seq<char>, k: int)
    requires
        0 <= k <= s.len(),
    ensures
        hex_val_of(s) == hex_val_of(s.take(k)) * pow(16, (s.len() - k) as nat) + hex_val_of(
            s.skip(k),
        ),
    decreases s.len() - k,
{
    if k == s.len() {
        assert(s.take(k) =~= s);
        assert(s.skip(k).len() == 0);
        lemma_pow0(16);
    } else {
        lemma_hex_val_split(s.drop_last(), k);
        assert(s.drop_last().take(k) =~= s.take(k));
        assert(s.skip(k).drop_last() =~= s.drop_last().skip(k));
        assert(s.skip(k).last() == s.last());
        assert(hex_val_of(s) == hex_val_of(s.drop_last()) * 16 + hex_val(s.last()));
        let hi = hex_val_of(s.take(k));
        let p = pow(16, (s.len() - 1 - k) as nat);
        assert((hi * p + hex_val_of(s.drop_last().skip(k))) * 16 == hi * (p * 16) + hex_val_of(
            s.drop_last().skip(k),
        ) * 16) by (nonlinear_arith);
        lemma_pow_adds(16, (s.len() - 1 - k) as nat, 1);
        lemma_pow1(16);
        assert(p * 16 == pow(16, (s.len() - k) as nat));
    }
}

/// A hex string has value zero exactly when every digit has value zero.
pub proof fn lemma_hex_val_zero(s: Seq<char>)
    ensures
        hex_val_of(s) == 0 <==> (forall|i: int| 0 <= i < s.len() ==> hex_val(#[trigger] s[i])
            == 0),
    decreases s.len(),
{
    if s.len() > 0 {
        lemma_hex_val_zero(s.drop_last());
        if hex_val_of(s) == 0 {
            assert forall|i: int| 0 <= i < s.len() implies hex_val(#[trigger] s[i]) == 0 by {
                if i < s.len() - 1 {
                    assert(s.drop_last()[i] == s[i]);
                } else {
                    assert(s[i] == s.last());
                }
            }
        }
        if forall|i: int| 0 <= i < s.len() ==> hex_val(#[trigger] s[i]) == 0 {
            assert forall|i: int| 0 <= i < s.len() - 1 implies hex_val(
                #[trigger] s.drop_last()[i],
            ) == 0 by {
                assert(s.drop_last()[i] == s[i]);
            }
            assert(hex_val(s.last()) == 0);
        }
    }
}

/// The target equals four times sixteen to the sixty-first power.
pub proof fn lemma_target_value()
    ensures
        pow_target() == 4 * pow(16, 61),
{
    lemma_pow2(246);
    lemma_pow2(2);
    lemma_pow2(4);
    lemma2_to64();
    lemma_pow_adds(2, 2, 244);
    lemma_pow_multiplies(2, 4, 61);
}

/// Whether a 64-digit hex hash meets the target: the first two digits are
/// zero and the third is below four, or is four with nothing after it.
pub fn hash_meets_target(h: &Vec<char>) -> (r: bool)
    requires
        h@.len() == 64,
        all_hex_digits(h@),
    ensures
        r == spec_meets_target(h@),
{
    proof {
        lemma_target_value();
        lemma_hex_val_split(h@, 3);
        assert(all_hex_digits(h@.skip(3))) by {
            assert(forall|i: int| 0 <= i < h@.len() - 3 ==> h@.skip(3)[i] == h@[i + 3]);
        }
        lemma_hex_val_bound(h@.skip(3));
        lemma_hex_val_zero(h@.skip(3));
        assert(hex_val_of(h@.take(3)) == (hex_val(h@[0]) * 16 + hex_val(h@[1])) * 16 + hex_val(
            h@[2],
        )) by {
            assert(h@.take(3).drop_last() =~= h@.take(2));
            assert(h@.take(2).drop_last() =~= h@.take(1));
            assert(h@.take(1).drop_last() =~= Seq::<char>::empty());
            assert(h@.take(3).last() == h@[2]);
            assert(h@.take(2).last() == h@[1]);
            assert(h@.take(1).last() == h@[0]);
            assert(hex_val_of(Seq::<char>::empty()) == 0);
            assert(hex_val_of(h@.take(1)) == hex_val_of(Seq::<char>::empty()) * 16 + hex_val(
                h@[0],
            ));
            assert(hex_val_of(h@.take(2)) == hex_val_of(h@.take(1)) * 16 + hex_val(h@[1]));
            assert(hex_val_of(h@.take(3)) == hex_val_of(h@.take(2)) * 16 + hex_val(h@[2]));
        }
    }
    let v0: u8 = hex_val_exec(h[0]);
    let v1: u8 = hex_val_exec(h[1]);
    let v2: u8 = hex_val_exec(h[2]);
    if v0 > 0 || v1 > 0 {
        proof {
            let hi = hex_val_of(h@.take(3));
            assert(hi >= 16);
            assert(hi * pow(16, 61) >= 16 * pow(16, 61)) by (nonlinear_arith)
                requires
                    hi >= 16,
                    pow(16, 61) > 0,
            ;
            assert(16 * pow(16, 61) > 4 * pow(16, 61)) by (nonlinear_arith)
                requires
                    pow(16, 61) > 0,
            ;
        }
        return false;
    }
    if v2 < 4 {
        proof {
            let hi = hex_val_of(h@.take(3));
            assert(hi <= 3);
            assert(hi * pow(16, 61) <= 3 * pow(16, 61)) by (nonlinear_arith)
                requires
                    hi <= 3,
                    pow(16, 61) > 0,
            ;
            assert(3 * pow(16, 61) + pow(16, 61) == 4 * pow(16, 61)) by (nonlinear_arith);
        }
        return true;
    }
    if v2 > 4 {
        proof {
            let hi = hex_val_of(h@.take(3));
            assert(hi >= 5);
            assert(hi * pow(16, 61) >= 5 * pow(16, 61)) by (nonlinear_arith)
                requires
                    hi >= 5,
                    pow(16, 61) > 0,
            ;
            assert(5 * pow(16, 61) > 4 * pow(16, 61)) by (nonlinear_arith)
                requires
                    pow(16, 61) > 0,
            ;
        }
        return false;
    }
    // The third digit is exactly four: the rest must be all zeros.
    let mut i: usize = 3;
    while i < 64
        invariant
            3 <= i <= 64,
            h@.len() == 64,
            all_hex_digits(h@),
            hex_val_of(h@.take(3)) == 4,
            hex_val_of(h@) == 4 * pow(16, 61) + hex_val_of(h@.skip(3)),
            pow_target() == 4 * pow(16, 61),
            forall|k: int| 3 <= k < i ==> hex_val(#[trigger] h@[k]) == 0,
        decreases 64 - i,
    {
        if hex_val_exec(h[i]) != 0 {
            proof {
                lemma_hex_val_zero(h@.skip(3));
                assert(h@.skip(3)[i - 3] == h@[i as int]);
                assert(hex_val_of(h@.skip(3)) != 0);
            }
            return false;
        }
        i = i + 1;
    }
    proof {
        lemma_hex_val_zero(h@.skip(3));
        assert forall|k: int| 0 <= k < h@.skip(3).len() implies hex_val(#[trigger] h@.skip(3)[k])
            == 0 by {
            assert(h@.skip(3)[k] == h@[k + 3]);
        }
        assert(hex_val_of(h@.skip(3)) == 0);
    }
    true
}

/// The proof-of-work engine over one block.
pub struct ProofOfWork {
    pub block: Block,
}

impl ProofOfWork {
    /// Wraps a block for the nonce search or validation.
    pub fn new_proof_of_work(block: Block) -> (r: Self)
        ensures
            r.block@ == block@,
    {
        ProofOfWork { block }
    }

    /// The canonical preimage text of this block under a nonce.
    pub fn prepare_data(&self, nonce: u128) -> (r: String)
        ensures
            r@ == pow_preimage(self.block@, nonce as nat),
    {
        let mut out: Vec<char> = Vec::new();
        let prev = chars_of_str(self.block.prev_block_hash.as_str());
        let mut i: usize = 0;
        while i < prev.len()
            invariant
                i <= prev@.len(),
                prev@ == self.block@.prev_block_hash,
                out@ == prev@.take(i as int),
            decreases prev@.len() - i,
        {
            out.push(prev[i]);
            proof {
                assert(out@ =~= prev@.take(i + 1));
            }
            i = i + 1;
        }
        proof {
            assert(prev@.take(prev@.len() as int) =~= prev@);
        }
        out.push(':');
        let digest = self.block.hash_transactions();
        let dchars = chars_of_str(digest.as_str());
        let mut k: usize = 0;
        let ghost mid: Seq<char> = out@;
        while k < dchars.len()
            invariant
                k <= dchars@.len(),
                out@ == mid + dchars@.take(k as int),
            decreases dchars@.len() - k,
        {
            out.push(dchars[k]);
            proof {
                assert(out@ =~= mid + dchars@.take(k + 1));
            }
            k = k + 1;
        }
        proof {
            assert(dchars@.take(dchars@.len() as int) =~= dchars@);
        }
        out.push(':');
        push_u128(&mut out, self.block.timestamp);
        out.push(':');
        push_u128(&mut out, TARGET_BITS as u128);
        out.push(':');
        push_u128(&mut out, nonce);
        proof {
            assert(out@ =~= pow_preimage(self.block@, nonce as nat));
        }
        string_of_chars(&out)
    }

    /// Searches nonces from zero upward until the hash meets the target;
    /// fails only if every nonce below the maximum is exhausted. The nonce
    /// found is the least that seals the block.
    pub fn run(&self) -> (r: Result<(u128, String), ChainError>)
        ensures
            r matches Ok(t) ==> {
                &&& t.1@ == pow_hash(self.block@, t.0 as nat)
                &&& spec_meets_target(t.1@)
                &&& forall|k: nat| k < t.0 as nat ==> !spec_meets_target(pow_hash(self.block@, k))
            },
            r is Err ==> r == Err::<(u128, String), ChainError>(ChainError::NonceExhausted),
    {
        let mut nonce: u128 = 0;
        while nonce < u128::MAX
            invariant
                forall|k: nat| k < nonce as nat ==> !spec_meets_target(
                    #[trigger] pow_hash(self.block@, k),
                ),
            decreases u128::MAX - nonce,
        {
            let data = self.prepare_data(nonce);
            let hash = sha256_hex_str(data.as_str());
            let hchars = chars_of_str(hash.as_str());
            if hash_meets_target(&hchars) {
                return Ok((nonce, hash));
            }
            nonce = nonce + 1;
        }
        Err(ChainError::NonceExhausted)
    }

    /// Recomputes the hash for the stored nonce and holds it to the target.
    pub fn validate(&self) -> (r: bool)
        ensures
            r == spec_pow_valid(self.block@),
    {
        let data = self.prepare_data(self.block.get_nonce());
        let hash = sha256_hex_str(data.as_str());
        let hchars = chars_of_str(hash.as_str());
        hash_meets_target(&hchars)
    }
}

} // verus!
