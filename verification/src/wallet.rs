//! Key pairs, the pubkey-hash form, and Base58 address derivation. The wallet
//! bag lives in memory; reading and writing the wallet file is left to the
//! caller, which hands entries in and out as plain values.
use vstd::prelude::*;
use vstd::utf8::encode_scalar;
use vstd::utf8::encode_utf8;

use crate::digests::base58_of;
use crate::digests::from_base58;
use crate::digests::new_key_pair;
use crate::digests::ripemd160;
use crate::digests::ripemd160_of;
use crate::digests::sha256_hex_bytes;
use crate::digests::sha256_hex_of;
use crate::digests::sha256_hex_of_bytes;
use crate::digests::sha256_hex_str;
use crate::digests::to_base58;
use crate::errors::ChainError;
use crate::hexcode::all_hex_digits;
use crate::hexcode::hex_chars;
use crate::hexcode::hex_of;
use crate::text::chars_eq;
use crate::text::chars_of_str;
use crate::text::string_of_chars;
use crate::transaction::clone_bytes;

verus! {

/// The version byte that leads an address payload.
pub const ADDRESS_VERSION: u8 = 0;

/// RIPEMD-160 over the hex text of the SHA-256 digest of the raw public key:
/// the form every output's lock carries.
pub open spec fn spec_hash_pubkey(pk: Seq<u8>) -> Seq<u8> {
    ripemd160_of(encode_utf8(sha256_hex_of_bytes(pk)))
}

/// The checksum source bytes for a versioned payload: the hex text of the
/// SHA-256 digest of the hex text of the SHA-256 digest of the payload.
pub open spec fn spec_check_sum(payload: Seq<u8>) -> Seq<u8> {
    encode_utf8(sha256_hex_of(sha256_hex_of_bytes(payload)))
}

/// Version byte, pubkey hash, and the first four checksum bytes.
pub open spec fn spec_address_payload(h: Seq<u8>) -> Seq<u8> {
    seq![ADDRESS_VERSION] + h + spec_check_sum(seq![ADDRESS_VERSION] + h).take(4)
}

/// The Base58 address that carries the pubkey hash `h`.
pub open spec fn spec_address_of_pubkey_hash(h: Seq<u8>) -> Seq<char> {
    base58_of(spec_address_payload(h))
}

/// The address derived from a raw public key.
pub open spec fn spec_wallet_address(pk: Seq<u8>) -> Seq<char> {
    spec_address_of_pubkey_hash(spec_hash_pubkey(pk))
}

/// The shape every pubkey hash produced by this crate has: twenty bytes, with
/// a checksum source long enough to cut four bytes from.
pub open spec fn address_form_ok(h: Seq<u8>) -> bool {
    h.len() == 20 && spec_check_sum(seq![ADDRESS_VERSION] + h).len() >= 4
}

/// Every address of plausible length that carries a well-formed pubkey hash
/// decodes back to its hex text. The length bound mirrors what the Base58
/// decoder accepts; every address this crate renders stays far below it.
pub open spec fn address_decodes_to(a: Seq<char>, r: Result<String, ChainError>) -> bool {
    forall|h: Seq<u8>|
        a.len() <= 132 && address_form_ok(h) && a == #[trigger] spec_address_of_pubkey_hash(h)
            ==> (r matches Ok(s) && s@ == hex_of(h))
}

/// A UTF-8 encoding is at least as long as its character sequence.
pub proof fn lemma_encode_utf8_len(chars: Seq<char>)
    ensures
        encode_utf8(chars).len() >= chars.len(),
    decreases chars.len(),
{
    if chars.len() > 0 {
        lemma_encode_utf8_len(chars.drop_first());
        assert(encode_scalar(chars[0] as u32).len() >= 1);
    }
}

/// The pubkey-hash bytes of a raw public key.
pub fn hash_pubkey(pubkey: &Vec<u8>) -> (r: Vec<u8>)
    ensures
        r@ == spec_hash_pubkey(pubkey@),
        r@.len() == 20,
{
    let sha = sha256_hex_bytes(pubkey.as_slice());
    ripemd160(sha.as_str().as_bytes())
}

/// The checksum source bytes of a payload.
fn check_sum(payload: &Vec<u8>) -> (r: Vec<u8>)
    ensures
        r@ == spec_check_sum(payload@),
        r@.len() >= 64,
{
    let first = sha256_hex_bytes(payload.as_slice());
    let second = sha256_hex_str(first.as_str());
    proof {
        lemma_encode_utf8_len(second@);
    }
    vstd::slice::slice_to_vec(second.as_str().as_bytes())
}

/// Reads the pubkey hash out of a Base58 address: drop the version byte and
/// the four checksum bytes, and render the rest as hex.
pub fn pubkey_hash_from_base58(address: &str) -> (r: Result<String, ChainError>)
    ensures
        address_decodes_to(address@, r),
        r is Err ==> r == Err::<String, ChainError>(ChainError::DecodeError),
{
    let addr_chars = chars_of_str(address);
    if addr_chars.len() > 132 {
        return Err(ChainError::DecodeError);
    }
    let decoded = match from_base58(address) {
        Ok(d) => d,
        Err(_) => {
            proof {
                assert forall|h: Seq<u8>|
                    address_form_ok(h) && address@ == #[trigger] spec_address_of_pubkey_hash(h)
                    implies false by {
                    assert(spec_address_payload(h).len() == 25);
                }
            }
            return Err(ChainError::DecodeError);
        },
    };
    if decoded.len() < 5 {
        proof {
            assert forall|h: Seq<u8>|
                address_form_ok(h) && address@ == #[trigger] spec_address_of_pubkey_hash(h)
                implies false by {
                assert(spec_address_payload(h).len() == 25);
            }
        }
        return Err(ChainError::DecodeError);
    }
    let mut mid: Vec<u8> = Vec::new();
    let stop: usize = decoded.len() - 4;
    let mut i: usize = 1;
    while i < stop
        invariant
            1 <= i <= stop,
            stop == decoded@.len() - 4,
            5 <= decoded@.len(),
            mid@ == decoded@.subrange(1, i as int),
        decreases stop - i,
    {
        mid.push(decoded[i]);
        proof {
            assert(mid@ =~= decoded@.subrange(1, i + 1));
        }
        i = i + 1;
    }
    let hex = hex_chars(mid.as_slice());
    let out = string_of_chars(&hex);
    proof {
        assert forall|h: Seq<u8>|
            address_form_ok(h) && address@ == #[trigger] spec_address_of_pubkey_hash(h) implies (
        out@ == hex_of(h)) by {
            assert(spec_address_payload(h).len() == 25);
            assert(decoded@ == spec_address_payload(h));
            assert(decoded@.subrange(1, 21) =~= h);
        }
    }
    Ok(out)
}

/// Mathematical form of a wallet.
pub ghost struct WalletV {
    pub secret_key: Seq<u8>,
    pub public_key: Seq<u8>,
}

/// A raw P-256 key pair: secret scalar bytes and SEC1 public key bytes.
pub struct Wallet {
    pub secret_key: Vec<u8>,
    pub public_key: Vec<u8>,
}

impl View for Wallet {
    type V = WalletV;

    open spec fn view(&self) -> WalletV {
        WalletV { secret_key: self.secret_key@, public_key: self.public_key@ }
    }
}

impl Clone for Wallet {
    fn clone(&self) -> (r: Self)
        ensures
            r@ == self@,
    {
        Wallet {
            secret_key: clone_bytes(&self.secret_key),
            public_key: clone_bytes(&self.public_key),
        }
    }
}

impl Wallet {
    /// Draws a fresh key pair: the public half is the one derived from the
    /// secret half.
    pub fn new_wallet() -> (r: Self)
        ensures
            r@.public_key == crate::digests::p256_public_of(r@.secret_key),
    {
        let (secret_key, public_key) = new_key_pair();
        Wallet { secret_key, public_key }
    }

    /// The Base58 address of this wallet's public key:
    /// version byte, pubkey hash, and four checksum bytes.
    pub fn get_address(&self) -> (r: String)
        ensures
            r@ == spec_wallet_address(self.public_key@),
            r@.len() <= 132,
            address_form_ok(spec_hash_pubkey(self.public_key@)),
    {
        let pubkey_hash = hash_pubkey(&self.public_key);
        let mut versioned: Vec<u8> = Vec::new();
        versioned.push(ADDRESS_VERSION);
        let mut i: usize = 0;
        while i < pubkey_hash.len()
            invariant
                i <= pubkey_hash@.len(),
                versioned@ == seq![ADDRESS_VERSION] + pubkey_hash@.take(i as int),
            decreases pubkey_hash@.len() - i,
        {
            versioned.push(pubkey_hash[i]);
            proof {
                assert(versioned@ =~= seq![ADDRESS_VERSION] + pubkey_hash@.take(i + 1));
            }
            i = i + 1;
        }
        proof {
            assert(pubkey_hash@.take(pubkey_hash@.len() as int) =~= pubkey_hash@);
        }
        let cs = check_sum(&versioned);
        let mut payload = versioned;
        let mut k: usize = 0;
        while k < 4
            invariant
                k <= 4,
                cs@.len() >= 64,
                payload@ == seq![ADDRESS_VERSION] + pubkey_hash@ + cs@.take(k as int),
            decreases 4 - k,
        {
            payload.push(cs[k]);
            proof {
                assert(payload@ =~= seq![ADDRESS_VERSION] + pubkey_hash@ + cs@.take(k + 1));
            }
            k = k + 1;
        }
        proof {
            assert(payload@ =~= spec_address_payload(pubkey_hash@));
        }
        to_base58(payload.as_slice())
    }
}

/// One named wallet in the bag.
pub struct WalletEntry {
    pub address: String,
    pub wallet: Wallet,
}

/// Mathematical form of a wallet entry.
pub ghost struct WalletEntryV {
    pub address: Seq<char>,
    pub wallet: WalletV,
}

impl View for WalletEntry {
    type V = WalletEntryV;

    open spec fn view(&self) -> WalletEntryV {
        WalletEntryV { address: self.address@, wallet: self.wallet@ }
    }
}

/// The in-memory wallet bag, keyed by address.
pub struct Wallets {
    pub entries: Vec<WalletEntry>,
}

impl View for Wallets {
    type V = Seq<WalletEntryV>;

    open spec fn view(&self) -> Seq<WalletEntryV> {
        Seq::new(self.entries@.len(), |i: int| self.entries@[i]@)
    }
}

/// The first wallet under `address`, if any.
pub open spec fn spec_get_wallet(entries: Seq<WalletEntryV>, address: Seq<char>) -> Option<WalletV>
    decreases entries.len(),
{
    if entries.len() == 0 {
        None
    } else if entries[0].address == address {
        Some(entries[0].wallet)
    } else {
        spec_get_wallet(entries.drop_first(), address)
    }
}

/// The position of the first entry under `address`, or minus one.
pub open spec fn wallet_idx(entries: Seq<WalletEntryV>, address: Seq<char>) -> int
    decreases entries.len(),
{
    if entries.len() == 0 {
        -1
    } else if entries[0].address == address {
        0
    } else {
        let r = wallet_idx(entries.drop_first(), address);
        if r < 0 {
            -1
        } else {
            r + 1
        }
    }
}

/// Storing a wallet under an address: the first entry under that address is
/// replaced, or a fresh entry is appended.
pub open spec fn spec_put_wallet(
    entries: Seq<WalletEntryV>,
    address: Seq<char>,
    w: WalletV,
) -> Seq<WalletEntryV> {
    let j = wallet_idx(entries, address);
    if j < 0 {
        entries.push(WalletEntryV { address: address, wallet: w })
    } else {
        entries.update(j, WalletEntryV { address: address, wallet: w })
    }
}

/// The found position names an entry under the address; a negative answer
/// means no entry carries it.
pub proof fn lemma_wallet_idx(entries: Seq<WalletEntryV>, address: Seq<char>)
    ensures
        wallet_idx(entries, address) >= 0 ==> wallet_idx(entries, address) < entries.len()
            && entries[wallet_idx(entries, address)].address == address && (forall|k: int|
            0 <= k < wallet_idx(entries, address) ==> (#[trigger] entries[k]).address != address),
        wallet_idx(entries, address) < 0 ==> forall|k: int|
            0 <= k < entries.len() ==> (#[trigger] entries[k]).address != address,
    decreases entries.len(),
{
    if entries.len() > 0 && entries[0].address != address {
        lemma_wallet_idx(entries.drop_first(), address);
        let r = wallet_idx(entries.drop_first(), address);
        if r < 0 {
            assert forall|k: int| 0 <= k < entries.len() implies (#[trigger] entries[k]).address
                != address by {
                if k > 0 {
                    assert(entries.drop_first()[k - 1] == entries[k]);
                }
            }
        } else {
            assert(entries.drop_first()[r] == entries[r + 1]);
            assert forall|k: int| 0 <= k < r + 1 implies (#[trigger] entries[k]).address
                != address by {
                if k > 0 {
                    assert(entries.drop_first()[k - 1] == entries[k]);
                }
            }
        }
    }
}

/// The stored list relates to the tail's: same first entry (when not the
/// replaced one) and the tail stored likewise.
proof fn lemma_put_unfold(entries: Seq<WalletEntryV>, address: Seq<char>, w: WalletV)
    requires
        entries.len() > 0,
        entries[0].address != address,
    ensures
        spec_put_wallet(entries, address, w).len() > 0,
        spec_put_wallet(entries, address, w)[0] == entries[0],
        spec_put_wallet(entries, address, w).drop_first() == spec_put_wallet(
            entries.drop_first(),
            address,
            w,
        ),
{
    let tail = entries.drop_first();
    let e = WalletEntryV { address: address, wallet: w };
    if wallet_idx(tail, address) < 0 {
        assert(entries.push(e)[0] == entries[0]);
        assert(entries.push(e).drop_first() =~= tail.push(e));
    } else {
        let r = wallet_idx(tail, address);
        lemma_wallet_idx(tail, address);
        assert(entries.update(r + 1, e)[0] == entries[0]);
        assert(entries.update(r + 1, e).drop_first() =~= tail.update(r, e));
    }
}

/// After storing a wallet, looking its address up finds exactly it.
pub proof fn lemma_put_get(entries: Seq<WalletEntryV>, address: Seq<char>, w: WalletV)
    ensures
        spec_get_wallet(spec_put_wallet(entries, address, w), address) == Some(w),
    decreases entries.len(),
{
    let e = WalletEntryV { address: address, wallet: w };
    if entries.len() == 0 {
        assert(spec_put_wallet(entries, address, w) =~= seq![e]);
        assert(seq![e][0] == e);
    } else if entries[0].address == address {
        assert(spec_put_wallet(entries, address, w) == entries.update(0, e));
        assert(entries.update(0, e)[0] == e);
    } else {
        lemma_put_get(entries.drop_first(), address, w);
        lemma_put_unfold(entries, address, w);
    }
}

/// Storing a wallet leaves every other address's lookup unchanged.
pub proof fn lemma_put_other(
    entries: Seq<WalletEntryV>,
    address: Seq<char>,
    w: WalletV,
    other: Seq<char>,
)
    requires
        other != address,
    ensures
        spec_get_wallet(spec_put_wallet(entries, address, w), other) == spec_get_wallet(
            entries,
            other,
        ),
    decreases entries.len(),
{
    let e = WalletEntryV { address: address, wallet: w };
    if entries.len() == 0 {
        assert(spec_put_wallet(entries, address, w) =~= seq![e]);
        assert(seq![e][0] == e);
        assert(seq![e].drop_first() =~= entries);
    } else if entries[0].address == address {
        lemma_put_other(entries.drop_first(), address, w, other);
        assert(spec_put_wallet(entries, address, w) == entries.update(0, e));
        assert(entries.update(0, e)[0] == e);
        assert(entries.update(0, e).drop_first() =~= entries.drop_first());
    } else {
        lemma_put_other(entries.drop_first(), address, w, other);
        lemma_put_unfold(entries, address, w);
    }
}

impl Wallets {
    /// A fresh, empty wallet bag.
    pub fn new_wallets() -> (r: Result<Self, ChainError>)
        ensures
            r matches Ok(w) && w@.len() == 0,
    {
        Ok(Wallets { entries: Vec::new() })
    }

    /// Stores a wallet under its address: an entry already under that address
    /// is replaced (the newest wallet wins), and afterwards the lookup finds
    /// exactly the stored wallet.
    pub fn insert_wallet(&mut self, address: String, wallet: Wallet)
        ensures
            final(self)@ == spec_put_wallet(old(self)@, address@, wallet@),
            spec_get_wallet(final(self)@, address@) == Some(wallet@),
            forall|other: Seq<char>|
                other != address@ ==> #[trigger] spec_get_wallet(final(self)@, other)
                    == spec_get_wallet(old(self)@, other),
    {
        let ghost before: Seq<WalletEntryV> = self@;
        let ghost wv: WalletV = wallet@;
        let ghost av: Seq<char> = address@;
        let want = chars_of_str(address.as_str());
        proof {
            assert(wallet_idx(before, av) == (if wallet_idx(before.skip(0), av) < 0 {
                -1int
            } else {
                wallet_idx(before.skip(0), av) + 0
            })) by {
                assert(before.skip(0) =~= before);
            }
        }
        let mut i: usize = 0;
        let mut found: Option<usize> = None;
        while i < self.entries.len()
            invariant
                i <= self.entries@.len(),
                self@ == before,
                want@ == av,
                match found {
                    Some(j) => j < i && wallet_idx(before, av) == j as int,
                    None => wallet_idx(before, av) == (if wallet_idx(
                        before.skip(i as int),
                        av,
                    ) < 0 {
                        -1int
                    } else {
                        wallet_idx(before.skip(i as int), av) + i
                    }),
                },
            decreases self.entries@.len() - i,
        {
            if found.is_none() {
                let have = chars_of_str(self.entries[i].address.as_str());
                proof {
                    assert(before.skip(i as int)[0] == before[i as int]);
                    assert(before.skip(i as int).drop_first() =~= before.skip(i + 1));
                }
                if chars_eq(&have, &want) {
                    found = Some(i);
                }
            }
            i = i + 1;
        }
        proof {
            if found is None {
                assert(before.skip(self.entries@.len() as int).len() == 0);
            }
        }
        match found {
            Some(j) => {
                self.entries.set(j, WalletEntry { address, wallet });
                proof {
                    assert(self@ =~= before.update(
                        j as int,
                        WalletEntryV { address: av, wallet: wv },
                    ));
                }
            },
            None => {
                self.entries.push(WalletEntry { address, wallet });
                proof {
                    assert(self@ =~= before.push(WalletEntryV { address: av, wallet: wv }));
                }
            },
        }
        proof {
            lemma_put_get(before, av, wv);
            assert forall|other: Seq<char>| other != av implies #[trigger] spec_get_wallet(
                self@,
                other,
            ) == spec_get_wallet(before, other) by {
                lemma_put_other(before, av, wv, other);
            }
        }
    }

    /// Draws a fresh key pair, stores it under its address (replacing any
    /// wallet already there, as a keyed store would), and returns the
    /// address.
    pub fn create_wallet(&mut self) -> (r: String)
        ensures
            spec_get_wallet(final(self)@, r@) matches Some(w) && {
                &&& r@ == spec_wallet_address(w.public_key)
                &&& w.public_key == crate::digests::p256_public_of(w.secret_key)
                &&& address_form_ok(spec_hash_pubkey(w.public_key))
                &&& final(self)@ == spec_put_wallet(old(self)@, r@, w)
            },
            forall|other: Seq<char>|
                other != r@ ==> #[trigger] spec_get_wallet(final(self)@, other)
                    == spec_get_wallet(old(self)@, other),
            r@.len() <= 132,
    {
        let wallet = Wallet::new_wallet();
        let address = wallet.get_address();
        let r = address.clone();
        self.insert_wallet(address, wallet);
        r
    }

    /// The wallet stored under `address`.
    pub fn get_wallet(&self, address: &str) -> (r: Result<Wallet, ChainError>)
        ensures
            match r {
                Ok(w) => spec_get_wallet(self@, address@) == Some(w@),
                Err(e) => spec_get_wallet(self@, address@) is None && e
                    == ChainError::UnknownWallet,
            },
    {
        let want = chars_of_str(address);
        proof {
            assert(self@.skip(0) =~= self@);
        }
        let mut i: usize = 0;
        while i < self.entries.len()
            invariant
                i <= self.entries@.len(),
                want@ == address@,
                forall|k: int| 0 <= k < i ==> #[trigger] self@[k].address != address@,
                spec_get_wallet(self@, address@) == spec_get_wallet(
                    self@.skip(i as int),
                    address@,
                ),
            decreases self.entries@.len() - i,
        {
            let have = chars_of_str(self.entries[i].address.as_str());
            if chars_eq(&have, &want) {
                proof {
                    assert(self@.skip(i as int)[0] == self@[i as int]);
                }
                return Ok(self.entries[i].wallet.clone());
            }
            proof {
                assert(self@.skip(i as int)[0] == self@[i as int]);
                assert(self@.skip(i as int).drop_first() =~= self@.skip(i + 1));
            }
            i = i + 1;
        }
        proof {
            assert(self@.skip(i as int).len() == 0);
        }
        Err(ChainError::UnknownWallet)
    }
}

} // verus!
