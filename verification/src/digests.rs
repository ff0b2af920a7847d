//! Trusted bindings to the cryptographic primitives and to the system clock.
//! Each digest or signature is given a name as a spec function; the wrappers
//! state what the outside crates document and nothing more.
use vstd::prelude::*;

use crate::errors::ChainError;
use crate::hexcode::all_hex_digits;

verus! {

/// The lowercase hex form of the SHA-256 digest of a string's UTF-8 bytes.
pub uninterp spec fn sha256_hex_of(s: Seq<char>) -> Seq<char>;

/// The lowercase hex form of the SHA-256 digest of a byte string.
pub uninterp spec fn sha256_hex_of_bytes(b: Seq<u8>) -> Seq<char>;

/// The 20-byte RIPEMD-160 digest of a byte string.
pub uninterp spec fn ripemd160_of(b: Seq<u8>) -> Seq<u8>;

/// The Base58 rendering of a byte string.
pub uninterp spec fn base58_of(b: Seq<u8>) -> Seq<char>;

/// The raw 64-byte ECDSA P-256 signature of a message under a private scalar;
/// RFC 6979 makes it a function of the two arguments alone.
pub uninterp spec fn ecdsa_sig_of(key: Seq<u8>, msg: Seq<u8>) -> Seq<u8>;

/// Whether a SEC1 public key, a message and a hex signature parse and verify
/// under ECDSA P-256.
pub uninterp spec fn ecdsa_sig_checks(pubkey: Seq<u8>, msg: Seq<u8>, sig_hex: Seq<char>) -> bool;

/// The SEC1 public key bytes derived from a P-256 secret scalar; a function
/// of the secret alone.
pub uninterp spec fn p256_public_of(secret: Seq<u8>) -> Seq<u8>;

/// Relies on `sha256::digest` (its `&str` impl): the SHA-256 digest of the
/// string's bytes, rendered as 64 hex digits; a function of the input alone.
#[verifier::external_body]
pub fn sha256_hex_str(s: &str) -> (r: String)
    ensures
        r@ == sha256_hex_of(s@),
        r@.len() == 64,
        all_hex_digits(r@),
{
    sha256::digest(s)
}

/// Relies on `sha256::digest` (its `&[u8]` impl): the SHA-256 digest of the
/// bytes, rendered as 64 hex digits; a function of the input alone.
#[verifier::external_body]
pub fn sha256_hex_bytes(b: &[u8]) -> (r: String)
    ensures
        r@ == sha256_hex_of_bytes(b@),
        r@.len() == 64,
        all_hex_digits(r@),
{
    sha256::digest(b)
}

/// Relies on `ripemd::Ripemd160` through `Digest::digest`: the 20-byte
/// RIPEMD-160 digest; a function of the input alone.
#[verifier::external_body]
pub fn ripemd160(b: &[u8]) -> (r: Vec<u8>)
    ensures
        r@ == ripemd160_of(b@),
        r@.len() == 20,
{
    <ripemd::Ripemd160 as ripemd::Digest>::digest(b).to_vec()
}

/// Relies on `base58::ToBase58` for `[u8]`; the crate documents it for inputs
/// of up to 128 bytes. The rendering writes one character per leading zero
/// byte and sizes the remainder at 138 hundredths of the other bytes plus
/// one, so it has fewer than twice as many characters as input bytes, plus
/// one.
#[verifier::external_body]
pub fn to_base58(b: &[u8]) -> (r: String)
    requires
        b@.len() <= 128,
    ensures
        r@ == base58_of(b@),
        r@.len() <= 2 * b@.len() + 1,
{
    base58::ToBase58::to_base58(b)
}

/// Decoding recovers every byte string of up to 128 bytes from its encoding.
pub open spec fn base58_decode_inverts(s: Seq<char>, r: Result<Vec<u8>, ChainError>) -> bool {
    forall|b: Seq<u8>| b.len() <= 128 && s == #[trigger] base58_of(b) ==> (r matches Ok(v) && v@
        == b)
}

/// Relies on `base58::FromBase58` for `str`: decoding inverts the crate's own
/// encoding on inputs of up to 128 bytes. The decoder works in fixed buffers
/// of 132 bytes and subtracts the count of leading `'1'` characters from a
/// buffer position, so inputs longer than 132 characters are kept out: on
/// them that subtraction could underflow and the call abort.
#[verifier::external_body]
pub fn from_base58(s: &str) -> (r: Result<Vec<u8>, ChainError>)
    requires
        s@.len() <= 132,
    ensures
        base58_decode_inverts(s@, r),
{
    match base58::FromBase58::from_base58(s) {
        Ok(v) => Ok(v),
        Err(_) => Err(ChainError::DecodeError),
    }
}

/// A signing failure is reported as a key decode failure or a transaction
/// failure, nothing else.
pub open spec fn sign_outcome_ok(r: Result<Vec<u8>, ChainError>) -> bool {
    r is Ok || r == Err::<Vec<u8>, ChainError>(ChainError::DecodeError) || r == Err::<
        Vec<u8>,
        ChainError,
    >(ChainError::InvalidTransaction)
}

/// Relies on `ecdsa::SigningKey::<NistP256>::from_slice` and
/// `signature::Signer::try_sign`: deterministic ECDSA per RFC 6979, so the
/// raw signature bytes are a function of the key and message alone.
#[verifier::external_body]
pub fn ecdsa_sign(privkey: &[u8], msg: &[u8]) -> (r: Result<Vec<u8>, ChainError>)
    ensures
        r matches Ok(v) ==> v@ == ecdsa_sig_of(privkey@, msg@),
        sign_outcome_ok(r),
{
    let key = match ecdsa::SigningKey::<p256::NistP256>::from_slice(privkey) {
        Ok(k) => k,
        Err(_) => return Err(ChainError::DecodeError),
    };
    let sig: ecdsa::Signature<p256::NistP256> =
        match ecdsa::signature::Signer::try_sign(&key, msg) {
            Ok(s) => s,
            Err(_) => return Err(ChainError::InvalidTransaction),
        };
    Ok(sig.to_vec())
}

/// Relies on `ecdsa::VerifyingKey::<NistP256>::from_sec1_bytes`,
/// `ecdsa::Signature`'s hex `FromStr` and `signature::Verifier::verify`: all
/// deterministic in their inputs; any parse or verification failure is false.
#[verifier::external_body]
pub fn ecdsa_check(pubkey: &[u8], msg: &[u8], sig_hex: &str) -> (r: bool)
    ensures
        r == ecdsa_sig_checks(pubkey@, msg@, sig_hex@),
{
    let key = match ecdsa::VerifyingKey::<p256::NistP256>::from_sec1_bytes(pubkey) {
        Ok(k) => k,
        Err(_) => return false,
    };
    let sig = match <ecdsa::Signature<p256::NistP256> as core::str::FromStr>::from_str(sig_hex) {
        Ok(s) => s,
        Err(_) => return false,
    };
    ecdsa::signature::Verifier::verify(&key, msg, &sig).is_ok()
}

/// Draws a fresh P-256 key pair: raw secret scalar bytes and the SEC1 public
/// key bytes. Relies on `ecdsa::SigningKey::random` over the system's secure
/// generator and on `elliptic_curve::SecretKey::{to_bytes, public_key}`. The
/// secret is random, so nothing is promised of its value; whatever comes out,
/// the public half is the one derived from the secret half.
#[verifier::external_body]
pub fn new_key_pair() -> (r: (Vec<u8>, Vec<u8>))
    ensures
        r.1@ == p256_public_of(r.0@),
{
    let signing_key = ecdsa::SigningKey::<p256::NistP256>::random(&mut rand_core::OsRng);
    let secret: p256::SecretKey = signing_key.into();
    let public = secret.public_key();
    (secret.to_bytes().to_vec(), public.to_sec1_bytes().to_vec())
}

/// A reading either succeeds or reports the input-output failure kind.
pub open spec fn clock_outcome_ok(r: Result<u128, ChainError>) -> bool {
    r is Ok || r == Err::<u128, ChainError>(ChainError::IoError)
}

/// Milliseconds since the Unix epoch. Relies on `std::time::SystemTime`; the
/// clock decides, so nothing is promised of the value; a clock that stands
/// before the epoch is reported as an input-output failure.
#[verifier::external_body]
pub fn now_millis() -> (r: Result<u128, ChainError>)
    ensures
        clock_outcome_ok(r),
{
    match std::time::SystemTime::now().duration_since(std::time::UNIX_EPOCH) {
        Ok(d) => Ok(d.as_millis()),
        Err(_) => Err(ChainError::IoError),
    }
}

} // verus!
