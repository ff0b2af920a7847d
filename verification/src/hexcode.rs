//! Lowercase hexadecimal encoding and decoding of byte strings, verified
//! against a spec-level form. Transaction ids, block hashes, public key
//! hashes and signatures all travel as hex text.
use vstd::prelude::*;

verus! {

/// The lowercase hexadecimal digit character for a value below sixteen.
pub open spec fn hex_digit(d: nat) -> char {
    if d == 0 {
        '0'
    } else if d == 1 {
        '1'
    } else if d == 2 {
        '2'
    } else if d == 3 {
        '3'
    } else if d == 4 {
        '4'
    } else if d == 5 {
        '5'
    } else if d == 6 {
        '6'
    } else if d == 7 {
        '7'
    } else if d == 8 {
        '8'
    } else if d == 9 {
        '9'
    } else if d == 10 {
        'a'
    } else if d == 11 {
        'b'
    } else if d == 12 {
        'c'
    } else if d == 13 {
        'd'
    } else if d == 14 {
        'e'
    } else {
        'f'
    }
}

/// A hexadecimal digit in either case.
pub open spec fn is_hex_digit(c: char) -> bool {
    ('0' as u32 <= c as u32 <= '9' as u32) || ('a' as u32 <= c as u32 <= 'f' as u32) || (
    'A' as u32 <= c as u32 <= 'F' as u32)
}

/// The numeric value of a hexadecimal digit character.
pub open spec fn hex_val(c: char) -> nat {
    if '0' as u32 <= c as u32 <= '9' as u32 {
        (c as u32 - '0' as u32) as nat
    } else if 'a' as u32 <= c as u32 <= 'f' as u32 {
        (c as u32 - 'a' as u32 + 10) as nat
    } else {
        (c as u32 - 'A' as u32 + 10) as nat
    }
}

/// Lowercase hex rendering of a byte string, two digits per byte.
pub open spec fn hex_of(b: Seq<u8>) -> Seq<char>
    decreases b.len(),
{
    if b.len() == 0 {
        Seq::<char>::empty()
    } else {
        hex_of(b.drop_last()) + seq![
            hex_digit(b.last() as nat / 16),
            hex_digit(b.last() as nat % 16),
        ]
    }
}

pub open spec fn all_hex_digits(s: Seq<char>) -> bool {
    forall|i: int| 0 <= i < s.len() ==> is_hex_digit(#[trigger] s[i])
}

/// The bytes a well-formed hex string denotes: two digits each, high first.
pub open spec fn hex_bytes(s: Seq<char>) -> Seq<u8>
    decreases s.len(),
{
    if s.len() < 2 {
        Seq::<u8>::empty()
    } else {
        hex_bytes(s.subrange(0, s.len() - 2)).push(
            (hex_val(s[s.len() - 2]) * 16 + hex_val(s[s.len() - 1])) as u8,
        )
    }
}

/// What decoding a hex string yields: the bytes, or nothing when the string
/// has odd length or a character outside the hexadecimal alphabet.
pub open spec fn hex_parse(s: Seq<char>) -> Option<Seq<u8>> {
    if s.len() % 2 == 0 && all_hex_digits(s) {
        Some(hex_bytes(s))
    } else {
        None
    }
}

pub proof fn lemma_hex_digit_val(d: nat)
    requires
        d < 16,
    ensures
        is_hex_digit(hex_digit(d)),
        hex_val(hex_digit(d)) == d,
{
}

pub proof fn lemma_hex_of_len(b: Seq<u8>)
    ensures
        hex_of(b).len() == 2 * b.len(),
        all_hex_digits(hex_of(b)),
    decreases b.len(),
{
    if b.len() > 0 {
        lemma_hex_of_len(b.drop_last());
        lemma_hex_digit_val(b.last() as nat / 16);
        lemma_hex_digit_val(b.last() as nat % 16);
        assert forall|i: int| 0 <= i < hex_of(b).len() implies is_hex_digit(
            #[trigger] hex_of(b)[i],
        ) by {
            if i < hex_of(b.drop_last()).len() {
                assert(hex_of(b)[i] == hex_of(b.drop_last())[i]);
            }
        }
    }
}

/// Encoding then decoding gives the bytes back.
pub proof fn lemma_hex_round_trip(b: Seq<u8>)
    ensures
        hex_parse(hex_of(b)) == Some(b),
    decreases b.len(),
{
    lemma_hex_of_len(b);
    if b.len() == 0 {
        assert(hex_bytes(hex_of(b)) =~= b);
    } else {
        lemma_hex_round_trip(b.drop_last());
        lemma_hex_of_len(b.drop_last());
        let s = hex_of(b);
        assert(s.subrange(0, s.len() - 2) =~= hex_of(b.drop_last()));
        lemma_hex_digit_val(b.last() as nat / 16);
        lemma_hex_digit_val(b.last() as nat % 16);
        assert(s[s.len() - 2] == hex_digit(b.last() as nat / 16));
        assert(s[s.len() - 1] == hex_digit(b.last() as nat % 16));
        assert((b.last() as nat / 16) * 16 + (b.last() as nat % 16) == b.last() as nat);
        assert(hex_bytes(s) =~= b);
    }
}

pub fn hex_digit_exec(d: u8) -> (r: char)
    requires
        d < 16,
    ensures
        r == hex_digit(d as nat),
{
    if d < 10 {
        (48 + d) as char
    } else {
        (87 + d) as char
    }
}

/// Appends the lowercase hex rendering of `b` to `out`.
pub fn push_hex(out: &mut Vec<char>, b: &[u8])
    ensures
        final(out)@ == old(out)@ + hex_of(b@),
{
    let ghost base: Seq<char> = out@;
    let mut i: usize = 0;
    while i < b.len()
        invariant
            i <= b@.len(),
            out@ == base + hex_of(b@.take(i as int)),
        decreases b@.len() - i,
    {
        let hi: u8 = b[i] / 16;
        let lo: u8 = b[i] % 16;
        out.push(hex_digit_exec(hi));
        out.push(hex_digit_exec(lo));
        proof {
            assert(b@.take(i + 1).drop_last() =~= b@.take(i as int));
            assert(b@.take(i + 1).last() == b@[i as int]);
            assert(out@ =~= base + hex_of(b@.take(i + 1)));
        }
        i = i + 1;
    }
    proof {
        assert(b@.take(b@.len() as int) =~= b@);
    }
}

/// The lowercase hex rendering of a byte string as characters.
pub fn hex_chars(b: &[u8]) -> (r: Vec<char>)
    ensures
        r@ == hex_of(b@),
{
    let mut out: Vec<char> = Vec::new();
    push_hex(&mut out, b);
    out
}

pub fn is_hex_exec(c: char) -> (r: bool)
    ensures
        r == is_hex_digit(c),
{
    let v: u32 = c as u32;
    (48 <= v && v <= 57) || (97 <= v && v <= 102) || (65 <= v && v <= 70)
}

pub fn hex_val_exec(c: char) -> (r: u8)
    requires
        is_hex_digit(c),
    ensures
        r as nat == hex_val(c),
        r < 16,
{
    let v: u32 = c as u32;
    if 48 <= v && v <= 57 {
        (v - 48) as u8
    } else if 97 <= v && v <= 102 {
        (v - 97 + 10) as u8
    } else {
        (v - 65 + 10) as u8
    }
}

/// Decodes a hex string into bytes; fails exactly when the string has odd
/// length or holds a character outside the hexadecimal alphabet.
pub fn hex_decode(s: &Vec<char>) -> (r: Result<Vec<u8>, ()>)
    ensures
        r matches Ok(v) ==> hex_parse(s@) == Some(v@),
        r is Err ==> hex_parse(s@) is None,
{
    if s.len() % 2 != 0 {
        return Err(());
    }
    let mut out: Vec<u8> = Vec::new();
    let mut i: usize = 0;
    while i < s.len()
        invariant
            s@.len() % 2 == 0,
            i % 2 == 0,
            i <= s@.len(),
            all_hex_digits(s@.take(i as int)),
            out@ == hex_bytes(s@.take(i as int)),
        decreases s@.len() - i,
    {
        proof {
            assert(i + 1 < s@.len());
        }
        let c0 = s[i];
        let c1 = s[i + 1];
        if !is_hex_exec(c0) || !is_hex_exec(c1) {
            proof {
                if all_hex_digits(s@) {
                    assert(is_hex_digit(s@[i as int]));
                    assert(is_hex_digit(s@[i + 1]));
                    assert(false);
                }
            }
            return Err(());
        }
        let v0: u8 = hex_val_exec(c0);
        let v1: u8 = hex_val_exec(c1);
        out.push(v0 * 16 + v1);
        proof {
            let t = s@.take(i + 2);
            assert(t.subrange(0, t.len() - 2) =~= s@.take(i as int));
            assert(t[t.len() - 2] == s@[i as int]);
            assert(t[t.len() - 1] == s@[i + 1]);
            assert(out@ =~= hex_bytes(t));
            assert forall|k: int| 0 <= k < i + 2 implies is_hex_digit(#[trigger] t[k]) by {
                if k < i {
                    assert(t[k] == s@.take(i as int)[k]);
                }
            }
            assert(all_hex_digits(t)) by {
                assert(forall|k: int| 0 <= k < t.len() ==> is_hex_digit(#[trigger] t[k]));
            }
        }
        i = i + 2;
    }
    proof {
        assert(i == s@.len());
        assert(s@.take(i as int) =~= s@);
    }
    Ok(out)
}

} // verus!
