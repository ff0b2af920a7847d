//! Base-ten rendering and parsing of unsigned integers, verified against a
//! spec-level decimal form. The canonical chain encodings (block preimages and
//! the JSON wire form) render every numeric field in base ten.
use vstd::prelude::*;

verus! {

/// The decimal digit character for a value below ten.
pub open spec fn dec_digit(d: nat) -> char {
    if d == 0 {
        '0'
    } else if d == 1 {
        '1'
    } else if d == 2 {
        '2'
    } else if d == 3 {
        '3'
    } else if d == 4 {
        '4'
    } else if d == 5 {
        '5'
    } else if d == 6 {
        '6'
    } else if d == 7 {
        '7'
    } else if d == 8 {
        '8'
    } else {
        '9'
    }
}

pub open spec fn is_dec_digit(c: char) -> bool {
    '0' as u32 <= c as u32 <= '9' as u32
}

/// The numeric value of a decimal digit character.
pub open spec fn digit_val(c: char) -> nat {
    (c as u32 - '0' as u32) as nat
}

/// Base-ten rendering of a natural number, most significant digit first,
/// with no leading zeros.
pub open spec fn dec_of(n: nat) -> Seq<char>
    decreases n,
{
    if n < 10 {
        seq![dec_digit(n)]
    } else {
        dec_of(n / 10).push(dec_digit(n % 10))
    }
}

/// The numeric value of a digit string, most significant digit first.
pub open spec fn dec_val(s: Seq<char>) -> nat
    decreases s.len(),
{
    if s.len() == 0 {
        0
    } else {
        dec_val(s.drop_last()) * 10 + digit_val(s.last())
    }
}

pub open spec fn all_dec_digits(s: Seq<char>) -> bool {
    forall|i: int| 0 <= i < s.len() ==> is_dec_digit(#[trigger] s[i])
}

pub proof fn lemma_digit_val_of_dec_digit(d: nat)
    requires
        d < 10,
    ensures
        is_dec_digit(dec_digit(d)),
        digit_val(dec_digit(d)) == d,
{
}

pub proof fn lemma_dec_of_digits(n: nat)
    ensures
        dec_of(n).len() >= 1,
        all_dec_digits(dec_of(n)),
    decreases n,
{
    if n < 10 {
        lemma_digit_val_of_dec_digit(n);
        assert(dec_of(n) =~= seq![dec_digit(n)]);
    } else {
        lemma_dec_of_digits(n / 10);
        lemma_digit_val_of_dec_digit(n % 10);
        assert forall|i: int| 0 <= i < dec_of(n).len() implies is_dec_digit(#[trigger] dec_of(n)[i]) by {
            if i < dec_of(n / 10).len() {
                assert(dec_of(n)[i] == dec_of(n / 10)[i]);
            }
        }
    }
}

/// Rendering then evaluating gives the number back.
pub proof fn lemma_dec_val_of(n: nat)
    ensures
        dec_val(dec_of(n)) == n,
    decreases n,
{
    if n < 10 {
        lemma_digit_val_of_dec_digit(n);
        assert(dec_of(n).drop_last() =~= Seq::<char>::empty());
        assert(dec_val(Seq::<char>::empty()) == 0);
        assert(dec_of(n).last() == dec_digit(n));
    } else {
        lemma_dec_val_of(n / 10);
        lemma_digit_val_of_dec_digit(n % 10);
        assert(dec_of(n).drop_last() =~= dec_of(n / 10));
        assert(dec_of(n).last() == dec_digit(n % 10));
        assert(dec_val(dec_of(n)) == (n / 10) * 10 + n % 10);
    }
}

/// The value of a digit-string prefix never exceeds the whole value.
pub proof fn lemma_dec_val_prefix(s: Seq<char>, k: int)
    requires
        0 <= k <= s.len(),
    ensures
        dec_val(s.take(k)) <= dec_val(s),
    decreases s.len(),
{
    if k < s.len() {
        if s.len() > 0 {
            assert(s.drop_last().take(k) =~= s.take(k));
            lemma_dec_val_prefix(s.drop_last(), k);
        }
    } else {
        assert(s.take(k) =~= s);
    }
}

/// Extending a digit string by one digit multiplies by ten and adds it.
pub proof fn lemma_dec_val_step(s: Seq<char>, k: int)
    requires
        0 <= k < s.len(),
    ensures
        dec_val(s.take(k + 1)) == dec_val(s.take(k)) * 10 + digit_val(s[k]),
{
    assert(s.take(k + 1).drop_last() =~= s.take(k));
    assert(s.take(k + 1).last() == s[k]);
}

/// Appends the base-ten rendering of `n` to `out`.
pub fn push_u128(out: &mut Vec<char>, n: u128)
    ensures
        final(out)@ == old(out)@ + dec_of(n as nat),
    decreases n,
{
    if n >= 10 {
        push_u128(out, n / 10);
        let d: u128 = n % 10;
        out.push(digit_char(d as u8));
        assert(out@ =~= old(out)@ + dec_of(n as nat));
    } else {
        out.push(digit_char(n as u8));
        assert(out@ =~= old(out)@ + dec_of(n as nat));
    }
}

fn digit_char(d: u8) -> (r: char)
    requires
        d < 10,
    ensures
        r == dec_digit(d as nat),
{
    if d == 0 {
        '0'
    } else if d == 1 {
        '1'
    } else if d == 2 {
        '2'
    } else if d == 3 {
        '3'
    } else if d == 4 {
        '4'
    } else if d == 5 {
        '5'
    } else if d == 6 {
        '6'
    } else if d == 7 {
        '7'
    } else if d == 8 {
        '8'
    } else {
        '9'
    }
}

/// `n` has its canonical rendering at `pos`, followed by a non-digit or the end.
pub open spec fn dec_at(s: Seq<char>, pos: int, n: nat) -> bool {
    &&& pos + dec_of(n).len() <= s.len()
    &&& s.subrange(pos, pos + dec_of(n).len() as int) == dec_of(n)
    &&& (pos + dec_of(n).len() == s.len() || !is_dec_digit(s[pos + dec_of(n).len() as int]))
}

fn is_digit_exec(c: char) -> (r: bool)
    ensures
        r == is_dec_digit(c),
{
    let v: u32 = c as u32;
    48 <= v && v <= 57
}

fn digit_val_exec(c: char) -> (r: u8)
    requires
        is_dec_digit(c),
    ensures
        r as nat == digit_val(c),
        r < 10,
{
    ((c as u32) - 48) as u8
}

/// Reads a run of decimal digits starting at `pos` and returns its value with
/// the position after the run. Fails when no digit stands at `pos` or the
/// value exceeds `u128::MAX`. On the canonical rendering of an `n <= u128::MAX`
/// it always succeeds with exactly `n`.
pub fn parse_u128(s: &Vec<char>, pos: usize) -> (r: Result<(u128, usize), ()>)
    requires
        pos <= s@.len(),
    ensures
        r matches Ok(t) ==> {
            &&& pos < t.1 <= s@.len()
            &&& all_dec_digits(s@.subrange(pos as int, t.1 as int))
            &&& dec_val(s@.subrange(pos as int, t.1 as int)) == t.0 as nat
            &&& (t.1 == s@.len() || !is_dec_digit(s@[t.1 as int]))
        },
        forall|n: nat|
            #![trigger dec_at(s@, pos as int, n)]
            n <= u128::MAX && dec_at(s@, pos as int, n) ==> (r matches Ok(t) && t.0 == n as u128
                && t.1 == pos + dec_of(n).len()),
{
    let ghost orig: Seq<char> = s@;
    let mut i: usize = pos;
    let mut acc: u128 = 0;
    if i == s.len() || !is_digit_exec(s[i]) {
        proof {
            assert forall|n: nat| n <= u128::MAX && dec_at(orig, pos as int, n) implies false by {
                lemma_dec_of_digits(n);
                let l = dec_of(n).len() as int;
                assert(orig.subrange(pos as int, pos + l)[0] == orig[pos as int]);
                assert(is_dec_digit(dec_of(n)[0]));
            }
        }
        return Err(());
    }
    while i < s.len() && is_digit_exec_ref(s, i)
        invariant
            pos <= i <= s@.len(),
            s@ == orig,
            pos < i ==> all_dec_digits(orig.subrange(pos as int, i as int)),
            pos < i ==> dec_val(orig.subrange(pos as int, i as int)) == acc as nat,
            pos == i ==> acc == 0,
            pos == i ==> i < s@.len() && is_dec_digit(orig[i as int]),
        decreases s@.len() - i,
    {
        let d: u8 = digit_val_exec(s[i]);
        if acc > (u128::MAX - d as u128) / 10 {
            proof {
                lemma_mul_bound_exceeded(acc as nat, d as nat);
                assert forall|n: nat| n <= u128::MAX && dec_at(orig, pos as int, n) implies false by {
                    lemma_dec_of_digits(n);
                    let l = dec_of(n).len() as int;
                    if i >= pos + l {
                        assert(pos + l < orig.len());
                        assert(!is_dec_digit(orig[pos + l]));
                        if pos + l < i {
                            assert(is_dec_digit(orig.subrange(pos as int, i as int)[pos + l
                                - pos]));
                            assert(orig.subrange(pos as int, i as int)[pos + l - pos] == orig[pos
                                + l]);
                        }
                    } else {
                        lemma_dec_val_prefix_full(orig, pos as int, i + 1, n);
                        if pos < i {
                            assert(orig.subrange(pos as int, i + 1).drop_last() =~= orig.subrange(
                                pos as int,
                                i as int,
                            ));
                        } else {
                            assert(orig.subrange(pos as int, i + 1) =~= seq![orig[i as int]]);
                            assert(orig.subrange(pos as int, i + 1).drop_last() =~= Seq::<
                                char,
                            >::empty());
                        }
                        assert(orig.subrange(pos as int, i + 1).last() == orig[i as int]);
                        assert(dec_val(orig.subrange(pos as int, i + 1)) == acc as nat * 10
                            + d as nat);
                    }
                }
            }
            return Err(());
        }
        proof {
            lemma_mul_bound_ok(acc as nat, d as nat);
            let ext = orig.subrange(pos as int, i + 1);
            assert(ext[i - pos] == orig[i as int]);
            if pos < i {
                lemma_dec_val_step(ext, i - pos);
                assert(ext.take(i - pos) =~= orig.subrange(pos as int, i as int));
                assert(ext.take(i - pos + 1) =~= ext);
                assert(dec_val(ext) == dec_val(orig.subrange(pos as int, i as int)) * 10
                    + digit_val(orig[i as int]));
            } else {
                assert(ext =~= seq![orig[i as int]]);
                assert(ext.drop_last() =~= Seq::<char>::empty());
                assert(dec_val(Seq::<char>::empty()) == 0);
                assert(dec_val(ext) == digit_val(ext.last()));
            }
            assert forall|k: int| 0 <= k < i + 1 - pos implies is_dec_digit(#[trigger] ext[k]) by {
                if k < i - pos {
                    assert(ext[k] == orig.subrange(pos as int, i as int)[k]);
                } else {
                    assert(ext[k] == orig[i as int]);
                }
            }
        }
        acc = acc * 10 + d as u128;
        i = i + 1;
    }
    proof {
        assert forall|n: nat| n <= u128::MAX && dec_at(orig, pos as int, n) implies (
            acc as nat == n && i == pos + dec_of(n).len()) by {
            lemma_run_is_dec(orig, pos as int, i as int, n);
        }
    }
    Ok((acc, i))
}

fn is_digit_exec_ref(s: &Vec<char>, i: usize) -> (r: bool)
    requires
        i < s@.len(),
    ensures
        r == is_dec_digit(s@[i as int]),
{
    is_digit_exec(s[i])
}

proof fn lemma_mul_bound_ok(acc: nat, d: nat)
    requires
        d < 10,
        acc <= (u128::MAX - d) / 10,
    ensures
        acc * 10 + d <= u128::MAX,
{
    assert(acc * 10 <= ((u128::MAX - d) / 10) * 10) by (nonlinear_arith)
        requires
            acc <= (u128::MAX - d) / 10,
    ;
    assert(((u128::MAX - d) as nat / 10) * 10 <= u128::MAX - d) by (nonlinear_arith)
        requires
            d < 10,
    ;
}

proof fn lemma_mul_bound_exceeded(acc: nat, d: nat)
    requires
        d < 10,
        acc > (u128::MAX - d) / 10,
    ensures
        acc * 10 + d > u128::MAX,
{
    assert(acc * 10 + d > u128::MAX) by (nonlinear_arith)
        requires
            d < 10,
            acc > (u128::MAX - d) / 10,
    ;
}

/// Inside the canonical run, the scanned prefix agrees with `dec_of(n)`.
proof fn parse_run_matches_dec(s: Seq<char>, pos: int, i: int, n: nat)
    requires
        0 <= pos,
        dec_at(s, pos, n),
        pos <= i,
        i < pos + dec_of(n).len() || (i <= s.len() && i == pos + dec_of(n).len()),
        i <= s.len(),
    ensures
        i <= pos + dec_of(n).len() ==> s.subrange(pos, i) == dec_of(n).take(i - pos),
{
    assert(s.subrange(pos, i) =~= dec_of(n).take(i - pos)) by {
        assert forall|k: int| 0 <= k < i - pos implies s.subrange(pos, i)[k] == dec_of(n).take(
            i - pos,
        )[k] by {
            assert(s.subrange(pos, pos + dec_of(n).len() as int)[k] == dec_of(n)[k]);
        }
    }
}

/// The prefix value stays below `n` while scanning the canonical run.
proof fn lemma_dec_val_prefix_full(s: Seq<char>, pos: int, i: int, n: nat)
    requires
        0 <= pos,
        dec_at(s, pos, n),
        pos <= i <= pos + dec_of(n).len(),
        i <= s.len(),
    ensures
        dec_val(s.subrange(pos, i)) <= n,
{
    parse_run_matches_dec(s, pos, i, n);
    lemma_dec_val_prefix(dec_of(n), i - pos);
    lemma_dec_val_of(n);
}

/// When the loop stops, the digit run it scanned is exactly `dec_of(n)`.
proof fn lemma_run_is_dec(s: Seq<char>, pos: int, i: int, n: nat)
    requires
        0 <= pos,
        dec_at(s, pos, n),
        pos < i <= s.len(),
        all_dec_digits(s.subrange(pos, i)),
        i == s.len() || !is_dec_digit(s[i]),
    ensures
        i == pos + dec_of(n).len(),
        dec_val(s.subrange(pos, i)) == n,
{
    lemma_dec_of_digits(n);
    let l = dec_of(n).len() as int;
    if i < pos + l {
        assert(is_dec_digit(s.subrange(pos, pos + l)[i - pos]));
        assert(s[i] == s.subrange(pos, pos + l)[i - pos]);
        assert(false);
    }
    if i > pos + l {
        assert(!is_dec_digit(s[pos + l]));
        assert(is_dec_digit(s.subrange(pos, i)[l]));
        assert(s[pos + l] == s.subrange(pos, i)[l]);
        assert(false);
    }
    assert(s.subrange(pos, i) == dec_of(n));
    lemma_dec_val_of(n);
}

} // verus!
