//! The textual building blocks of the canonical JSON form: string escaping,
//! signed and unsigned numbers, and literal runs, each with an exact
//! spec-level rendering, a serializer, and a parser that is proven to accept
//! every rendering.
use vstd::prelude::*;

use crate::dec::dec_at;
use crate::dec::dec_of;
use crate::dec::is_dec_digit;
use crate::dec::parse_u128;
use crate::dec::push_u128;

verus! {

/// `piece` stands at `pos` in `s`.
pub open spec fn at(s: Seq<char>, pos: int, piece: Seq<char>) -> bool {
    &&& 0 <= pos
    &&& pos + piece.len() <= s.len()
    &&& s.subrange(pos, pos + piece.len() as int) == piece
}

/// A concatenation stands at `pos` exactly when its parts stand in sequence.
pub proof fn lemma_at_concat(s: Seq<char>, pos: int, a: Seq<char>, b: Seq<char>)
    requires
        0 <= pos,
    ensures
        at(s, pos, a + b) <==> (at(s, pos, a) && at(s, pos + a.len(), b)),
{
    if at(s, pos, a + b) {
        assert(s.subrange(pos, pos + a.len() as int) =~= a) by {
            assert forall|k: int| 0 <= k < a.len() implies s.subrange(pos, pos + a.len() as int)[k]
                == a[k] by {
                assert(s.subrange(pos, pos + (a + b).len() as int)[k] == (a + b)[k]);
            }
        }
        assert(s.subrange(pos + a.len(), pos + a.len() + b.len() as int) =~= b) by {
            assert forall|k: int| 0 <= k < b.len() implies s.subrange(
                pos + a.len(),
                pos + a.len() + b.len() as int,
            )[k] == b[k] by {
                assert(s.subrange(pos, pos + (a + b).len() as int)[a.len() + k] == (a + b)[a.len()
                    + k]);
            }
        }
    }
    if at(s, pos, a) && at(s, pos + a.len(), b) {
        assert(s.subrange(pos, pos + (a + b).len() as int) =~= a + b) by {
            assert forall|k: int| 0 <= k < (a + b).len() implies s.subrange(
                pos,
                pos + (a + b).len() as int,
            )[k] == (a + b)[k] by {
                if k < a.len() {
                    assert(s.subrange(pos, pos + a.len() as int)[k] == a[k]);
                } else {
                    assert(s.subrange(pos + a.len(), pos + a.len() + b.len() as int)[k - a.len()]
                        == b[k - a.len()]);
                }
            }
        }
    }
}

/// The escaped form of one character inside a JSON string: quote and
/// backslash take a leading backslash; everything else stands as itself.
pub open spec fn esc_char(c: char) -> Seq<char> {
    if c == '"' {
        seq!['\\', '"']
    } else if c == '\\' {
        seq!['\\', '\\']
    } else {
        seq![c]
    }
}

/// The escaped form of a whole string body.
pub open spec fn esc(s: Seq<char>) -> Seq<char>
    decreases s.len(),
{
    if s.len() == 0 {
        Seq::<char>::empty()
    } else {
        esc_char(s[0]) + esc(s.drop_first())
    }
}

/// The canonical JSON string form: quoted, with the body escaped.
pub open spec fn json_string(m: Seq<char>) -> Seq<char> {
    seq!['"'] + esc(m) + seq!['"']
}

/// The canonical JSON form of a signed integer.
pub open spec fn json_int(i: int) -> Seq<char> {
    if i < 0 {
        seq!['-'] + dec_of((-i) as nat)
    } else {
        dec_of(i as nat)
    }
}

pub proof fn lemma_esc_concat(a: Seq<char>, b: Seq<char>)
    ensures
        esc(a + b) == esc(a) + esc(b),
    decreases a.len(),
{
    if a.len() == 0 {
        assert(a + b =~= b);
        assert(esc(a) + esc(b) =~= esc(b));
    } else {
        assert((a + b).drop_first() =~= a.drop_first() + b);
        lemma_esc_concat(a.drop_first(), b);
        assert((a + b)[0] == a[0]);
        assert(esc_char(a[0]) + (esc(a.drop_first()) + esc(b)) =~= (esc_char(a[0]) + esc(
            a.drop_first(),
        )) + esc(b));
    }
}

/// Splitting the escaped body at a character.
pub proof fn lemma_esc_split(m: Seq<char>, l: int)
    requires
        0 <= l < m.len(),
    ensures
        esc(m) == esc(m.take(l)) + esc_char(m[l]) + esc(m.skip(l + 1)),
        esc(m.take(l + 1)) == esc(m.take(l)) + esc_char(m[l]),
{
    assert(m.take(l + 1) =~= m.take(l) + seq![m[l]]);
    lemma_esc_concat(m.take(l), seq![m[l]]);
    assert(seq![m[l]].drop_first() =~= Seq::<char>::empty());
    assert(esc(Seq::<char>::empty()) == Seq::<char>::empty());
    assert(esc(seq![m[l]]) == esc_char(seq![m[l]][0]) + esc(seq![m[l]].drop_first()));
    assert(seq![m[l]][0] == m[l]);
    assert(esc_char(m[l]) + Seq::<char>::empty() =~= esc_char(m[l]));
    assert(esc(seq![m[l]]) =~= esc_char(m[l]));
    assert(m =~= m.take(l + 1) + m.skip(l + 1));
    lemma_esc_concat(m.take(l + 1), m.skip(l + 1));
}

/// The first character of an escaped form is never a quote, and an escape
/// form is never empty.
pub proof fn lemma_esc_char_first(c: char)
    ensures
        esc_char(c).len() >= 1,
        esc_char(c)[0] != '"',
        esc_char(c)[0] == '\\' || esc_char(c) == seq![c],
{
}

/// Appends the canonical JSON string form of `m`.
pub fn push_json_string(out: &mut Vec<char>, m: &Vec<char>)
    ensures
        final(out)@ == old(out)@ + json_string(m@),
{
    let ghost base: Seq<char> = out@;
    out.push('"');
    let mut i: usize = 0;
    while i < m.len()
        invariant
            i <= m@.len(),
            out@ == base + seq!['"'] + esc(m@.take(i as int)),
        decreases m@.len() - i,
    {
        let c = m[i];
        if c == '"' {
            out.push('\\');
            out.push('"');
        } else if c == '\\' {
            out.push('\\');
            out.push('\\');
        } else {
            out.push(c);
        }
        proof {
            lemma_esc_split(m@.take(i + 1), i as int);
            assert(m@.take(i + 1).take(i as int) =~= m@.take(i as int));
            assert(m@.take(i + 1)[i as int] == m@[i as int]);
            assert(out@ =~= base + seq!['"'] + esc(m@.take(i + 1)));
        }
        i = i + 1;
    }
    out.push('"');
    proof {
        assert(m@.take(m@.len() as int) =~= m@);
        assert(out@ =~= base + json_string(m@));
    }
}

/// Appends the canonical JSON form of a signed integer.
pub fn push_json_isize(out: &mut Vec<char>, v: isize)
    ensures
        final(out)@ == old(out)@ + json_int(v as int),
{
    if v < 0 {
        out.push('-');
        let mag: u128 = (-(v as i128)) as u128;
        push_u128(out, mag);
        proof {
            assert(out@ =~= old(out)@ + json_int(v as int));
        }
    } else {
        push_u128(out, v as u128);
    }
}

/// An integer in canonical form stands at `pos`, followed by a non-digit or
/// the end.
pub open spec fn int_at(s: Seq<char>, pos: int, i: int) -> bool {
    if i >= 0 {
        dec_at(s, pos, i as nat)
    } else {
        &&& 0 <= pos < s.len()
        &&& s[pos] == '-'
        &&& dec_at(s, pos + 1, (-i) as nat)
    }
}

/// Reads a signed integer within the `isize` range. On the canonical form of
/// any such integer it succeeds with exactly that value.
pub fn parse_json_isize(s: &Vec<char>, pos: usize) -> (r: Result<(isize, usize), ()>)
    requires
        pos <= s@.len(),
    ensures
        r matches Ok(t) ==> pos < t.1 <= s@.len(),
        forall|i: int|
            #![trigger int_at(s@, pos as int, i)]
            isize::MIN <= i <= isize::MAX && int_at(s@, pos as int, i) ==> (r matches Ok(t) && t.0
                == i as isize && t.1 == pos + json_int(i).len()),
{
    if pos < s.len() && s[pos] == '-' {
        match parse_u128(s, pos + 1) {
            Ok((v, p)) => {
                if v <= (isize::MAX as u128) {
                    let x: isize = v as isize;
                    proof {
                        assert forall|i: int|
                            isize::MIN <= i <= isize::MAX && int_at(s@, pos as int, i) implies (i
                            < 0 && -i == v as int && p == pos + json_int(i).len()) by {
                            if i >= 0 {
                                crate::dec::lemma_dec_of_digits(i as nat);
                                assert(s@.subrange(
                                    pos as int,
                                    pos + dec_of(i as nat).len() as int,
                                )[0] == s@[pos as int]);
                            }
                        }
                    }
                    Ok((-x, p))
                } else if v == (isize::MAX as u128) + 1 {
                    proof {
                        assert forall|i: int|
                            isize::MIN <= i <= isize::MAX && int_at(s@, pos as int, i) implies (i
                            == isize::MIN && p == pos + json_int(i).len()) by {
                            if i >= 0 {
                                crate::dec::lemma_dec_of_digits(i as nat);
                                assert(s@.subrange(
                                    pos as int,
                                    pos + dec_of(i as nat).len() as int,
                                )[0] == s@[pos as int]);
                            }
                        }
                    }
                    Ok((isize::MIN, p))
                } else {
                    proof {
                        assert forall|i: int|
                            isize::MIN <= i <= isize::MAX && int_at(s@, pos as int, i)
                            implies false by {
                            if i >= 0 {
                                crate::dec::lemma_dec_of_digits(i as nat);
                                assert(s@.subrange(
                                    pos as int,
                                    pos + dec_of(i as nat).len() as int,
                                )[0] == s@[pos as int]);
                            }
                        }
                    }
                    Err(())
                }
            },
            Err(_) => {
                proof {
                    assert forall|i: int|
                        isize::MIN <= i <= isize::MAX && int_at(s@, pos as int, i) implies false by {
                        if i >= 0 {
                            crate::dec::lemma_dec_of_digits(i as nat);
                            assert(s@.subrange(pos as int, pos + dec_of(i as nat).len() as int)[0]
                                == s@[pos as int]);
                        }
                    }
                }
                Err(())
            },
        }
    } else {
        match parse_u128(s, pos) {
            Ok((v, p)) => {
                if v <= (isize::MAX as u128) {
                    Ok((v as isize, p))
                } else {
                    proof {
                        assert forall|i: int|
                            isize::MIN <= i <= isize::MAX && int_at(s@, pos as int, i)
                            implies false by {}
                    }
                    Err(())
                }
            },
            Err(_) => Err(()),
        }
    }
}

/// Whether `lit` stands at `pos`; on success the position after it.
pub fn expect_lit(s: &Vec<char>, pos: usize, lit: &[char]) -> (r: Result<usize, ()>)
    requires
        pos <= s@.len(),
    ensures
        r matches Ok(p) ==> p == pos + lit@.len() && at(s@, pos as int, lit@),
        at(s@, pos as int, lit@) ==> r == Ok::<usize, ()>((pos + lit@.len()) as usize),
{
    if lit.len() > s.len() - pos {
        return Err(());
    }
    let mut i: usize = 0;
    while i < lit.len()
        invariant
            i <= lit@.len(),
            pos + lit@.len() <= s@.len(),
            s@.len() <= usize::MAX,
            forall|k: int| 0 <= k < i ==> s@[pos + k] == lit@[k],
        decreases lit@.len() - i,
    {
        proof {
            assert(pos + i < s@.len());
        }
        if s[pos + i] != lit[i] {
            proof {
                if at(s@, pos as int, lit@) {
                    assert(s@.subrange(pos as int, pos + lit@.len() as int)[i as int] == lit@[
                    i as int]);
                }
            }
            return Err(());
        }
        i = i + 1;
    }
    proof {
        assert(s@.subrange(pos as int, pos + lit@.len() as int) =~= lit@);
    }
    Ok(pos + lit.len())
}

/// Reads a JSON string starting at `pos`. On the canonical form of any string
/// body it succeeds with exactly that body.
pub fn parse_json_string(s: &Vec<char>, pos: usize) -> (r: Result<(Vec<char>, usize), ()>)
    requires
        pos <= s@.len(),
    ensures
        r matches Ok(t) ==> pos < t.1 <= s@.len(),
        forall|m: Seq<char>|
            at(s@, pos as int, #[trigger] json_string(m)) ==> (r matches Ok(t) && t.0@ == m && t.1
                == pos + json_string(m).len()),
{
    let ghost orig: Seq<char> = s@;
    if pos == s.len() || s[pos] != '"' {
        proof {
            assert forall|m: Seq<char>| at(orig, pos as int, #[trigger] json_string(m))
                implies false by {
                assert(orig.subrange(pos as int, pos + json_string(m).len() as int)[0] == '"');
            }
        }
        return Err(());
    }
    let mut out: Vec<char> = Vec::new();
    let mut cur: usize = pos + 1;
    loop
        invariant
            pos < cur <= s@.len(),
            s@ == orig,
            pos < s@.len() && s@[pos as int] == '"',
            forall|m: Seq<char>|
                at(orig, pos as int, #[trigger] json_string(m)) ==> (out@.len() <= m.len() && out@
                    == m.take(out@.len() as int) && cur == pos + 1 + esc(
                    m.take(out@.len() as int),
                ).len()),
        decreases s@.len() - cur,
    {
        if cur == s.len() {
            proof {
                assert forall|m: Seq<char>| at(orig, pos as int, #[trigger] json_string(m))
                    implies false by {
                    string_inv_facts(orig, pos as int, m, out@.len() as int);
                }
            }
            return Err(());
        }
        let c = s[cur];
        if c == '"' {
            proof {
                assert forall|m: Seq<char>| at(orig, pos as int, #[trigger] json_string(m))
                    implies (out@ == m && cur + 1 == pos + json_string(m).len()) by {
                    string_inv_facts(orig, pos as int, m, out@.len() as int);
                    if out@.len() < m.len() {
                        lemma_esc_char_first(m[out@.len() as int]);
                    }
                    assert(m.take(m.len() as int) =~= m);
                }
            }
            return Ok((out, cur + 1));
        } else if c == '\\' {
            if cur + 1 == s.len() {
                proof {
                    assert forall|m: Seq<char>| at(orig, pos as int, #[trigger] json_string(m))
                        implies false by {
                        string_inv_facts(orig, pos as int, m, out@.len() as int);
                        if out@.len() < m.len() {
                            lemma_esc_char_first(m[out@.len() as int]);
                            assert(esc_char(m[out@.len() as int])[0] == '\\');
                        }
                    }
                }
                return Err(());
            }
            let e = s[cur + 1];
            if e == '"' {
                out.push('"');
                proof {
                    let l = (out@.len() - 1) as int;
                    assert forall|m: Seq<char>| at(orig, pos as int, #[trigger] json_string(m))
                        implies (out@.len() <= m.len() && out@ == m.take(out@.len() as int) && cur
                        + 2 == pos + 1 + esc(m.take(out@.len() as int)).len()) by {
                        two_char_escape_facts(orig, pos as int, m, l, cur as int, '"');
                        assert(out@ =~= m.take(l + 1));
                    }
                }
                cur = cur + 2;
            } else if e == '\\' {
                out.push('\\');
                proof {
                    let l = (out@.len() - 1) as int;
                    assert forall|m: Seq<char>| at(orig, pos as int, #[trigger] json_string(m))
                        implies (out@.len() <= m.len() && out@ == m.take(out@.len() as int) && cur
                        + 2 == pos + 1 + esc(m.take(out@.len() as int)).len()) by {
                        two_char_escape_facts(orig, pos as int, m, l, cur as int, '\\');
                        assert(out@ =~= m.take(l + 1));
                    }
                }
                cur = cur + 2;
            } else {
                proof {
                    assert forall|m: Seq<char>| at(orig, pos as int, #[trigger] json_string(m))
                        implies false by {
                        let l = out@.len() as int;
                        string_inv_facts(orig, pos as int, m, l);
                        if l == m.len() {
                            assert(orig[cur as int] == '"');
                        } else {
                            lemma_esc_char_first(m[l]);
                            if esc_char(m[l]) == seq![m[l]] {
                                assert(orig[cur as int] == esc_char(m[l])[0]);
                            } else {
                                assert(orig[cur + 1] == esc_char(m[l])[1]);
                            }
                        }
                    }
                }
                return Err(());
            }
        } else {
            out.push(c);
            proof {
                let l = (out@.len() - 1) as int;
                assert forall|m: Seq<char>| at(orig, pos as int, #[trigger] json_string(m))
                    implies (out@.len() <= m.len() && out@ == m.take(out@.len() as int) && cur + 1
                    == pos + 1 + esc(m.take(out@.len() as int)).len()) by {
                    string_inv_facts(orig, pos as int, m, l);
                    if l < m.len() {
                        lemma_esc_char_first(m[l]);
                        assert(esc_char(m[l])[0] == orig[cur as int]);
                        assert(esc_char(m[l]) == seq![m[l]]);
                        assert(out@ =~= m.take(l + 1));
                        lemma_esc_split(m.take(l + 1), l);
                        assert(m.take(l + 1).take(l) =~= m.take(l));
                        assert(m.take(l + 1)[l] == m[l]);
                    }
                }
            }
            cur = cur + 1;
        }
    }
}

/// The characters that stand at the cursor, read off the premise that a JSON
/// string form stands at `pos` and `l` body characters were consumed.
proof fn string_inv_facts(s: Seq<char>, pos: int, m: Seq<char>, l: int)
    requires
        at(s, pos, json_string(m)),
        0 <= l <= m.len(),
    ensures
        pos + 1 + esc(m).len() < s.len() || pos + 1 + esc(m).len() == s.len() - 1,
        esc(m.take(l)).len() <= esc(m).len(),
        l < m.len() ==> forall|j: int|
            0 <= j < esc_char(m[l]).len() ==> s[pos + 1 + esc(m.take(l)).len() + j]
                == esc_char(m[l])[j],
        l < m.len() ==> pos + 1 + esc(m.take(l)).len() + esc_char(m[l]).len() <= pos + 1 + esc(
            m,
        ).len(),
        l == m.len() ==> s[pos + 1 + esc(m.take(l)).len()] == '"',
        l == m.len() ==> pos + 1 + esc(m.take(l)).len() + 1 == pos + json_string(m).len(),
        pos + json_string(m).len() <= s.len(),
{
    let js = json_string(m);
    assert forall|k: int| 0 <= k < js.len() implies s[pos + k] == js[k] by {
        assert(s.subrange(pos, pos + js.len() as int)[k] == js[k]);
    }
    if l < m.len() {
        lemma_esc_split(m, l);
        assert forall|j: int| 0 <= j < esc_char(m[l]).len() implies s[pos + 1 + esc(m.take(l)).len()
            + j] == esc_char(m[l])[j] by {
            let k = 1 + esc(m.take(l)).len() + j;
            assert(js[k] == (seq!['"'] + esc(m) + seq!['"'])[k]);
            assert(esc(m)[esc(m.take(l)).len() + j] == (esc(m.take(l)) + esc_char(m[l]) + esc(
                m.skip(l + 1),
            ))[esc(m.take(l)).len() + j]);
        }
    } else {
        assert(m.take(l) =~= m);
        assert(js[1 + esc(m).len() as int] == '"');
    }
}

/// In a two-character escape branch: the consumed character.
proof fn two_char_escape_facts(s: Seq<char>, pos: int, m: Seq<char>, l: int, cur: int, which: char)
    requires
        at(s, pos, json_string(m)),
        0 <= l <= m.len(),
        cur == pos + 1 + esc(m.take(l)).len(),
        cur < s.len(),
        s[cur] == '\\',
        cur + 1 < s.len(),
        s[cur + 1] == which,
        which == '"' || which == '\\',
    ensures
        l < m.len(),
        m[l] == which,
        esc_char(m[l]).len() == 2,
        esc(m.take(l + 1)) == esc(m.take(l)) + esc_char(m[l]),
{
    string_inv_facts(s, pos, m, l);
    if l == m.len() {
        assert(s[cur] == '"');
        assert(false);
    }
    lemma_esc_char_first(m[l]);
    if esc_char(m[l]) == seq![m[l]] {
        assert(s[cur] == esc_char(m[l])[0]);
        assert(false);
    }
    assert(s[cur + 1] == esc_char(m[l])[1]);
    if (m[l] as u32) < 32 && m[l] != '"' && m[l] != '\\' {
        assert(esc_char(m[l])[1] == 'u');
        assert(false);
    }
    lemma_esc_split(m, l);
}

} // verus!
