//! Bytes written as numerals in a small base (two or ten), one token per
//! byte, and such tokens read back.

use vstd::prelude::*;
use crate::CodecError;
use crate::text::{chars_of, latin1_char, push_char};

verus! {

/// The digit character for a value below ten.
pub open spec fn digit_char(d: nat) -> char {
    ('0' as nat + d) as char
}

/// The numeral of `n` in `base`, most significant digit first, without
/// leading zeros (zero is the single digit `0`).
pub open spec fn numeral(n: nat, base: nat) -> Seq<char>
    decreases n,
{
    if base < 2 {
        seq![]
    } else if n < base {
        seq![digit_char(n)]
    } else {
        proof {
            assert(n / base < n) by (nonlinear_arith)
                requires
                    2 <= base,
                    base <= n,
            ;
        }
        numeral(n / base, base).push(digit_char(n % base))
    }
}

proof fn proof_numeral_decreases(n: nat, base: nat)
    requires
        2 <= base,
        base <= n,
    ensures
        n / base < n,
{
    assert(n / base < n) by (nonlinear_arith)
        requires
            2 <= base,
            base <= n,
    ;
}

/// What stands between two tokens: one space, or nothing.
pub open spec fn separator(spaced: bool) -> Seq<char> {
    if spaced {
        seq![' ']
    } else {
        seq![]
    }
}

/// The numerals of the bytes of `b`, in order, with `separator(spaced)`
/// between each two.
pub open spec fn joined(b: Seq<u8>, base: nat, spaced: bool) -> Seq<char>
    decreases b.len(),
{
    if b.len() == 0 {
        seq![]
    } else if b.len() == 1 {
        numeral(b[0] as nat, base)
    } else {
        joined(b.drop_last(), base, spaced) + separator(spaced) + numeral(b.last() as nat, base)
    }
}

fn push_numeral(out: &mut String, n: u8, base: u8)
    requires
        2 <= base <= 10,
    ensures
        final(out)@ == old(out)@ + numeral(n as nat, base as nat),
    decreases n,
{
    if n >= base {
        proof {
            proof_numeral_decreases(n as nat, base as nat);
        }
        push_numeral(out, n / base, base);
    }
    let d: u8 = n % base;
    let c = (48 + d) as char;
    assert(c == digit_char(d as nat));
    push_char(out, c);
    proof {
        if n >= base {
            assert(numeral(n as nat, base as nat) == numeral((n / base) as nat, base as nat).push(
                digit_char(d as nat),
            ));
        } else {
            assert(d == n) by (nonlinear_arith)
                requires
                    d == n % base,
                    n < base,
            ;
        }
        assert(out@ =~= old(out)@ + numeral(n as nat, base as nat));
    }
}

/// Writes each byte of `data` as its numeral in `base`, with one space between
/// two tokens when `spaced`, else none.
pub fn encode_numerals(data: &[u8], base: u8, spaced: bool) -> (r: String)
    requires
        2 <= base <= 10,
    ensures
        r@ == joined(data@, base as nat, spaced),
{
    let mut out = String::new();
    let mut i: usize = 0;
    while i < data.len()
        invariant
            2 <= base <= 10,
            i <= data@.len(),
            out@ == joined(data@.subrange(0, i as int), base as nat, spaced),
        decreases data@.len() - i,
    {
        let ghost before = out@;
        if i > 0 && spaced {
            push_char(&mut out, ' ');
        }
        push_numeral(&mut out, data[i], base);
        proof {
            let next = data@.subrange(0, i + 1);
            assert(next.drop_last() =~= data@.subrange(0, i as int));
            assert(next.last() == data@[i as int]);
            if i > 0 {
                assert(out@ =~= before + separator(spaced) + numeral(data@[i as int] as nat, base as nat));
            } else {
                assert(before =~= seq![]);
                assert(out@ =~= numeral(data@[i as int] as nat, base as nat));
            }
        }
        i = i + 1;
    }
    proof {
        assert(data@.subrange(0, data@.len() as int) =~= data@);
    }
    out
}

/// `s` cut at every space: `k` spaces give `k + 1` tokens, some of them
/// perhaps empty.
pub open spec fn tokens(s: Seq<char>) -> Seq<Seq<char>>
    decreases s.len(),
{
    if s.len() == 0 {
        seq![seq![]]
    } else {
        let front = tokens(s.drop_last());
        if s.last() == ' ' {
            front.push(seq![])
        } else {
            front.update(front.len() - 1, front.last().push(s.last()))
        }
    }
}

/// The value of `c` as a digit of `base`, if it is one (`'0'` is code point 48).
pub open spec fn digit_value(c: char, base: nat) -> Option<nat> {
    if 48 <= c as u32 && (c as u32) < 48 + base {
        Some((c as u32 - 48) as nat)
    } else {
        None
    }
}

/// Every character of `t` is a digit of `base`.
pub open spec fn all_digits(t: Seq<char>, base: nat) -> bool {
    forall|i: int| 0 <= i < t.len() ==> #[trigger] digit_value(t[i], base) is Some
}

/// The number that the digits of `t` write in `base`.
pub open spec fn token_value(t: Seq<char>, base: nat) -> nat
    decreases t.len(),
{
    if t.len() == 0 {
        0
    } else {
        token_value(t.drop_last(), base) * base + digit_value(t.last(), base)->0
    }
}

/// A token that stands for one byte: digits of `base` only, at least one, and
/// a value of at most 255.
pub open spec fn valid_token(t: Seq<char>, base: nat) -> bool {
    &&& t.len() > 0
    &&& all_digits(t, base)
    &&& token_value(t, base) <= 255
}

/// What reading the tokens of `s` in `base` gives: for each token the
/// character whose code point is its value, or `InvalidSymbol` when any token
/// is not valid.
pub open spec fn decoded(s: Seq<char>, base: nat) -> Result<Seq<char>, CodecError> {
    if forall|j: int| 0 <= j < tokens(s).len() ==> valid_token(#[trigger] tokens(s)[j], base) {
        Ok(Seq::new(tokens(s).len(), |j: int| (token_value(tokens(s)[j], base) as u8) as char))
    } else {
        Err(CodecError::InvalidSymbol)
    }
}

/// Reads space-separated numerals in `base`, each one byte, and gives the
/// characters whose code points are those bytes.
pub fn decode_numerals(data: &str, base: u8) -> (r: Result<String, CodecError>)
    requires
        2 <= base <= 10,
    ensures
        match r {
            Ok(s) => decoded(data@, base as nat) == Ok::<Seq<char>, CodecError>(s@),
            Err(e) => decoded(data@, base as nat) == Err::<Seq<char>, CodecError>(e),
        },
{
    let s = chars_of(data);
    let ghost b = base as nat;
    let mut out = String::new();
    let mut ok = true;
    let mut cur_nonempty = false;
    let mut cur_digits = true;
    let mut cur_cap: u16 = 0;
    let mut i: usize = 0;
    proof {
        assert(s@.subrange(0, 0) =~= Seq::<char>::empty());
    }
    while i < s.len()
        invariant
            2 <= base <= 10,
            b == base as nat,
            s@ == data@,
            i <= s@.len(),
            tokens(s@.subrange(0, i as int)).len() >= 1,
            ok <==> forall|j: int|
                0 <= j < tokens(s@.subrange(0, i as int)).len() - 1 ==> valid_token(
                    #[trigger] tokens(s@.subrange(0, i as int))[j],
                    b,
                ),
            ok ==> out@ == Seq::new(
                (tokens(s@.subrange(0, i as int)).len() - 1) as nat,
                |j: int| (token_value(tokens(s@.subrange(0, i as int))[j], b) as u8) as char,
            ),
            cur_nonempty == (tokens(s@.subrange(0, i as int)).last().len() > 0),
            cur_digits == all_digits(tokens(s@.subrange(0, i as int)).last(), b),
            cur_digits ==> cur_cap as nat == if token_value(
                tokens(s@.subrange(0, i as int)).last(),
                b,
            ) < 256 {
                token_value(tokens(s@.subrange(0, i as int)).last(), b)
            } else {
                256
            },
        decreases s@.len() - i,
    {
        let c = s[i];
        let ghost prefix = s@.subrange(0, i as int);
        let ghost p = tokens(prefix);
        let ghost next = s@.subrange(0, i + 1);
        proof {
            assert(next.drop_last() =~= prefix);
            assert(next.last() == c);
        }
        if c == ' ' {
            let valid = cur_nonempty && cur_digits && cur_cap <= 255;
            proof {
                assert(tokens(next) == p.push(seq![]));
                assert(valid == valid_token(p.last(), b));
                assert forall|j: int| 0 <= j < p.len() implies tokens(next)[j] == p[j] by {}
            }
            if ok && valid {
                let ch = latin1_char(cur_cap as u8);
                push_char(&mut out, ch);
                proof {
                    assert(out@ =~= Seq::new(
                        (tokens(next).len() - 1) as nat,
                        |j: int| (token_value(tokens(next)[j], b) as u8) as char,
                    ));
                }
            } else {
                ok = false;
                proof {
                    if !valid {
                        assert(!valid_token(tokens(next)[p.len() - 1], b));
                    }
                }
            }
            cur_nonempty = false;
            cur_digits = true;
            cur_cap = 0;
            proof {
                assert(all_digits(tokens(next).last(), b));
            }
        } else {
            let ghost last = p.last();
            proof {
                assert(tokens(next) == p.update(p.len() - 1, last.push(c)));
                assert(last.push(c).drop_last() =~= last);
                assert forall|j: int| 0 <= j < p.len() - 1 implies tokens(next)[j] == p[j] by {}
                assert(all_digits(last.push(c), b) == (all_digits(last, b) && digit_value(c, b) is Some)) by {
                    if all_digits(last, b) && digit_value(c, b) is Some {
                        assert forall|k: int| 0 <= k < last.push(c).len() implies
                            #[trigger] digit_value(last.push(c)[k], b) is Some by {
                            if k < last.len() {
                                assert(last.push(c)[k] == last[k]);
                            }
                        }
                    }
                    if all_digits(last.push(c), b) {
                        assert forall|k: int| 0 <= k < last.len() implies
                            #[trigger] digit_value(last[k], b) is Some by {
                            assert(last.push(c)[k] == last[k]);
                        }
                        assert(last.push(c)[last.len() as int] == c);
                    }
                }
            }
            cur_nonempty = true;
            let code = c as u32;
            if 48 <= code && code < 48 + base as u32 {
                let d: u16 = (code - 48) as u16;
                if cur_digits {
                    let ghost v = token_value(last, b);
                    proof {
                        assert(digit_value(c, b) == Some(d as nat));
                        assert(token_value(last.push(c), b) == v * b + d);
                    }
                    if cur_cap >= 256 {
                        proof {
                            assert(v * b + d >= 256) by (nonlinear_arith)
                                requires
                                    v >= 256,
                                    b >= 2,
                            ;
                        }
                    } else {
                        proof {
                            assert(cur_cap * base + d <= 2559) by (nonlinear_arith)
                                requires
                                    cur_cap < 256,
                                    base <= 10,
                                    d < 10,
                            ;
                        }
                        let grown: u16 = cur_cap * base as u16 + d;
                        cur_cap = if grown > 256 { 256 } else { grown };
                    }
                }
            } else {
                cur_digits = false;
            }
        }
        i = i + 1;
    }
    let ghost p = tokens(s@.subrange(0, i as int));
    proof {
        assert(s@.subrange(0, i as int) =~= data@);
    }
    let valid = cur_nonempty && cur_digits && cur_cap <= 255;
    assert(valid == valid_token(p.last(), b));
    if ok && valid {
        let ch = latin1_char(cur_cap as u8);
        push_char(&mut out, ch);
        proof {
            assert forall|j: int| 0 <= j < p.len() implies valid_token(#[trigger] p[j], b) by {}
            assert(out@ =~= Seq::new(p.len(), |j: int| (token_value(p[j], b) as u8) as char));
        }
        Ok(out)
    } else {
        proof {
            if !ok {
                let j = choose|j: int| 0 <= j < p.len() - 1 && !valid_token(#[trigger] p[j], b);
                assert(!valid_token(p[j], b));
            } else {
                assert(!valid_token(p[p.len() - 1], b));
            }
        }
        Err(CodecError::InvalidSymbol)
    }
}

/// A token with a character that is no digit of the base, or with a value
/// above 255, gets the whole text refused as `InvalidSymbol`.
pub proof fn lemma_bad_token_rejected(s: Seq<char>, base: nat, j: int)
    requires
        2 <= base <= 10,
        0 <= j < tokens(s).len(),
        !all_digits(tokens(s)[j], base) || token_value(tokens(s)[j], base) > 255,
    ensures
        decoded(s, base) == Err::<Seq<char>, CodecError>(CodecError::InvalidSymbol),
{
    assert(!valid_token(tokens(s)[j], base));
}

} // verus!
