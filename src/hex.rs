//! Hexadecimal: each byte becomes two lowercase hex digits.

use vstd::prelude::*;
use crate::CodecError;
use crate::text::{chars_of, push_char};

verus! {

/// The lowercase hex digit for a value below sixteen.
pub open spec fn hex_digit(v: nat) -> char {
    if v < 10 {
        ('0' as nat + v) as char
    } else {
        ('a' as nat + (v - 10)) as char
    }
}

/// The hex text of `b`: for each byte its high digit, then its low digit.
pub open spec fn encoded(b: Seq<u8>) -> Seq<char> {
    Seq::new(
        2 * b.len(),
        |k: int|
            if k % 2 == 0 {
                hex_digit(b[k / 2] as nat / 16)
            } else {
                hex_digit(b[k / 2] as nat % 16)
            },
    )
}

/// The value of a hex digit, in either case; `None` for any other character.
pub open spec fn digit_value(c: char) -> Option<nat> {
    if '0' <= c <= '9' {
        Some((c as nat - '0' as nat) as nat)
    } else if 'a' <= c <= 'f' {
        Some((c as nat - 'a' as nat + 10) as nat)
    } else if 'A' <= c <= 'F' {
        Some((c as nat - 'A' as nat + 10) as nat)
    } else {
        None
    }
}

/// The bytes that hex text `s` stands for: refused when its length is odd,
/// else when a character is no hex digit.
pub open spec fn decoded(s: Seq<char>) -> Result<Seq<u8>, CodecError> {
    if s.len() % 2 != 0 {
        Err(CodecError::MalformedGrouping)
    } else if exists|i: int| 0 <= i < s.len() && #[trigger] digit_value(s[i]) is None {
        Err(CodecError::InvalidSymbol)
    } else {
        Ok(
            Seq::new(
                s.len() / 2,
                |k: int| (digit_value(s[2 * k])->0 * 16 + digit_value(s[2 * k + 1])->0) as u8,
            ),
        )
    }
}

fn digit_of(v: u8) -> (c: char)
    requires
        v < 16,
    ensures
        c == hex_digit(v as nat),
{
    if v < 10 {
        (48 + v) as char
    } else {
        (97 + (v - 10)) as char
    }
}

fn value_of(c: char) -> (r: Option<u8>)
    ensures
        r is Some <==> digit_value(c) is Some,
        r matches Some(v) ==> v as nat == digit_value(c)->0 && v < 16,
{
    if '0' <= c && c <= '9' {
        Some((c as u32 - 48) as u8)
    } else if 'a' <= c && c <= 'f' {
        Some((c as u32 - 87) as u8)
    } else if 'A' <= c && c <= 'F' {
        Some((c as u32 - 55) as u8)
    } else {
        None
    }
}

/// Encodes `data` as lowercase hex text, two digits per byte.
pub fn encode(data: &[u8]) -> (r: String)
    ensures
        r@ == encoded(data@),
        r@.len() == 2 * data@.len(),
{
    let mut out = String::new();
    let mut i: usize = 0;
    while i < data.len()
        invariant
            i <= data@.len(),
            out@.len() == 2 * i,
            forall|k: int| 0 <= k < out@.len() ==> out@[k] == #[trigger] encoded(data@)[k],
        decreases data@.len() - i,
    {
        let b = data[i];
        proof {
            let k = 2 * i as int;
            assert(k / 2 == i && k % 2 == 0 && (k + 1) / 2 == i && (k + 1) % 2 == 1);
        }
        push_char(&mut out, digit_of(b / 16));
        push_char(&mut out, digit_of(b % 16));
        i = i + 1;
    }
    proof {
        assert(out@ =~= encoded(data@));
    }
    out
}

/// Decodes hex text, digits in either case, two per byte.
pub fn decode(data: &str) -> (r: Result<Vec<u8>, CodecError>)
    ensures
        match r {
            Ok(v) => decoded(data@) == Ok::<Seq<u8>, CodecError>(v@),
            Err(e) => decoded(data@) == Err::<Seq<u8>, CodecError>(e),
        },
{
    let s = chars_of(data);
    if s.len() % 2 != 0 {
        return Err(CodecError::MalformedGrouping);
    }
    let mut out: Vec<u8> = Vec::new();
    let mut i: usize = 0;
    while i < s.len()
        invariant
            s@ == data@,
            s@.len() % 2 == 0,
            i % 2 == 0,
            i <= s@.len(),
            out@.len() == i / 2,
            forall|j: int| 0 <= j < i ==> #[trigger] digit_value(s@[j]) is Some,
            forall|k: int|
                0 <= k < out@.len() ==> out@[k] == (digit_value(s@[2 * k])->0 * 16
                    + digit_value(s@[2 * k + 1])->0) as u8,
        decreases s@.len() - i,
    {
        let hi = value_of(s[i]);
        let lo = value_of(s[i + 1]);
        match (hi, lo) {
            (Some(h), Some(l)) => {
                out.push(h * 16 + l);
            },
            _ => {
                proof {
                    if hi is None {
                        assert(digit_value(s@[i as int]) is None);
                    } else {
                        assert(digit_value(s@[i + 1]) is None);
                    }
                }
                return Err(CodecError::InvalidSymbol);
            },
        }
        i = i + 2;
    }
    proof {
        assert(!exists|j: int| 0 <= j < s@.len() && #[trigger] digit_value(s@[j]) is None);
        assert(out@ =~= Seq::new(
            s@.len() / 2,
            |k: int| (digit_value(s@[2 * k])->0 * 16 + digit_value(s@[2 * k + 1])->0) as u8,
        ));
    }
    Ok(out)
}

/// Decoding the hex text of any bytes gives those bytes back.
pub proof fn lemma_round_trip(b: Seq<u8>)
    ensures
        decoded(encoded(b)) == Ok::<Seq<u8>, CodecError>(b),
{
    let e = encoded(b);
    assert forall|k: int| 0 <= k < e.len() implies #[trigger] digit_value(e[k]) == Some(
        if k % 2 == 0 { b[k / 2] as nat / 16 } else { b[k / 2] as nat % 16 },
    ) by {}
    assert(!exists|j: int| 0 <= j < e.len() && #[trigger] digit_value(e[j]) is None) by {
        assert forall|j: int| 0 <= j < e.len() implies #[trigger] digit_value(e[j]) is Some by {
            assert(digit_value(e[j]) == Some(
                if j % 2 == 0 { b[j / 2] as nat / 16 } else { b[j / 2] as nat % 16 },
            ));
        }
    }
    let d = Seq::new(
        e.len() / 2,
        |k: int| (digit_value(e[2 * k])->0 * 16 + digit_value(e[2 * k + 1])->0) as u8,
    );
    assert forall|k: int| 0 <= k < b.len() implies d[k] == b[k] by {
        let j = 2 * k;
        assert(j / 2 == k && j % 2 == 0 && (j + 1) / 2 == k && (j + 1) % 2 == 1);
        assert(digit_value(e[j]) == Some(b[k] as nat / 16));
        assert(digit_value(e[j + 1]) == Some(b[k] as nat % 16));
    }
    assert(d =~= b);
}

} // verus!
