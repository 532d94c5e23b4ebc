//! Base64: three bytes become four symbols of a 64-character alphabet, with
//! `=` filling the positions of a short final group.

use vstd::prelude::*;
use vstd::utf8::{decode_utf8, encode_utf8, is_ascii_chars, valid_utf8};
use crate::CodecError;
use crate::text::{push_char, string_from_utf8};

verus! {

/// The symbol for a 6-bit value: `A`-`Z`, `a`-`z`, `0`-`9`, `+`, `/`.
pub open spec fn symbol(v: nat) -> char {
    if v < 26 {
        ('A' as nat + v) as char
    } else if v < 52 {
        ('a' as nat + (v - 26)) as char
    } else if v < 62 {
        ('0' as nat + (v - 52)) as char
    } else if v == 62 {
        '+'
    } else {
        '/'
    }
}

/// The byte at `i`, or zero past the end.
pub open spec fn byte_or_zero(b: Seq<u8>, i: int) -> nat {
    if 0 <= i < b.len() { b[i] as nat } else { 0 }
}

/// The 24-bit value of group `g`: bytes `3g`, `3g+1`, `3g+2`, missing ones as zero.
pub open spec fn group_value(b: Seq<u8>, g: int) -> nat {
    byte_or_zero(b, 3 * g) * 65536 + byte_or_zero(b, 3 * g + 1) * 256 + byte_or_zero(b, 3 * g + 2)
}

/// Six bits of a 24-bit value, slice `p` counted from the most significant.
pub open spec fn sextet(v: nat, p: int) -> nat {
    if p == 0 {
        v / 262144
    } else if p == 1 {
        (v / 4096) % 64
    } else if p == 2 {
        (v / 64) % 64
    } else {
        v % 64
    }
}

/// Number of symbols that encoding `n` bytes yields: `4 * ceil(n / 3)`.
pub open spec fn encoded_len(n: nat) -> nat {
    4 * ((n + 2) / 3)
}

/// Symbol `k` of the encoding of `b`: a padding `=` where the position lies past
/// the bytes that the group holds, else the alphabet symbol of its sextet.
pub open spec fn encoded_symbol(b: Seq<u8>, k: int) -> char {
    let g = k / 4;
    let p = k % 4;
    if 3 * g + p > b.len() {
        '='
    } else {
        symbol(sextet(group_value(b, g), p))
    }
}

/// The Base64 text of `b`.
pub open spec fn encoded(b: Seq<u8>) -> Seq<char> {
    Seq::new(encoded_len(b.len()), |k: int| encoded_symbol(b, k))
}

fn symbol_of(v: u8) -> (c: char)
    requires
        v < 64,
    ensures
        c == symbol(v as nat),
{
    if v < 26 {
        (65 + v) as char
    } else if v < 52 {
        (97 + (v - 26)) as char
    } else if v < 62 {
        (48 + (v - 52)) as char
    } else if v == 62 {
        '+'
    } else {
        '/'
    }
}

proof fn lemma_sextets(a: u8, b: u8, c: u8)
    ensures
        (a >> 2) as nat == sextet(a as nat * 65536 + b as nat * 256 + c as nat, 0),
        (((a & 3) << 4) | (b >> 4)) as nat == sextet(a as nat * 65536 + b as nat * 256 + c as nat, 1),
        (((b & 15) << 2) | (c >> 6)) as nat == sextet(a as nat * 65536 + b as nat * 256 + c as nat, 2),
        (c & 63) as nat == sextet(a as nat * 65536 + b as nat * 256 + c as nat, 3),
{
    let v: u32 = (a as u32 * 65536 + b as u32 * 256 + c as u32) as u32;
    assert(v == a as nat * 65536 + b as nat * 256 + c as nat);
    assert((a >> 2) as u32 == v / 262144) by (bit_vector)
        requires v == a as u32 * 65536 + b as u32 * 256 + c as u32;
    assert((((a & 3) << 4) | (b >> 4)) as u32 == (v / 4096) % 64) by (bit_vector)
        requires v == a as u32 * 65536 + b as u32 * 256 + c as u32;
    assert((((b & 15) << 2) | (c >> 6)) as u32 == (v / 64) % 64) by (bit_vector)
        requires v == a as u32 * 65536 + b as u32 * 256 + c as u32;
    assert((c & 63) as u32 == v % 64) by (bit_vector)
        requires v == a as u32 * 65536 + b as u32 * 256 + c as u32;
}

/// Encodes `input` as Base64 text, padded with `=` to a multiple of four symbols.
pub fn encode(input: &[u8]) -> (r: String)
    ensures
        r@ == encoded(input@),
        r@.len() == encoded_len(input@.len()),
        input@.len() > 0 ==> r@.len() > 0 && r@.len() % 4 == 0,
{
    let n = input.len();
    let mut out = String::new();
    let mut i: usize = 0;
    while i < n
        invariant
            i <= n + 2,
            i % 3 == 0,
            n == input@.len(),
            i < n + 3,
            out@.len() == 4 * (i / 3),
            forall|k: int| 0 <= k < out@.len() ==> out@[k] == encoded_symbol(input@, k),
        decreases n + 3 - i,
    {
        let a: u8 = input[i];
        let b: u8 = if i + 1 < n { input[i + 1] } else { 0 };
        let c: u8 = if i + 2 < n { input[i + 2] } else { 0 };
        let ghost g: int = (i / 3) as int;
        proof {
            lemma_sextets(a, b, c);
            assert(group_value(input@, g) == a as nat * 65536 + b as nat * 256 + c as nat);
        }
        let s: [u8; 4] = [a >> 2, ((a & 3) << 4) | (b >> 4), ((b & 15) << 2) | (c >> 6), c & 63];
        let mut p: usize = 0;
        while p < 4
            invariant
                p <= 4,
                i < n,
                i % 3 == 0,
                n == input@.len(),
                g == i / 3,
                group_value(input@, g) == a as nat * 65536 + b as nat * 256 + c as nat,
                forall|q: int| 0 <= q < 4 ==> s[q] as nat == sextet(group_value(input@, g), q),
                out@.len() == 4 * g + p,
                forall|k: int| 0 <= k < out@.len() ==> out@[k] == encoded_symbol(input@, k),
            decreases 4 - p,
        {
            let sym = if i + p > n {
                '='
            } else {
                assert(s[p as int] < 64) by {
                    assert(sextet(group_value(input@, g), p as int) < 64);
                }
                symbol_of(s[p])
            };
            proof {
                let k = 4 * g + p;
                assert(k / 4 == g && k % 4 == p as int);
            }
            push_char(&mut out, sym);
            p = p + 1;
        }
        i = i + 3;
    }
    proof {
        assert(out@.len() == encoded_len(n as nat));
        assert(out@ =~= encoded(input@));
    }
    out
}

/// The 6-bit value that a byte of Base64 text stands for: its place in the
/// alphabet. Any other byte, the padding `=` among them, reads as zero.
pub open spec fn symbol_value(c: u8) -> nat {
    if 65 <= c <= 90 {
        (c - 65) as nat
    } else if 97 <= c <= 122 {
        (c - 71) as nat
    } else if 48 <= c <= 57 {
        (c + 4) as nat
    } else if c == 43 {
        62
    } else if c == 47 {
        63
    } else {
        0
    }
}

/// The 24-bit value of the four symbols of group `g` of `t`.
pub open spec fn text_group_value(t: Seq<u8>, g: int) -> nat {
    symbol_value(t[4 * g]) * 262144 + symbol_value(t[4 * g + 1]) * 4096
        + symbol_value(t[4 * g + 2]) * 64 + symbol_value(t[4 * g + 3])
}

/// Byte `p` (0, 1 or 2, most significant first) of a 24-bit value.
pub open spec fn byte_of(v: nat, p: int) -> u8 {
    (if p == 0 {
        v / 65536
    } else if p == 1 {
        (v / 256) % 256
    } else {
        v % 256
    }) as u8
}

/// Byte `k` of the groups of `t` turned back into bytes: byte `k % 3` of group `k / 3`.
#[verifier::opaque]
pub open spec fn decoded_byte(t: Seq<u8>, k: int) -> u8 {
    byte_of(text_group_value(t, k / 3), k % 3)
}

/// Every group of `t` turned back into three bytes, before zero bytes are dropped.
pub open spec fn decoded_groups(t: Seq<u8>) -> Seq<u8> {
    Seq::new(3 * (t.len() / 4), |k: int| decoded_byte(t, k))
}

/// `b` with every zero byte left out.
pub open spec fn without_zeros(b: Seq<u8>) -> Seq<u8>
    decreases b.len(),
{
    if b.len() == 0 {
        b
    } else if b.last() == 0 {
        without_zeros(b.drop_last())
    } else {
        without_zeros(b.drop_last()).push(b.last())
    }
}

/// The bytes that Base64 text `t` decodes to: refused unless it splits into
/// groups of four; zero bytes, the padding's among them, are dropped.
pub open spec fn decoded_bytes(t: Seq<u8>) -> Result<Seq<u8>, CodecError> {
    if t.len() % 4 != 0 {
        Err(CodecError::MalformedGrouping)
    } else {
        Ok(without_zeros(decoded_groups(t)))
    }
}

/// The text that Base64 text `t` decodes to: its decoded bytes read as UTF-8.
pub open spec fn decoded_text(t: Seq<u8>) -> Result<Seq<char>, CodecError> {
    match decoded_bytes(t) {
        Err(e) => Err(e),
        Ok(b) => if valid_utf8(b) {
            Ok(decode_utf8(b))
        } else {
            Err(CodecError::InvalidTextSequence)
        },
    }
}

fn symbol_value_of(c: u8) -> (v: u8)
    ensures
        v as nat == symbol_value(c),
        v < 64,
{
    if 65 <= c && c <= 90 {
        c - 65
    } else if 97 <= c && c <= 122 {
        c - 71
    } else if 48 <= c && c <= 57 {
        c + 4
    } else if c == 43 {
        62
    } else if c == 47 {
        63
    } else {
        0
    }
}

proof fn lemma_unpack(a: u8, b: u8, c: u8, d: u8)
    requires
        a < 64,
        b < 64,
        c < 64,
        d < 64,
    ensures
        ((a << 2) | ((b & 0x30) >> 4)) == byte_of(a as nat * 262144 + b as nat * 4096 + c as nat * 64 + d as nat, 0),
        (((b & 0x0f) << 4) | ((c & 0x3c) >> 2)) == byte_of(a as nat * 262144 + b as nat * 4096 + c as nat * 64 + d as nat, 1),
        (((c & 0x03) << 6) | d) == byte_of(a as nat * 262144 + b as nat * 4096 + c as nat * 64 + d as nat, 2),
{
    let v: u32 = (a as u32 * 262144 + b as u32 * 4096 + c as u32 * 64 + d as u32) as u32;
    assert(v == a as nat * 262144 + b as nat * 4096 + c as nat * 64 + d as nat);
    assert(((a << 2) | ((b & 0x30) >> 4)) == (v / 65536) as u8) by (bit_vector)
        requires
            v == a as u32 * 262144 + b as u32 * 4096 + c as u32 * 64 + d as u32,
            a < 64, b < 64, c < 64, d < 64,
    ;
    assert((((b & 0x0f) << 4) | ((c & 0x3c) >> 2)) == ((v / 256) % 256) as u8) by (bit_vector)
        requires
            v == a as u32 * 262144 + b as u32 * 4096 + c as u32 * 64 + d as u32,
            a < 64, b < 64, c < 64, d < 64,
    ;
    assert((((c & 0x03) << 6) | d) == (v % 256) as u8) by (bit_vector)
        requires
            v == a as u32 * 262144 + b as u32 * 4096 + c as u32 * 64 + d as u32,
            a < 64, b < 64, c < 64, d < 64,
    ;
}

proof fn lemma_without_zeros_push(b: Seq<u8>, x: u8)
    ensures
        without_zeros(b.push(x)) == if x == 0 { without_zeros(b) } else { without_zeros(b).push(x) },
{
    assert(b.push(x).drop_last() =~= b);
}

/// Decodes Base64 text into bytes. Symbols outside the alphabet, `=` among them,
/// count as zero, and every zero byte is left out of the result.
pub fn decode_bytes(input: &[u8]) -> (r: Result<Vec<u8>, CodecError>)
    ensures
        match r {
            Ok(v) => decoded_bytes(input@) == Ok::<Seq<u8>, CodecError>(v@),
            Err(e) => decoded_bytes(input@) == Err::<Seq<u8>, CodecError>(e),
        },
        r is Err <==> input@.len() % 4 != 0,
        input@.len() % 4 != 0 ==> r == Err::<Vec<u8>, CodecError>(CodecError::MalformedGrouping),
{
    let n = input.len();
    if n % 4 != 0 {
        return Err(CodecError::MalformedGrouping);
    }
    let ghost t = input@;
    let mut groups: Vec<u8> = Vec::new();
    let mut i: usize = 0;
    while i < n
        invariant
            n == t.len(),
            t == input@,
            n % 4 == 0,
            i % 4 == 0,
            i <= n,
            groups@.len() == 3 * (i / 4),
            forall|k: int| 0 <= k < groups@.len() ==> groups@[k] == decoded_byte(t, k),
        decreases n - i,
    {
        let a = symbol_value_of(input[i]);
        let b = symbol_value_of(input[i + 1]);
        let c = symbol_value_of(input[i + 2]);
        let d = symbol_value_of(input[i + 3]);
        let ghost g: int = (i / 4) as int;
        proof {
            lemma_unpack(a, b, c, d);
            assert(4 * g == i);
            assert(text_group_value(t, g) == a as nat * 262144 + b as nat * 4096 + c as nat * 64 + d as nat);
        }
        groups.push((a << 2) | ((b & 0x30) >> 4));
        groups.push(((b & 0x0f) << 4) | ((c & 0x3c) >> 2));
        groups.push(((c & 0x03) << 6) | d);
        proof {
            reveal(decoded_byte);
            assert((3 * g) / 3 == g && (3 * g) % 3 == 0);
            assert((3 * g + 1) / 3 == g && (3 * g + 1) % 3 == 1);
            assert((3 * g + 2) / 3 == g && (3 * g + 2) % 3 == 2);
        }
        i = i + 4;
    }
    proof {
        assert(groups@ =~= decoded_groups(t));
    }
    let mut out: Vec<u8> = Vec::new();
    let mut j: usize = 0;
    while j < groups.len()
        invariant
            j <= groups@.len(),
            out@ == without_zeros(groups@.subrange(0, j as int)),
        decreases groups@.len() - j,
    {
        let x = groups[j];
        proof {
            assert(groups@.subrange(0, j + 1) =~= groups@.subrange(0, j as int).push(x));
            lemma_without_zeros_push(groups@.subrange(0, j as int), x);
        }
        if x != 0 {
            out.push(x);
        }
        j = j + 1;
    }
    proof {
        assert(groups@.subrange(0, groups@.len() as int) =~= groups@);
    }
    Ok(out)
}

/// Decodes Base64 text into the UTF-8 text that its bytes hold, as
/// `decode_bytes` reads them.
pub fn decode(input: &[u8]) -> (r: Result<String, CodecError>)
    ensures
        match r {
            Ok(s) => decoded_text(input@) == Ok::<Seq<char>, CodecError>(s@),
            Err(e) => decoded_text(input@) == Err::<Seq<char>, CodecError>(e),
        },
        input@.len() % 4 != 0 ==> r == Err::<String, CodecError>(CodecError::MalformedGrouping),
{
    match decode_bytes(input) {
        Err(e) => Err(e),
        Ok(bytes) => match string_from_utf8(bytes) {
            Some(s) => Ok(s),
            None => Err(CodecError::InvalidTextSequence),
        },
    }
}

proof fn lemma_symbol_value(v: nat)
    requires
        v < 64,
    ensures
        (symbol(v) as nat) < 128,
        symbol_value(symbol(v) as u8) == v,
{
}

proof fn lemma_group(x: u8, y: u8, z: u8)
    ensures
        sextet(x as nat * 65536 + y as nat * 256 + z as nat, 0) < 64,
        sextet(x as nat * 65536 + y as nat * 256 + z as nat, 1) < 64,
        sextet(x as nat * 65536 + y as nat * 256 + z as nat, 2) < 64,
        sextet(x as nat * 65536 + y as nat * 256 + z as nat, 3) < 64,
        sextet(x as nat * 65536 + y as nat * 256 + z as nat, 0) * 262144
            + sextet(x as nat * 65536 + y as nat * 256 + z as nat, 1) * 4096
            + sextet(x as nat * 65536 + y as nat * 256 + z as nat, 2) * 64
            + sextet(x as nat * 65536 + y as nat * 256 + z as nat, 3)
            == x as nat * 65536 + y as nat * 256 + z as nat,
        z == 0 ==> sextet(x as nat * 65536 + y as nat * 256 + z as nat, 3) == 0,
        y == 0 && z == 0 ==> sextet(x as nat * 65536 + y as nat * 256 + z as nat, 2) == 0,
        byte_of(x as nat * 65536 + y as nat * 256 + z as nat, 0) == x,
        byte_of(x as nat * 65536 + y as nat * 256 + z as nat, 1) == y,
        byte_of(x as nat * 65536 + y as nat * 256 + z as nat, 2) == z,
{
    let v: u32 = (x as u32 * 65536 + y as u32 * 256 + z as u32) as u32;
    assert(v == x as nat * 65536 + y as nat * 256 + z as nat);
    assert(v / 262144 < 64 && (v / 4096) % 64 < 64 && (v / 64) % 64 < 64 && v % 64 < 64
        && (v / 262144) * 262144 + ((v / 4096) % 64) * 4096 + ((v / 64) % 64) * 64 + v % 64 == v
        && (z == 0 ==> v % 64 == 0)
        && (y == 0 && z == 0 ==> (v / 64) % 64 == 0)
        && (v / 65536) as u8 == x && ((v / 256) % 256) as u8 == y && (v % 256) as u8 == z)
        by (bit_vector)
        requires
            v == x as u32 * 65536 + y as u32 * 256 + z as u32,
    ;
}

proof fn lemma_no_zeros(b: Seq<u8>)
    requires
        forall|i: int| 0 <= i < b.len() ==> b[i] != 0,
    ensures
        without_zeros(b) == b,
    decreases b.len(),
{
    if b.len() > 0 {
        lemma_no_zeros(b.drop_last());
        assert(b.drop_last().push(b.last()) =~= b);
    }
}

proof fn lemma_trailing_zeros(b: Seq<u8>, m: nat)
    ensures
        without_zeros(b + Seq::new(m, |k: int| 0u8)) == without_zeros(b),
    decreases m,
{
    if m == 0 {
        assert(b + Seq::new(0, |k: int| 0u8) =~= b);
    } else {
        let shorter = b + Seq::new((m - 1) as nat, |k: int| 0u8);
        assert((b + Seq::new(m, |k: int| 0u8)) =~= shorter.push(0u8));
        lemma_without_zeros_push(shorter, 0u8);
        lemma_trailing_zeros(b, (m - 1) as nat);
    }
}

/// The UTF-8 bytes of Base64 text are its symbols one for one, and decoding
/// them gives every byte of `b` back, followed by the zero bytes that padded
/// the last group.
proof fn lemma_decoded_groups_of_encoded(b: Seq<u8>)
    ensures
        encode_utf8(encoded(b)).len() == encoded_len(b.len()),
        decoded_groups(encode_utf8(encoded(b)))
            == b + Seq::new((3 * ((b.len() + 2) / 3) - b.len()) as nat, |k: int| 0u8),
{
    let e = encoded(b);
    let t = encode_utf8(e);
    let n = b.len();
    assert forall|k: int| 0 <= k < e.len() implies (#[trigger] e[k] as nat) < 128 by {
        let g = k / 4;
        let p = k % 4;
        if 3 * g + p <= n {
            lemma_group(byte_or_zero(b, 3 * g) as u8, byte_or_zero(b, 3 * g + 1) as u8,
                byte_or_zero(b, 3 * g + 2) as u8);
            lemma_symbol_value(sextet(group_value(b, g), p));
        }
    }
    assert(is_ascii_chars(e));
    vstd::utf8::is_ascii_chars_encode_utf8(e);
    assert(t.len() == encoded_len(n));
    let groups = decoded_groups(t);
    let padded = b + Seq::new((3 * ((n + 2) / 3) - n) as nat, |k: int| 0u8);
    assert forall|k: int| 0 <= k < groups.len() implies #[trigger] groups[k] == padded[k] by {
        let g = k / 3;
        let x = byte_or_zero(b, 3 * g) as u8;
        let y = byte_or_zero(b, 3 * g + 1) as u8;
        let z = byte_or_zero(b, 3 * g + 2) as u8;
        lemma_group(x, y, z);
        assert(group_value(b, g) == x as nat * 65536 + y as nat * 256 + z as nat);
        let v = group_value(b, g);
        assert forall|p: int| 0 <= p < 4 implies symbol_value(#[trigger] t[4 * g + p]) == sextet(v, p) by {
            let j = 4 * g + p;
            assert(j / 4 == g && j % 4 == p);
            assert(t[j] == e[j] as u8);
            if 3 * g + p > n {
                assert(p >= 1);
                if p == 2 {
                    assert(y == 0 && z == 0);
                } else if p == 3 {
                    assert(z == 0);
                }
            } else {
                lemma_symbol_value(sextet(v, p));
            }
        }
        assert(symbol_value(t[4 * g + 0]) == sextet(v, 0));
        assert(symbol_value(t[4 * g + 1]) == sextet(v, 1));
        assert(symbol_value(t[4 * g + 2]) == sextet(v, 2));
        assert(symbol_value(t[4 * g + 3]) == sextet(v, 3));
        assert(text_group_value(t, g) == v);
        reveal(decoded_byte);
        assert(groups[k] == byte_of(v, k % 3));
        assert(k == 3 * g + k % 3);
    }
    assert(groups =~= padded);
}

/// Decoding the Base64 text of bytes that hold no zero byte gives those bytes
/// back, whatever their number.
pub proof fn lemma_bytes_round_trip(b: Seq<u8>)
    requires
        forall|i: int| 0 <= i < b.len() ==> b[i] != 0,
    ensures
        decoded_bytes(encode_utf8(encoded(b))) == Ok::<Seq<u8>, CodecError>(b),
{
    lemma_decoded_groups_of_encoded(b);
    let n = b.len();
    assert(encoded_len(n) % 4 == 0);
    lemma_trailing_zeros(b, (3 * ((n + 2) / 3) - n) as nat);
    lemma_no_zeros(b);
}

/// Base64 round trip on text: bytes whose number is not a multiple of three and
/// that are all non-zero ASCII come back, read as text, from decoding their
/// Base64 encoding.
pub proof fn lemma_round_trip(b: Seq<u8>)
    requires
        b.len() % 3 != 0,
        forall|i: int| 0 <= i < b.len() ==> 0 < #[trigger] b[i] < 128,
    ensures
        decoded_text(encode_utf8(encoded(b))) == Ok::<Seq<char>, CodecError>(
            b.map_values(|x: u8| x as char),
        ),
{
    lemma_bytes_round_trip(b);
    let chars = b.map_values(|x: u8| x as char);
    assert(is_ascii_chars(chars));
    vstd::utf8::is_ascii_chars_encode_utf8(chars);
    assert(encode_utf8(chars) =~= b);
    vstd::utf8::encode_utf8_valid_utf8(chars);
    vstd::utf8::encode_utf8_decode_utf8(chars);
}

} // verus!
