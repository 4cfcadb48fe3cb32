//! Standard base64 (RFC 4648 alphabet, '=' padding), as the trace format
//! uses it for payloads.

use vstd::prelude::*;
use vstd::string::StringSliceAdditionalSpecFns;
use vstd::utf8::{encode_utf8, is_ascii_chars, is_ascii_chars_encode_utf8};
use crate::std_text::{char_shown, debug_char};

verus! {

/// The padding byte, '='.
pub const PAD: u8 = 61;
/// 'A'
pub const UPPER_A: u8 = 65;
/// 'Z'
pub const UPPER_Z: u8 = 90;
/// 'a'
pub const LOWER_A: u8 = 97;
/// 'z'
pub const LOWER_Z: u8 = 122;
/// '0'
pub const DIGIT_0: u8 = 48;
/// '9'
pub const DIGIT_9: u8 = 57;
/// '+'
pub const PLUS: u8 = 43;
/// '/'
pub const SLASH: u8 = 47;

/// The alphabet: 'A'..'Z', 'a'..'z', '0'..'9', '+', '/' for the values 0..63.
pub open spec fn b64_symbol(v: int) -> char {
    if v < 26 {
        ('A' as int + v) as char
    } else if v < 52 {
        ('a' as int + (v - 26)) as char
    } else if v < 62 {
        ('0' as int + (v - 52)) as char
    } else if v == 62 {
        '+'
    } else {
        '/'
    }
}

/// The four output characters for a group of one to three input bytes; a
/// short group is completed with '=' padding.
pub open spec fn encode_chunk(c: Seq<u8>) -> Seq<char> {
    let b0 = c[0] as int;
    let b1 = if c.len() > 1 {
        c[1] as int
    } else {
        0
    };
    let b2 = if c.len() > 2 {
        c[2] as int
    } else {
        0
    };
    seq![
        b64_symbol(b0 / 4),
        b64_symbol((b0 % 4) * 16 + b1 / 16),
        if c.len() > 1 {
            b64_symbol((b1 % 16) * 4 + b2 / 64)
        } else {
            '='
        },
        if c.len() > 2 {
            b64_symbol(b2 % 64)
        } else {
            '='
        },
    ]
}

/// Base64 text of `data`, three bytes at a time.
pub open spec fn b64_encode_spec(data: Seq<u8>) -> Seq<char>
    decreases data.len(),
{
    if data.len() == 0 {
        seq![]
    } else if data.len() < 3 {
        encode_chunk(data)
    } else {
        encode_chunk(data.take(3)) + b64_encode_spec(data.skip(3))
    }
}

/// The value of an alphabet byte; `None` for any other byte.
pub open spec fn b64_value(c: u8) -> Option<int> {
    if UPPER_A <= c <= UPPER_Z {
        Some(c - UPPER_A)
    } else if LOWER_A <= c <= LOWER_Z {
        Some(c - LOWER_A + 26)
    } else if DIGIT_0 <= c <= DIGIT_9 {
        Some(c - DIGIT_0 + 52)
    } else if c == PLUS {
        Some(62)
    } else if c == SLASH {
        Some(63)
    } else {
        None
    }
}

/// The six bits a byte of a group stands for; '=' stands for zero bits.
pub open spec fn sextet(c: u8) -> int {
    if c == PAD {
        0
    } else {
        b64_value(c).unwrap()
    }
}

/// How many '=' a group of four bytes holds.
pub open spec fn pad_count(q: Seq<u8>) -> int {
    (if q[0] == PAD { 1int } else { 0 }) + (if q[1] == PAD { 1int } else { 0 }) + (if q[2]
        == PAD { 1int } else { 0 }) + (if q[3] == PAD { 1int } else { 0 })
}

/// The bytes of one group of four: the first byte always, the second when
/// the group holds fewer than two '=', the third when it holds none.
pub open spec fn decode_quad(q: Seq<u8>) -> Seq<u8> {
    let n = sextet(q[0]) * 262144 + sextet(q[1]) * 4096 + sextet(q[2]) * 64 + sextet(q[3]);
    let pad = pad_count(q);
    seq![(n / 65536) as u8] + (if pad < 2 {
        seq![((n / 256) % 256) as u8]
    } else {
        seq![]
    }) + (if pad < 1 {
        seq![(n % 256) as u8]
    } else {
        seq![]
    })
}

/// The bytes of consecutive groups of four.
pub open spec fn decode_quads(b: Seq<u8>) -> Seq<u8>
    decreases b.len(),
{
    if b.len() < 4 {
        seq![]
    } else {
        decode_quad(b.take(4)) + decode_quads(b.skip(4))
    }
}

/// The first byte that is neither '=' nor in the alphabet, if any.
pub open spec fn first_bad_byte(b: Seq<u8>) -> Option<u8>
    decreases b.len(),
{
    if b.len() == 0 {
        None
    } else if b[0] != PAD && b64_value(b[0]) is None {
        Some(b[0])
    } else {
        first_bad_byte(b.drop_first())
    }
}

/// How many '=' end `b`.
pub open spec fn trailing_pads(b: Seq<u8>) -> nat
    decreases b.len(),
{
    if b.len() > 0 && b.last() == PAD {
        1 + trailing_pads(b.drop_last())
    } else {
        0
    }
}

/// '=' appears only as the final padding, of at most two.
pub open spec fn padding_ok(b: Seq<u8>) -> bool {
    &&& trailing_pads(b) <= 2
    &&& forall|i: int| 0 <= i < b.len() - trailing_pads(b) ==> b[i] != PAD
}

/// Why base64 text was refused.
pub enum Base64Error {
    /// The text's length in bytes is not a multiple of four.
    BadLength,
    /// The first byte that is neither '=' nor in the alphabet.
    BadChar(u8),
    /// '=' somewhere other than in a final padding of one or two.
    BadPadding,
}

/// Decoding the bytes of standard base64 text: its length is a multiple of
/// four, every byte is in the alphabet or '=', and '=' only ends the text,
/// once or twice.
pub open spec fn b64_decode_spec(b: Seq<u8>) -> Result<Seq<u8>, Base64Error> {
    if b.len() % 4 != 0 {
        Err(Base64Error::BadLength)
    } else {
        match first_bad_byte(b) {
            Some(c) => Err(Base64Error::BadChar(c)),
            None => if padding_ok(b) {
                Ok(decode_quads(b))
            } else {
                Err(Base64Error::BadPadding)
            },
        }
    }
}

/// The message for each refusal; a bad byte is shown as the character of the
/// same number, in `Debug` form.
pub open spec fn b64_error_text(e: Base64Error) -> Seq<char> {
    match e {
        Base64Error::BadLength => "length not a multiple of 4"@,
        Base64Error::BadChar(c) => "invalid base64 char "@ + char_shown(c as char),
        Base64Error::BadPadding => "invalid base64 padding"@,
    }
}

fn symbol(v: u32) -> (c: char)
    requires
        v < 64,
    ensures
        c == b64_symbol(v as int),
{
    let b: u8 = if v < 26 {
        (v + 65) as u8
    } else if v < 52 {
        (v - 26 + 97) as u8
    } else if v < 62 {
        (v - 52 + 48) as u8
    } else if v == 62 {
        43
    } else {
        47
    };
    b as char
}

proof fn lemma_sextets(b0: u32, b1: u32, b2: u32)
    by (bit_vector)
    requires
        b0 < 256,
        b1 < 256,
        b2 < 256,
    ensures
        ((b0 << 16) | (b1 << 8) | b2) >> 18 & 63 == b0 / 4,
        ((b0 << 16) | (b1 << 8) | b2) >> 12 & 63 == (b0 % 4) * 16 + b1 / 16,
        ((b0 << 16) | (b1 << 8) | b2) >> 6 & 63 == (b1 % 16) * 4 + b2 / 64,
        ((b0 << 16) | (b1 << 8) | b2) & 63 == b2 % 64,
{
}

/// Standard base64 text of `data`, with '=' padding.
pub fn base64_encode(data: &[u8]) -> (out: String)
    ensures
        out@ == b64_encode_spec(data@),
{
    let mut out = String::new();
    let mut i: usize = 0;
    assert(data@.skip(0) =~= data@);
    assert(out@ + b64_encode_spec(data@) =~= b64_encode_spec(data@));
    while i < data.len()
        invariant
            i <= data.len(),
            b64_encode_spec(data@) == out@ + b64_encode_spec(data@.skip(i as int)),
        decreases data.len() - i,
    {
        let rem = data.len() - i;
        let b0 = data[i] as u32;
        let b1: u32 = if rem > 1 {
            data[i + 1] as u32
        } else {
            0
        };
        let b2: u32 = if rem > 2 {
            data[i + 2] as u32
        } else {
            0
        };
        let n = (b0 << 16) | (b1 << 8) | b2;
        proof {
            lemma_sextets(b0, b1, b2);
        }
        let ghost before = out@;
        out.push(symbol(n >> 18 & 63));
        out.push(symbol(n >> 12 & 63));
        if rem > 1 {
            out.push(symbol(n >> 6 & 63));
        } else {
            out.push('=');
        }
        if rem > 2 {
            out.push(symbol(n & 63));
        } else {
            out.push('=');
        }
        let step: usize = if rem > 3 {
            3
        } else {
            rem
        };
        proof {
            let rest = data@.skip(i as int);
            let chunk = rest.take(step as int);
            assert(chunk[0] == b0);
            assert(rem > 1 ==> chunk.len() > 1 && chunk[1] == b1);
            assert(rem > 2 ==> chunk.len() > 2 && chunk[2] == b2);
            assert(out@ =~= before + encode_chunk(chunk));
            assert(rest.skip(step as int) =~= data@.skip(i + step));
            if rem < 3 {
                assert(chunk =~= rest);
                assert(data@.skip(i + step).len() == 0);
            }
        }
        i = i + step;
    }
    assert(data@.skip(i as int).len() == 0);
    out
}

fn sextet_of(c: u8) -> (r: Option<u32>)
    ensures
        c == PAD ==> r == Some(0u32),
        c != PAD ==> match b64_value(c) {
            Some(v) => r == Some(v as u32),
            None => r is None,
        },
{
    if c == PAD {
        Some(0)
    } else if UPPER_A <= c && c <= UPPER_Z {
        Some((c - UPPER_A) as u32)
    } else if LOWER_A <= c && c <= LOWER_Z {
        Some((c - LOWER_A + 26) as u32)
    } else if DIGIT_0 <= c && c <= DIGIT_9 {
        Some((c - DIGIT_0 + 52) as u32)
    } else if c == PLUS {
        Some(62)
    } else if c == SLASH {
        Some(63)
    } else {
        None
    }
}

/// The message for a byte outside the alphabet, given that byte's `Debug`
/// form (quoted).
pub fn invalid_char_message(quoted: &str) -> (m: String)
    ensures
        m@ == "invalid base64 char "@ + quoted@,
{
    let mut m = String::from_str("invalid base64 char ");
    m.append(quoted);
    m
}

fn bad_char(c: u8) -> (m: String)
    ensures
        m@ == b64_error_text(Base64Error::BadChar(c)),
{
    let q = debug_char(c as char);
    invalid_char_message(q.as_str())
}

proof fn lemma_first_bad_concat(x: Seq<u8>, y: Seq<u8>)
    ensures
        first_bad_byte(x + y) == match first_bad_byte(x) {
            Some(c) => Some(c),
            None => first_bad_byte(y),
        },
    decreases x.len(),
{
    if x.len() > 0 {
        assert((x + y).drop_first() =~= x.drop_first() + y);
        lemma_first_bad_concat(x.drop_first(), y);
    } else {
        assert(x + y =~= y);
    }
}

proof fn lemma_quad_bits(v0: u32, v1: u32, v2: u32, v3: u32)
    by (bit_vector)
    requires
        v0 < 64,
        v1 < 64,
        v2 < 64,
        v3 < 64,
    ensures
        (v0 << 18) | (v1 << 12) | (v2 << 6) | v3 == v0 * 262144 + v1 * 4096 + v2 * 64 + v3,
        ((v0 << 18) | (v1 << 12) | (v2 << 6) | v3) >> 16 & 0xff == ((v0 << 18) | (v1 << 12) | (v2
            << 6) | v3) / 65536,
        ((v0 << 18) | (v1 << 12) | (v2 << 6) | v3) >> 8 & 0xff == (((v0 << 18) | (v1 << 12) | (v2
            << 6) | v3) / 256) % 256,
        ((v0 << 18) | (v1 << 12) | (v2 << 6) | v3) & 0xff == ((v0 << 18) | (v1 << 12) | (v2 << 6)
            | v3) % 256,
{
}

/// Decodes one group of four bytes onto `out`, or names its first byte that
/// is neither '=' nor in the alphabet.
fn decode_group(c0: u8, c1: u8, c2: u8, c3: u8, out: &mut Vec<u8>) -> (r: Result<(), u8>)
    ensures
        match r {
            Ok(()) => first_bad_byte(seq![c0, c1, c2, c3]) is None && final(out)@ == old(out)@
                + decode_quad(seq![c0, c1, c2, c3]),
            Err(c) => first_bad_byte(seq![c0, c1, c2, c3]) == Some(c),
        },
{
    let ghost q = seq![c0, c1, c2, c3];
    proof {
        assert(q.drop_first() =~= seq![c1, c2, c3]);
        assert(q.drop_first().drop_first() =~= seq![c2, c3]);
        assert(q.drop_first().drop_first().drop_first() =~= seq![c3]);
        assert(q.drop_first().drop_first().drop_first().drop_first().len() == 0);
        reveal_with_fuel(first_bad_byte, 5);
    }
    let v0 = match sextet_of(c0) {
        Some(v) => v,
        None => return Err(c0),
    };
    let v1 = match sextet_of(c1) {
        Some(v) => v,
        None => return Err(c1),
    };
    let v2 = match sextet_of(c2) {
        Some(v) => v,
        None => return Err(c2),
    };
    let v3 = match sextet_of(c3) {
        Some(v) => v,
        None => return Err(c3),
    };
    let pad: u32 = (if c0 == PAD { 1u32 } else { 0 }) + (if c1 == PAD { 1u32 } else { 0 }) + (
    if c2 == PAD { 1u32 } else { 0 }) + (if c3 == PAD { 1u32 } else { 0 });
    let n = (v0 << 18) | (v1 << 12) | (v2 << 6) | v3;
    proof {
        lemma_quad_bits(v0, v1, v2, v3);
    }
    let ghost before = out@;
    out.push((n >> 16 & 0xff) as u8);
    if pad < 2 {
        out.push((n >> 8 & 0xff) as u8);
    }
    if pad < 1 {
        out.push((n & 0xff) as u8);
    }
    assert(out@ =~= before + decode_quad(q));
    Ok(())
}

proof fn lemma_group_step(b: Seq<u8>, i: int)
    requires
        0 <= i,
        i + 4 <= b.len(),
    ensures
        ({
            let q = seq![b[i], b[i + 1], b[i + 2], b[i + 3]];
            &&& decode_quads(b.skip(i)) == decode_quad(q) + decode_quads(b.skip(i + 4))
            &&& first_bad_byte(b.skip(i)) == match first_bad_byte(q) {
                Some(c) => Some(c),
                None => first_bad_byte(b.skip(i + 4)),
            }
        }),
{
    let rest = b.skip(i);
    let q = seq![b[i], b[i + 1], b[i + 2], b[i + 3]];
    assert(rest.take(4) =~= q);
    assert(rest.skip(4) =~= b.skip(i + 4));
    assert(rest =~= q + b.skip(i + 4));
    lemma_first_bad_concat(q, b.skip(i + 4));
}

/// Decodes consecutive groups of four bytes, or names the first byte that is
/// neither '=' nor in the alphabet.
#[verifier::rlimit(40)]
fn decode_groups(bytes: &[u8]) -> (r: Result<Vec<u8>, u8>)
    requires
        bytes@.len() % 4 == 0,
    ensures
        match r {
            Ok(v) => first_bad_byte(bytes@) is None && v@ == decode_quads(bytes@),
            Err(c) => first_bad_byte(bytes@) == Some(c),
        },
{
    let ghost b = bytes@;
    let ghost groups: int = (b.len() / 4) as int;
    let ghost mut k: int = 0;
    let mut out: Vec<u8> = Vec::new();
    let mut i: usize = 0;
    assert(b.skip(0) =~= b);
    while i < bytes.len()
        invariant
            b == bytes@,
            b.len() == 4 * groups,
            i == 4 * k,
            0 <= k <= groups,
            first_bad_byte(b) == first_bad_byte(b.skip(i as int)),
            decode_quads(b) == out@ + decode_quads(b.skip(i as int)),
        decreases b.len() - i,
    {
        let r = decode_group(bytes[i], bytes[i + 1], bytes[i + 2], bytes[i + 3], &mut out);
        proof {
            lemma_group_step(b, i as int);
        }
        if let Err(c) = r {
            return Err(c);
        }
        i = i + 4;
        proof {
            k = k + 1;
        }
    }
    assert(b.skip(i as int).len() == 0);
    Ok(out)
}

/// Whether '=' appears in `b` only as a final padding of at most two.
fn padding_is_final(b: &[u8]) -> (ok: bool)
    ensures
        ok == padding_ok(b@),
{
    let n = b.len();
    let mut p: usize = 0;
    assert(b@.take(n as int) =~= b@);
    while p < n && b[n - 1 - p] == PAD
        invariant
            p <= n,
            n == b@.len(),
            trailing_pads(b@) == p + trailing_pads(b@.take(n - p)),
        decreases n - p,
    {
        let ghost t = b@.take(n - p);
        assert(t.last() == b@[n - 1 - p]);
        assert(t.drop_last() =~= b@.take(n - p - 1));
        p = p + 1;
    }
    assert(trailing_pads(b@.take(n - p)) == 0) by {
        if n - p > 0 {
            assert(b@.take(n - p).last() == b@[n - 1 - p]);
        }
    }
    if p > 2 {
        return false;
    }
    let mut i: usize = 0;
    while i < n - p
        invariant
            p <= n,
            n == b@.len(),
            trailing_pads(b@) == p,
            i <= n - p,
            forall|j: int| 0 <= j < i ==> b@[j] != PAD,
        decreases n - p - i,
    {
        if b[i] == PAD {
            return false;
        }
        i = i + 1;
    }
    true
}

/// Decodes standard base64 text. Text whose length is not a multiple of four
/// is refused; so is a byte that is neither '=' nor in the alphabet (the
/// first one is reported), and then an '=' anywhere but in a final padding of
/// one or two.
pub fn base64_decode(s: &str) -> (r: Result<Vec<u8>, String>)
    ensures
        match r {
            Ok(v) => b64_decode_spec(s.spec_bytes()) == Ok::<Seq<u8>, Base64Error>(v@),
            Err(m) => b64_decode_spec(s.spec_bytes()) matches Err(e) && m@ == b64_error_text(e),
        },
{
    let bytes = s.as_bytes();
    if bytes.len() % 4 != 0 {
        return Err(String::from_str("length not a multiple of 4"));
    }
    match decode_groups(bytes) {
        Ok(v) => if padding_is_final(bytes) {
            Ok(v)
        } else {
            Err(String::from_str("invalid base64 padding"))
        },
        Err(c) => Err(bad_char(c)),
    }
}

} // verus!


verus! {

/// The bytes of characters that are all ASCII.
pub open spec fn ascii_bytes(cs: Seq<char>) -> Seq<u8> {
    Seq::new(cs.len(), |i: int| cs[i] as u8)
}

proof fn lemma_symbol(v: int)
    requires
        0 <= v < 64,
    ensures
        (b64_symbol(v) as u8) != PAD,
        b64_value(b64_symbol(v) as u8) == Some(v),
        sextet(b64_symbol(v) as u8) == v,
        '\0' <= b64_symbol(v) <= '\u{7f}',
{
}

} // verus!

verus! {

proof fn lemma_regroup(b0: u32, b1: u32, b2: u32)
    by (bit_vector)
    requires
        b0 < 256,
        b1 < 256,
        b2 < 256,
    ensures
        (b0 / 4) * 262144 + ((b0 % 4) * 16 + b1 / 16) * 4096 + ((b1 % 16) * 4 + b2 / 64) * 64 + b2
            % 64 == b0 * 65536 + b1 * 256 + b2,
{
}

proof fn lemma_split(b0: int, b1: int, b2: int)
    requires
        0 <= b0 < 256,
        0 <= b1 < 256,
        0 <= b2 < 256,
    ensures
        (b0 * 65536 + b1 * 256 + b2) / 65536 == b0,
        ((b0 * 65536 + b1 * 256 + b2) / 256) % 256 == b1,
        (b0 * 65536 + b1 * 256 + b2) % 256 == b2,
{
    assert((b0 * 65536 + b1 * 256 + b2) / 256 == b0 * 256 + b1);
}

proof fn lemma_chunk_round_trip(c: Seq<u8>)
    requires
        1 <= c.len() <= 3,
    ensures
        encode_chunk(c).len() == 4,
        is_ascii_chars(encode_chunk(c)),
        first_bad_byte(ascii_bytes(encode_chunk(c))) is None,
        decode_quad(ascii_bytes(encode_chunk(c))) == c,
        forall|i: int|
            0 <= i < 4 ==> (#[trigger] ascii_bytes(encode_chunk(c))[i] == PAD <==> i > c.len()),
{
    let b0 = c[0];
    let b1: u8 = if c.len() > 1 {
        c[1]
    } else {
        0
    };
    let b2: u8 = if c.len() > 2 {
        c[2]
    } else {
        0
    };
    let v0 = b0 / 4;
    let v1 = (b0 % 4) * 16 + b1 / 16;
    let v2 = (b1 % 16) * 4 + b2 / 64;
    let v3 = b2 % 64;
    lemma_symbol(v0 as int);
    lemma_symbol(v1 as int);
    lemma_symbol(v2 as int);
    lemma_symbol(v3 as int);
    lemma_regroup(b0 as u32, b1 as u32, b2 as u32);
    lemma_split(b0 as int, b1 as int, b2 as int);
    let e = encode_chunk(c);
    let q = ascii_bytes(e);
    assert(q.drop_first() =~= seq![q[1], q[2], q[3]]);
    assert(q.drop_first().drop_first() =~= seq![q[2], q[3]]);
    assert(q.drop_first().drop_first().drop_first() =~= seq![q[3]]);
    assert(q.drop_first().drop_first().drop_first().drop_first().len() == 0);
    reveal_with_fuel(first_bad_byte, 5);
    assert(decode_quad(q) =~= c);
}

proof fn lemma_round_trip(d: Seq<u8>)
    ensures
        is_ascii_chars(b64_encode_spec(d)),
        ascii_bytes(b64_encode_spec(d)).len() % 4 == 0,
        first_bad_byte(ascii_bytes(b64_encode_spec(d))) is None,
        decode_quads(ascii_bytes(b64_encode_spec(d))) == d,
    decreases d.len(),
{
    if d.len() == 0 {
        assert(ascii_bytes(b64_encode_spec(d)).len() == 0);
        assert(decode_quads(ascii_bytes(b64_encode_spec(d))) =~= d);
    } else if d.len() < 3 {
        lemma_chunk_round_trip(d);
        let q = ascii_bytes(encode_chunk(d));
        assert(q.take(4) =~= q);
        assert(q.skip(4).len() == 0);
        assert(decode_quads(q.skip(4)) =~= Seq::<u8>::empty());
        assert(decode_quads(q) == decode_quad(q.take(4)) + decode_quads(q.skip(4)));
        assert(decode_quads(q) =~= decode_quad(q));
    } else {
        let head = d.take(3);
        let tail = d.skip(3);
        lemma_chunk_round_trip(head);
        lemma_round_trip(tail);
        let x = ascii_bytes(encode_chunk(head));
        let y = ascii_bytes(b64_encode_spec(tail));
        let all = ascii_bytes(b64_encode_spec(d));
        assert(b64_encode_spec(d) == encode_chunk(head) + b64_encode_spec(tail));
        assert(all =~= x + y);
        lemma_first_bad_concat(x, y);
        assert(all.take(4) =~= x);
        assert(all.skip(4) =~= y);
        assert(d =~= head + tail);
        assert forall|i: int| 0 <= i < b64_encode_spec(d).len() implies '\0' <= #[trigger] b64_encode_spec(
            d,
        )[i] <= '\u{7f}' by {
            if i < 4 {
                assert(b64_encode_spec(d)[i] == encode_chunk(head)[i]);
            } else {
                assert(b64_encode_spec(d)[i] == b64_encode_spec(tail)[i - 4]);
            }
        }
    }
}

proof fn lemma_trailing_pads_split(x: Seq<u8>, y: Seq<u8>)
    requires
        forall|i: int| 0 <= i < x.len() ==> #[trigger] x[i] != PAD,
        forall|i: int| 0 <= i < y.len() ==> #[trigger] y[i] == PAD,
    ensures
        trailing_pads(x + y) == y.len(),
    decreases y.len(),
{
    if y.len() == 0 {
        assert(x + y =~= x);
        if x.len() > 0 {
            assert(x[x.len() - 1] != PAD);
        }
    } else {
        assert((x + y).last() == y[y.len() - 1]);
        assert((x + y).drop_last() =~= x + y.drop_last());
        lemma_trailing_pads_split(x, y.drop_last());
    }
}

proof fn lemma_padding_split(x: Seq<u8>, y: Seq<u8>)
    requires
        forall|i: int| 0 <= i < x.len() ==> #[trigger] x[i] != PAD,
        forall|i: int| 0 <= i < y.len() ==> #[trigger] y[i] == PAD,
        y.len() <= 2,
    ensures
        padding_ok(x + y),
{
    lemma_trailing_pads_split(x, y);
    assert forall|i: int| 0 <= i < (x + y).len() - trailing_pads(x + y) implies (x + y)[i] != PAD by {
        assert((x + y)[i] == x[i]);
    }
}

/// The bytes of base64 text: alphabet bytes, then at most two '='.
proof fn lemma_encoded_padding(d: Seq<u8>) -> (xy: (Seq<u8>, Seq<u8>))
    ensures
        ascii_bytes(b64_encode_spec(d)) == xy.0 + xy.1,
        forall|i: int| 0 <= i < xy.0.len() ==> #[trigger] xy.0[i] != PAD,
        forall|i: int| 0 <= i < xy.1.len() ==> #[trigger] xy.1[i] == PAD,
        xy.1.len() <= 2,
    decreases d.len(),
{
    if d.len() == 0 {
        assert(ascii_bytes(b64_encode_spec(d)) =~= Seq::<u8>::empty() + Seq::<u8>::empty());
        (Seq::<u8>::empty(), Seq::<u8>::empty())
    } else if d.len() < 3 {
        lemma_chunk_round_trip(d);
        let q = ascii_bytes(encode_chunk(d));
        let k = d.len() + 1;
        assert(q =~= q.take(k as int) + q.skip(k as int));
        assert forall|i: int| 0 <= i < q.take(k as int).len() implies #[trigger] q.take(k as int)[i]
            != PAD by {
            assert(q.take(k as int)[i] == q[i]);
        }
        assert forall|i: int| 0 <= i < q.skip(k as int).len() implies #[trigger] q.skip(k as int)[i]
            == PAD by {
            assert(q.skip(k as int)[i] == q[i + k]);
        }
        (q.take(k as int), q.skip(k as int))
    } else {
        let head = d.take(3);
        let tail = d.skip(3);
        lemma_chunk_round_trip(head);
        let (x1, y1) = lemma_encoded_padding(tail);
        let c = ascii_bytes(encode_chunk(head));
        assert(b64_encode_spec(d) == encode_chunk(head) + b64_encode_spec(tail));
        assert(ascii_bytes(b64_encode_spec(d)) =~= c + ascii_bytes(b64_encode_spec(tail)));
        assert(ascii_bytes(b64_encode_spec(d)) =~= (c + x1) + y1);
        assert forall|i: int| 0 <= i < (c + x1).len() implies #[trigger] (c + x1)[i] != PAD by {
            if i < 4 {
                assert((c + x1)[i] == c[i]);
            } else {
                assert((c + x1)[i] == x1[i - 4]);
            }
        }
        (c + x1, y1)
    }
}

/// Decoding the base64 text of any bytes gives those bytes back.
pub proof fn law_base64_round_trip(data: Seq<u8>)
    ensures
        b64_decode_spec(encode_utf8(b64_encode_spec(data))) == Ok::<Seq<u8>, Base64Error>(data),
{
    let cs = b64_encode_spec(data);
    lemma_round_trip(data);
    let (x, y) = lemma_encoded_padding(data);
    lemma_padding_split(x, y);
    is_ascii_chars_encode_utf8(cs);
    assert(encode_utf8(cs) =~= ascii_bytes(cs));
}

} // verus!

verus! {

/// A character base64 text may hold: the alphabet and '='.
pub open spec fn is_b64_text_char(c: char) -> bool {
    ('A' <= c <= 'Z') || ('a' <= c <= 'z') || ('0' <= c <= '9') || c == '+' || c == '/' || c
        == '='
}

proof fn lemma_chunk_shape(c: Seq<u8>)
    requires
        1 <= c.len() <= 3,
    ensures
        encode_chunk(c).len() == 4,
        forall|i: int| 0 <= i < 4 ==> is_b64_text_char(#[trigger] encode_chunk(c)[i]),
{
    let b0 = c[0] as int;
    let b1 = if c.len() > 1 {
        c[1] as int
    } else {
        0
    };
    let b2 = if c.len() > 2 {
        c[2] as int
    } else {
        0
    };
    assert(0 <= b0 / 4 < 64);
    assert(0 <= (b0 % 4) * 16 + b1 / 16 < 64);
    assert(0 <= (b1 % 16) * 4 + b2 / 64 < 64);
    assert(0 <= b2 % 64 < 64);
}

/// Base64 text is four characters for every three bytes or part thereof,
/// all from the alphabet or '=': no space and no line break, so a payload
/// always fits in one field of one line.
pub proof fn law_base64_text_shape(data: Seq<u8>)
    ensures
        b64_encode_spec(data).len() == 4 * ((data.len() + 2) / 3),
        forall|i: int|
            0 <= i < b64_encode_spec(data).len() ==> is_b64_text_char(
                #[trigger] b64_encode_spec(data)[i],
            ),
    decreases data.len(),
{
    if data.len() == 0 {
    } else if data.len() < 3 {
        lemma_chunk_shape(data);
    } else {
        let head = data.take(3);
        let tail = data.skip(3);
        lemma_chunk_shape(head);
        law_base64_text_shape(tail);
        let e = b64_encode_spec(data);
        assert(e == encode_chunk(head) + b64_encode_spec(tail));
        assert forall|i: int| 0 <= i < e.len() implies is_b64_text_char(#[trigger] e[i]) by {
            if i < 4 {
                assert(e[i] == encode_chunk(head)[i]);
            } else {
                assert(e[i] == b64_encode_spec(tail)[i - 4]);
            }
        }
    }
}

} // verus!

verus! {

/// Standard base64 text in its one canonical form: valid, and the bits that
/// padding leaves over in the last group are zero.
pub open spec fn is_canonical_b64(b: Seq<u8>) -> bool {
    &&& b.len() % 4 == 0
    &&& first_bad_byte(b) is None
    &&& padding_ok(b)
    &&& trailing_pads(b) == 1 ==> sextet(b[b.len() - 2]) % 4 == 0
    &&& trailing_pads(b) == 2 ==> sextet(b[b.len() - 3]) % 16 == 0
}

proof fn lemma_no_bad_byte(b: Seq<u8>)
    requires
        first_bad_byte(b) is None,
    ensures
        forall|i: int| 0 <= i < b.len() ==> #[trigger] b[i] == PAD || b64_value(b[i]) is Some,
    decreases b.len(),
{
    if b.len() > 0 {
        lemma_no_bad_byte(b.drop_first());
        assert forall|i: int| 0 <= i < b.len() implies #[trigger] b[i] == PAD || b64_value(b[i]) is Some by {
            if i > 0 {
                assert(b[i] == b.drop_first()[i - 1]);
            }
        }
    }
}

proof fn lemma_value_symbol(c: u8)
    requires
        b64_value(c) is Some,
    ensures
        0 <= b64_value(c).unwrap() < 64,
        b64_symbol(b64_value(c).unwrap()) as u8 == c,
        c != PAD,
        sextet(c) == b64_value(c).unwrap(),
{
}

proof fn lemma_trailing_pads_suffix(x: Seq<u8>, y: Seq<u8>)
    requires
        trailing_pads(x + y) < y.len(),
    ensures
        trailing_pads(x + y) == trailing_pads(y),
    decreases y.len(),
{
    assert((x + y).last() == y.last());
    if y.last() == PAD {
        assert((x + y).drop_last() =~= x + y.drop_last());
        lemma_trailing_pads_suffix(x, y.drop_last());
    }
}

proof fn lemma_quad_arith(v0: u32, v1: u32, v2: u32, v3: u32, n: u32)
    by (bit_vector)
    requires
        v0 < 64,
        v1 < 64,
        v2 < 64,
        v3 < 64,
        n == (v0 << 18) | (v1 << 12) | (v2 << 6) | v3,
    ensures
        n / 65536 < 256,
        (n / 65536) / 4 == v0,
        ((n / 65536) % 4) * 16 + ((n / 256) % 256) / 16 == v1,
        (((n / 256) % 256) % 16) * 4 + (n % 256) / 64 == v2,
        (n % 256) % 64 == v3,
        ((n / 256) % 256) / 16 == v1 % 16,
        (n % 256) / 64 == v2 % 4,
{
}

/// One group of canonical base64 is the encoding of what it decodes to.
proof fn lemma_quad_reencode(q: Seq<u8>, p: int)
    requires
        q.len() == 4,
        0 <= p <= 2,
        forall|i: int| 0 <= i < 4 - p ==> b64_value(#[trigger] q[i]) is Some,
        forall|i: int| 4 - p <= i < 4 ==> #[trigger] q[i] == PAD,
        p == 1 ==> sextet(q[2]) % 4 == 0,
        p == 2 ==> sextet(q[1]) % 16 == 0,
    ensures
        decode_quad(q).len() == 3 - p,
        ascii_bytes(encode_chunk(decode_quad(q))) == q,
{
    lemma_value_symbol(q[0]);
    lemma_value_symbol(q[1]);
    if p < 2 {
        lemma_value_symbol(q[2]);
    }
    if p < 1 {
        lemma_value_symbol(q[3]);
    }
    let v0 = sextet(q[0]);
    let v1 = sextet(q[1]);
    let v2 = sextet(q[2]);
    let v3 = sextet(q[3]);
    assert(pad_count(q) == p);
    let n: u32 = ((v0 as u32) << 18) | ((v1 as u32) << 12) | ((v2 as u32) << 6) | (v3 as u32);
    lemma_quad_bits(v0 as u32, v1 as u32, v2 as u32, v3 as u32);
    lemma_quad_arith(v0 as u32, v1 as u32, v2 as u32, v3 as u32, n);
    let d = decode_quad(q);
    let e = encode_chunk(d);
    let r = ascii_bytes(e);
    assert(r.len() == 4);
    assert(r[0] == q[0]);
    assert(r[1] == q[1]);
    assert(r[2] == q[2]);
    assert(r[3] == q[3]);
    assert(r =~= q);
}

/// Canonical base64 text is exactly the encoding of what it decodes to.
pub proof fn law_base64_canonical(b: Seq<u8>)
    requires
        is_canonical_b64(b),
    ensures
        b64_decode_spec(b) matches Ok(data) && encode_utf8(b64_encode_spec(data)) == b,
    decreases b.len(),
{
    let data = decode_quads(b);
    lemma_reencode(b);
    lemma_round_trip(data);
    is_ascii_chars_encode_utf8(b64_encode_spec(data));
    assert(encode_utf8(b64_encode_spec(data)) =~= ascii_bytes(b64_encode_spec(data)));
}

proof fn lemma_reencode(b: Seq<u8>)
    requires
        is_canonical_b64(b),
    ensures
        ascii_bytes(b64_encode_spec(decode_quads(b))) == b,
    decreases b.len(),
{
    lemma_no_bad_byte(b);
    let p = trailing_pads(b) as int;
    if b.len() == 0 {
        assert(decode_quads(b) =~= Seq::<u8>::empty());
        assert(ascii_bytes(b64_encode_spec(decode_quads(b))) =~= b);
    } else {
        let q = b.take(4);
        let rest = b.skip(4);
        assert(b =~= q + rest);
        assert(decode_quads(b) == decode_quad(q) + decode_quads(rest));
        if rest.len() == 0 {
            // The last group holds all the padding.
            assert(b =~= q);
            assert forall|i: int| 4 - p <= i < 4 implies #[trigger] q[i] == PAD by {
                lemma_trailing_pads_tail(b, i);
            }
            assert forall|i: int| 0 <= i < 4 - p implies b64_value(#[trigger] q[i]) is Some by {
                assert(q[i] != PAD);
            }
            lemma_quad_reencode(q, p);
            assert(decode_quads(rest) =~= Seq::<u8>::empty());
            let d = decode_quad(q);
            assert(decode_quads(b) =~= d);
            if d.len() == 3 {
                assert(d.take(3) =~= d);
                assert(d.skip(3).len() == 0);
                assert(b64_encode_spec(d) == encode_chunk(d.take(3)) + b64_encode_spec(d.skip(3)));
                assert(b64_encode_spec(d) =~= encode_chunk(d));
            }
        } else {
            // A group before the last holds no padding.
            assert forall|i: int| 0 <= i < 4 implies b64_value(#[trigger] q[i]) is Some by {
                assert(q[i] == b[i]);
                assert(b[i] != PAD);
            }
            lemma_quad_reencode(q, 0);
            lemma_trailing_pads_suffix(q, rest);
            lemma_first_bad_concat(q, rest);
            assert forall|i: int| 0 <= i < rest.len() - trailing_pads(rest) implies rest[i] != PAD by {
                assert(rest[i] == b[i + 4]);
            }
            if trailing_pads(rest) == 1 {
                assert(rest[rest.len() - 2] == b[b.len() - 2]);
            }
            if trailing_pads(rest) == 2 {
                assert(rest[rest.len() - 3] == b[b.len() - 3]);
            }
            lemma_reencode(rest);
            let d0 = decode_quad(q);
            let d = decode_quads(b);
            lemma_round_trip_len(rest);
            assert(d.take(3) =~= d0);
            assert(d.skip(3) =~= decode_quads(rest));
            assert(b64_encode_spec(d) == encode_chunk(d.take(3)) + b64_encode_spec(d.skip(3)));
            assert(ascii_bytes(b64_encode_spec(d)) =~= ascii_bytes(encode_chunk(d0)) + ascii_bytes(
                b64_encode_spec(decode_quads(rest)),
            ));
        }
    }
}

proof fn lemma_trailing_pads_tail(b: Seq<u8>, i: int)
    requires
        0 <= i,
        b.len() - trailing_pads(b) <= i < b.len(),
    ensures
        b[i] == PAD,
    decreases b.len(),
{
    assert(b.len() > 0 && b.last() == PAD);
    assert(trailing_pads(b) == 1 + trailing_pads(b.drop_last()));
    if i < b.len() - 1 {
        lemma_trailing_pads_tail(b.drop_last(), i);
        assert(b[i] == b.drop_last()[i]);
    }
}

proof fn lemma_round_trip_len(b: Seq<u8>)
    requires
        b.len() >= 4,
        b.len() % 4 == 0,
    ensures
        decode_quads(b).len() >= 1,
{
    assert(decode_quads(b) == decode_quad(b.take(4)) + decode_quads(b.skip(4)));
}

} // verus!
