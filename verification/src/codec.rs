//! Identifier codec: a reversible, filesystem-safe encoding between an
//! arbitrary URL string and a file-name token.
//!
//! A URL is taken to its UTF-8 bytes, and the bytes to a token over the
//! URL-safe alphabet `A-Z a-z 0-9 - _`, six bits per symbol, without padding.
//! Decoding rejects anything that is not the encoding of some byte string
//! (a stray symbol, an impossible length, non-zero spare bits in the final
//! symbol), so every valid token has exactly one preimage.

use vstd::prelude::*;
use vstd::string::StringSliceAdditionalSpecFns;
use vstd::utf8::decode_utf8;
use vstd::utf8::encode_utf8;
use vstd::utf8::valid_utf8;

verus! {

/// Why a file stem failed to decode back to a URL.
#[derive(Clone, Copy, Debug, PartialEq, Eq, Structural)]
pub enum DecodeError {
    /// The token is not the encoding of any byte string.
    Malformed,
    /// The token encodes bytes, but the bytes are not valid UTF-8.
    NotUtf8,
}

/// ASCII code of the alphabet symbol for a six-bit value:
/// `A-Z` for 0..26, `a-z` for 26..52, `0-9` for 52..62, `-` for 62, `_` for 63.
pub open spec fn sextet_symbol(v: u8) -> u8
    recommends
        v < 64,
{
    if v < 26 {
        (v + 65) as u8
    } else if v < 52 {
        (v + 71) as u8
    } else if v < 62 {
        (v - 4) as u8
    } else if v == 62 {
        45
    } else {
        95
    }
}

/// Six-bit value of an alphabet symbol; `None` when the byte is no symbol.
pub open spec fn symbol_value(b: u8) -> Option<u8> {
    if 65 <= b <= 90 {
        Some((b - 65) as u8)
    } else if 97 <= b <= 122 {
        Some((b - 71) as u8)
    } else if 48 <= b <= 57 {
        Some((b + 4) as u8)
    } else if b == 45 {
        Some(62u8)
    } else if b == 95 {
        Some(63u8)
    } else {
        None
    }
}

/// True of the bytes the alphabet uses: ASCII letters, digits, `-` and `_`.
/// None of them is a path separator, a dot, or otherwise unsafe in a file name.
pub open spec fn fs_safe_byte(b: u8) -> bool {
    symbol_value(b) is Some
}

/// The token (as ASCII bytes) encoding a byte string: each group of three
/// bytes becomes four symbols; a final group of one or two bytes becomes two
/// or three symbols, the spare low bits of the last symbol left at zero.
pub open spec fn b64_encode(s: Seq<u8>) -> Seq<u8>
    decreases s.len(),
{
    if s.len() == 0 {
        seq![]
    } else if s.len() == 1 {
        seq![sextet_symbol(s[0] >> 2), sextet_symbol((s[0] & 0x3) << 4)]
    } else if s.len() == 2 {
        seq![
            sextet_symbol(s[0] >> 2),
            sextet_symbol(((s[0] & 0x3) << 4) | (s[1] >> 4)),
            sextet_symbol((s[1] & 0xf) << 2),
        ]
    } else {
        seq![
            sextet_symbol(s[0] >> 2),
            sextet_symbol(((s[0] & 0x3) << 4) | (s[1] >> 4)),
            sextet_symbol(((s[1] & 0xf) << 2) | (s[2] >> 6)),
            sextet_symbol(s[2] & 0x3f),
        ] + b64_encode(s.skip(3))
    }
}

/// The byte string a token (as ASCII bytes) encodes, or `None` when the token
/// is not an encoding: a byte outside the alphabet, a length leaving a single
/// trailing symbol, or spare bits of the final symbol not zero.
pub open spec fn b64_decode(t: Seq<u8>) -> Option<Seq<u8>>
    decreases t.len(),
{
    if t.len() == 0 {
        Some(seq![])
    } else if t.len() == 1 {
        None
    } else if t.len() == 2 {
        match (symbol_value(t[0]), symbol_value(t[1])) {
            (Some(v0), Some(v1)) => if v1 & 0xf == 0 {
                Some(seq![(v0 << 2) | (v1 >> 4)])
            } else {
                None
            },
            _ => None,
        }
    } else if t.len() == 3 {
        match (symbol_value(t[0]), symbol_value(t[1]), symbol_value(t[2])) {
            (Some(v0), Some(v1), Some(v2)) => if v2 & 0x3 == 0 {
                Some(seq![(v0 << 2) | (v1 >> 4), ((v1 & 0xf) << 4) | (v2 >> 2)])
            } else {
                None
            },
            _ => None,
        }
    } else {
        match (symbol_value(t[0]), symbol_value(t[1]), symbol_value(t[2]), symbol_value(t[3])) {
            (Some(v0), Some(v1), Some(v2), Some(v3)) => match b64_decode(t.skip(4)) {
                Some(rest) => Some(
                    seq![
                        (v0 << 2) | (v1 >> 4),
                        ((v1 & 0xf) << 4) | (v2 >> 2),
                        ((v2 & 0x3) << 6) | v3,
                    ] + rest,
                ),
                None => None,
            },
            _ => None,
        }
    }
}

/// The symbol of a six-bit value is in the alphabet and maps back to it.
proof fn lemma_symbol_value_inverse(v: u8)
    requires
        v < 64,
    ensures
        symbol_value(sextet_symbol(v)) == Some(v),
{
}

/// Packing three bytes into four sextets and unpacking them gives the bytes
/// back, and each sextet is below 64.
proof fn lemma_pack3(s0: u8, s1: u8, s2: u8)
    by (bit_vector)
    ensures
        (s0 >> 2) < 64,
        (((s0 & 0x3) << 4) | (s1 >> 4)) < 64,
        (((s1 & 0xf) << 2) | (s2 >> 6)) < 64,
        (s2 & 0x3f) < 64,
        ((s0 >> 2) << 2) | ((((s0 & 0x3) << 4) | (s1 >> 4)) >> 4) == s0,
        (((((s0 & 0x3) << 4) | (s1 >> 4)) & 0xf) << 4) | (((((s1 & 0xf) << 2) | (s2 >> 6))) >> 2)
            == s1,
        (((((s1 & 0xf) << 2) | (s2 >> 6)) & 0x3) << 6) | (s2 & 0x3f) == s2,
{
}

/// Packing a final group of one byte into two sextets: the spare bits of the
/// second symbol are zero, and unpacking gives the byte back.
proof fn lemma_pack1(s0: u8)
    by (bit_vector)
    ensures
        (s0 >> 2) < 64,
        ((s0 & 0x3) << 4) < 64,
        ((s0 & 0x3) << 4) & 0xf == 0,
        ((s0 >> 2) << 2) | (((s0 & 0x3) << 4) >> 4) == s0,
{
}

/// Packing a final group of two bytes into three sextets: the spare bits of
/// the third symbol are zero, and unpacking gives the bytes back.
proof fn lemma_pack2(s0: u8, s1: u8)
    by (bit_vector)
    ensures
        (s0 >> 2) < 64,
        (((s0 & 0x3) << 4) | (s1 >> 4)) < 64,
        ((s1 & 0xf) << 2) < 64,
        ((s1 & 0xf) << 2) & 0x3 == 0,
        ((s0 >> 2) << 2) | ((((s0 & 0x3) << 4) | (s1 >> 4)) >> 4) == s0,
        (((((s0 & 0x3) << 4) | (s1 >> 4)) & 0xf) << 4) | (((s1 & 0xf) << 2) >> 2) == s1,
{
}

/// Round trip at the byte level: decoding the encoding of any byte string
/// gives exactly that byte string back.
pub proof fn lemma_b64_round_trip(s: Seq<u8>)
    ensures
        b64_decode(b64_encode(s)) == Some(s),
    decreases s.len(),
{
    if s.len() == 0 {
        assert(b64_encode(s) =~= Seq::<u8>::empty());
        assert(b64_decode(b64_encode(s)) == Some(s)) by {
            assert(s =~= Seq::<u8>::empty());
        }
    } else if s.len() == 1 {
        lemma_pack1(s[0]);
        lemma_symbol_value_inverse(s[0] >> 2);
        lemma_symbol_value_inverse((s[0] & 0x3) << 4);
        assert(b64_decode(b64_encode(s)) matches Some(d) && d =~= s);
    } else if s.len() == 2 {
        lemma_pack2(s[0], s[1]);
        lemma_symbol_value_inverse(s[0] >> 2);
        lemma_symbol_value_inverse(((s[0] & 0x3) << 4) | (s[1] >> 4));
        lemma_symbol_value_inverse((s[1] & 0xf) << 2);
        assert(b64_decode(b64_encode(s)) matches Some(d) && d =~= s);
    } else {
        lemma_pack3(s[0], s[1], s[2]);
        let v0 = s[0] >> 2;
        let v1 = ((s[0] & 0x3) << 4) | (s[1] >> 4);
        let v2 = ((s[1] & 0xf) << 2) | (s[2] >> 6);
        let v3 = s[2] & 0x3f;
        lemma_symbol_value_inverse(v0);
        lemma_symbol_value_inverse(v1);
        lemma_symbol_value_inverse(v2);
        lemma_symbol_value_inverse(v3);
        lemma_b64_round_trip(s.skip(3));
        let t = b64_encode(s);
        assert(t.len() >= 4);
        assert(t.skip(4) =~= b64_encode(s.skip(3)));
        assert(b64_decode(t) matches Some(d) && d =~= s);
    }
}

/// The encoding is injective: two byte strings with the same token are equal.
pub proof fn lemma_b64_injective(s1: Seq<u8>, s2: Seq<u8>)
    requires
        b64_encode(s1) == b64_encode(s2),
    ensures
        s1 == s2,
{
    lemma_b64_round_trip(s1);
    lemma_b64_round_trip(s2);
}

/// The token of a URL string: the encoding of its UTF-8 bytes, as ASCII bytes.
pub open spec fn token_of(url: Seq<char>) -> Seq<u8> {
    b64_encode(encode_utf8(url))
}

/// The URL string a token (as ASCII bytes) stands for, or `None` when the
/// token does not encode the UTF-8 bytes of any string.
pub open spec fn url_of(tb: Seq<u8>) -> Option<Seq<char>> {
    match b64_decode(tb) {
        Some(bytes) => if valid_utf8(bytes) {
            Some(decode_utf8(bytes))
        } else {
            None
        },
        None => None,
    }
}

/// Round-trip law: decoding the token of any URL string gives exactly that
/// string back, whatever characters it holds.
pub proof fn lemma_url_round_trip(url: Seq<char>)
    ensures
        url_of(token_of(url)) == Some(url),
{
    lemma_b64_round_trip(encode_utf8(url));
    vstd::utf8::encode_utf8_valid_utf8(url);
    vstd::utf8::encode_utf8_decode_utf8(url);
}

/// Injectivity law: two distinct URL strings never share a token.
pub proof fn lemma_token_injective(u1: Seq<char>, u2: Seq<char>)
    requires
        token_of(u1) == token_of(u2),
    ensures
        u1 == u2,
{
    lemma_url_round_trip(u1);
    lemma_url_round_trip(u2);
}

/// An alphabet symbol maps back to itself through its six-bit value.
proof fn lemma_symbol_of_value(b: u8)
    requires
        symbol_value(b) is Some,
    ensures
        sextet_symbol(symbol_value(b)->Some_0) == b,
{
}

/// Re-encoding the three bytes unpacked from four sextets gives the sextets.
proof fn lemma_unpack4(v0: u8, v1: u8, v2: u8, v3: u8)
    by (bit_vector)
    requires
        v0 < 64,
        v1 < 64,
        v2 < 64,
        v3 < 64,
    ensures
        ((v0 << 2) | (v1 >> 4)) >> 2 == v0,
        ((((v0 << 2) | (v1 >> 4)) & 0x3) << 4) | ((((v1 & 0xf) << 4) | (v2 >> 2)) >> 4) == v1,
        (((((v1 & 0xf) << 4) | (v2 >> 2)) & 0xf) << 2) | ((((v2 & 0x3) << 6) | v3) >> 6) == v2,
        (((v2 & 0x3) << 6) | v3) & 0x3f == v3,
{
}

/// Re-encoding the byte unpacked from two sextets gives the sextets, provided
/// the spare bits of the second were zero.
proof fn lemma_unpack2(v0: u8, v1: u8)
    by (bit_vector)
    requires
        v0 < 64,
        v1 < 64,
        v1 & 0xf == 0,
    ensures
        ((v0 << 2) | (v1 >> 4)) >> 2 == v0,
        (((v0 << 2) | (v1 >> 4)) & 0x3) << 4 == v1,
{
}

/// Re-encoding the two bytes unpacked from three sextets gives the sextets,
/// provided the spare bits of the third were zero.
proof fn lemma_unpack3(v0: u8, v1: u8, v2: u8)
    by (bit_vector)
    requires
        v0 < 64,
        v1 < 64,
        v2 < 64,
        v2 & 0x3 == 0,
    ensures
        ((v0 << 2) | (v1 >> 4)) >> 2 == v0,
        ((((v0 << 2) | (v1 >> 4)) & 0x3) << 4) | ((((v1 & 0xf) << 4) | (v2 >> 2)) >> 4) == v1,
        ((((v1 & 0xf) << 4) | (v2 >> 2)) & 0xf) << 2 == v2,
{
}

/// Canonicity at the byte level: a token that decodes at all is exactly the
/// encoding of what it decodes to, so each byte string has one token and each
/// valid token one byte string.
pub proof fn lemma_b64_canonical(t: Seq<u8>)
    requires
        b64_decode(t) is Some,
    ensures
        b64_encode(b64_decode(t)->Some_0) == t,
    decreases t.len(),
{
    let b = b64_decode(t)->Some_0;
    if t.len() == 0 {
        assert(b =~= Seq::<u8>::empty());
        assert(b64_encode(b) =~= t);
    } else if t.len() == 2 {
        let v0 = symbol_value(t[0])->Some_0;
        let v1 = symbol_value(t[1])->Some_0;
        lemma_unpack2(v0, v1);
        lemma_symbol_of_value(t[0]);
        lemma_symbol_of_value(t[1]);
        assert(b =~= seq![(v0 << 2) | (v1 >> 4)]);
        assert(b64_encode(b) =~= t);
    } else if t.len() == 3 {
        let v0 = symbol_value(t[0])->Some_0;
        let v1 = symbol_value(t[1])->Some_0;
        let v2 = symbol_value(t[2])->Some_0;
        lemma_unpack3(v0, v1, v2);
        lemma_symbol_of_value(t[0]);
        lemma_symbol_of_value(t[1]);
        lemma_symbol_of_value(t[2]);
        assert(b =~= seq![(v0 << 2) | (v1 >> 4), ((v1 & 0xf) << 4) | (v2 >> 2)]);
        assert(b64_encode(b) =~= t);
    } else {
        let v0 = symbol_value(t[0])->Some_0;
        let v1 = symbol_value(t[1])->Some_0;
        let v2 = symbol_value(t[2])->Some_0;
        let v3 = symbol_value(t[3])->Some_0;
        lemma_unpack4(v0, v1, v2, v3);
        lemma_symbol_of_value(t[0]);
        lemma_symbol_of_value(t[1]);
        lemma_symbol_of_value(t[2]);
        lemma_symbol_of_value(t[3]);
        let rest = b64_decode(t.skip(4))->Some_0;
        lemma_b64_canonical(t.skip(4));
        assert(b.len() >= 3);
        assert(b[0] == (v0 << 2) | (v1 >> 4));
        assert(b[1] == ((v1 & 0xf) << 4) | (v2 >> 2));
        assert(b[2] == ((v2 & 0x3) << 6) | v3);
        assert(b.skip(3) =~= rest);
        assert(b64_encode(b) =~= t);
    }
}

/// Unique representation law: a token that decodes to a URL is exactly that
/// URL's token — no two distinct tokens can name one URL, so one cached file
/// per resource is ever possible.
pub proof fn lemma_token_canonical(t: Seq<u8>)
    requires
        url_of(t) is Some,
    ensures
        token_of(url_of(t)->Some_0) == t,
{
    lemma_b64_canonical(t);
    vstd::utf8::decode_utf8_encode_utf8(b64_decode(t)->Some_0);
}

/// Every byte of a token is filesystem-safe.
pub proof fn lemma_b64_encode_fs_safe(s: Seq<u8>)
    ensures
        forall|i: int| 0 <= i < b64_encode(s).len() ==> #[trigger] fs_safe_byte(b64_encode(s)[i]),
    decreases s.len(),
{
    if s.len() == 0 {
    } else if s.len() == 1 {
        lemma_pack1(s[0]);
        lemma_symbol_value_inverse(s[0] >> 2);
        lemma_symbol_value_inverse((s[0] & 0x3) << 4);
    } else if s.len() == 2 {
        lemma_pack2(s[0], s[1]);
        lemma_symbol_value_inverse(s[0] >> 2);
        lemma_symbol_value_inverse(((s[0] & 0x3) << 4) | (s[1] >> 4));
        lemma_symbol_value_inverse((s[1] & 0xf) << 2);
    } else {
        lemma_pack3(s[0], s[1], s[2]);
        lemma_symbol_value_inverse(s[0] >> 2);
        lemma_symbol_value_inverse(((s[0] & 0x3) << 4) | (s[1] >> 4));
        lemma_symbol_value_inverse(((s[1] & 0xf) << 2) | (s[2] >> 6));
        lemma_symbol_value_inverse(s[2] & 0x3f);
        lemma_b64_encode_fs_safe(s.skip(3));
        let t = b64_encode(s);
        let rest = b64_encode(s.skip(3));
        assert forall|i: int| 0 <= i < t.len() implies #[trigger] fs_safe_byte(t[i]) by {
            if i >= 4 {
                assert(t[i] == rest[i - 4]);
            }
        }
    }
}

/// True of the characters a token can show: ASCII letters, digits, `-` and
/// `_` — no path separator, no dot, no padding, nothing a file system objects
/// to in a name.
pub open spec fn fs_safe_char(c: char) -> bool {
    ('0' <= c <= '9') || ('A' <= c <= 'Z') || ('a' <= c <= 'z') || c == '-' || c == '_'
}

/// ASCII bytes decode byte by byte: each becomes the character of its code.
proof fn lemma_ascii_decode_utf8(bytes: Seq<u8>)
    requires
        forall|i: int| 0 <= i < bytes.len() ==> bytes[i] < 0x80,
    ensures
        valid_utf8(bytes),
        decode_utf8(bytes).len() == bytes.len(),
        forall|i: int| 0 <= i < bytes.len() ==> decode_utf8(bytes)[i] == bytes[i] as char,
    decreases bytes.len(),
{
    lemma_ascii_valid_utf8(bytes);
    if bytes.len() == 0 {
    } else {
        let b0 = bytes[0];
        assert(vstd::utf8::is_leading_byte_width_1(b0));
        assert((b0 & 0x7f) == b0) by (bit_vector)
            requires
                b0 < 0x80,
        ;
        let rest = vstd::utf8::pop_first_scalar(bytes);
        assert(rest =~= bytes.skip(1));
        assert forall|i: int| 0 <= i < rest.len() implies rest[i] < 0x80 by {
            assert(rest[i] == bytes[i + 1]);
        }
        lemma_ascii_decode_utf8(rest);
        assert forall|i: int| 0 <= i < bytes.len() implies decode_utf8(bytes)[i] == bytes[i]
            as char by {
            if i > 0 {
                assert(decode_utf8(bytes)[i] == decode_utf8(rest)[i - 1]);
                assert(rest[i - 1] == bytes[i]);
            }
        }
    }
}

/// Filesystem safety law: a token shows only letters, digits, `-` and `_`, so
/// it survives a real file system unescaped, and its first dot — if the store
/// appends an extension — is unambiguously the extension separator.
pub proof fn lemma_token_fs_safe(url: Seq<char>)
    ensures
        decode_utf8(token_of(url)).len() == token_of(url).len(),
        forall|i: int|
            0 <= i < token_of(url).len() ==> fs_safe_char(
                #[trigger] decode_utf8(token_of(url))[i],
            ),
{
    let tb = token_of(url);
    lemma_b64_encode_fs_safe(encode_utf8(url));
    assert forall|i: int| 0 <= i < tb.len() implies tb[i] < 0x80 by {
        assert(fs_safe_byte(tb[i]));
    }
    lemma_ascii_decode_utf8(tb);
    assert forall|i: int| 0 <= i < tb.len() implies fs_safe_char(
        #[trigger] decode_utf8(tb)[i],
    ) by {
        assert(fs_safe_byte(tb[i]));
        assert(decode_utf8(tb)[i] == tb[i] as char);
    }
}

/// A byte string of ASCII bytes alone is valid UTF-8.
proof fn lemma_ascii_valid_utf8(bytes: Seq<u8>)
    requires
        forall|i: int| 0 <= i < bytes.len() ==> bytes[i] < 0x80,
    ensures
        valid_utf8(bytes),
{
    assert(bytes.subrange(0, 0) =~= Seq::<u8>::empty());
    assert(vstd::utf8::partial_valid_utf8(bytes, 0));
    assert forall|i: int|
        0 <= 0 <= i < bytes.len() <= bytes.len() implies #[trigger] vstd::utf8::is_leading_byte_width_1(
        bytes[i],
    ) by {
        assert(bytes[i] < 0x80);
    }
    vstd::utf8::partial_valid_utf8_extend_ascii_block(bytes, 0, bytes.len() as int);
    assert(bytes.subrange(0, bytes.len() as int) =~= bytes);
}

/// Relies on `String::from_utf8`: it returns `Ok` exactly when the bytes are
/// valid UTF-8, and then the string holds their UTF-8 decoding; the error case
/// is collapsed to `None`.
#[verifier::external_body]
fn string_from_utf8(bytes: Vec<u8>) -> (r: Option<String>)
    ensures
        r is Some <==> valid_utf8(bytes@),
        (r matches Some(s) ==> s@ == decode_utf8(bytes@)),
{
    String::from_utf8(bytes).ok()
}

/// The alphabet symbol of a six-bit value.
fn symbol_of(v: u8) -> (r: u8)
    requires
        v < 64,
    ensures
        r == sextet_symbol(v),
{
    if v < 26 {
        v + 65
    } else if v < 52 {
        v + 71
    } else if v < 62 {
        v - 4
    } else if v == 62 {
        45
    } else {
        95
    }
}

/// The six-bit value of an alphabet symbol, `None` off the alphabet.
fn value_of(b: u8) -> (r: Option<u8>)
    ensures
        r == symbol_value(b),
{
    if 65 <= b && b <= 90 {
        Some(b - 65)
    } else if 97 <= b && b <= 122 {
        Some(b - 71)
    } else if 48 <= b && b <= 57 {
        Some(b + 4)
    } else if b == 45 {
        Some(62)
    } else if b == 95 {
        Some(63)
    } else {
        None
    }
}

/// Unfolds the encoding of a suffix with at least three bytes left.
proof fn lemma_encode_step(s: Seq<u8>, i: int)
    requires
        0 <= i,
        i + 3 <= s.len(),
    ensures
        b64_encode(s.skip(i)) == seq![
            sextet_symbol(s[i] >> 2),
            sextet_symbol(((s[i] & 0x3) << 4) | (s[i + 1] >> 4)),
            sextet_symbol(((s[i + 1] & 0xf) << 2) | (s[i + 2] >> 6)),
            sextet_symbol(s[i + 2] & 0x3f),
        ] + b64_encode(s.skip(i + 3)),
{
    assert(s.skip(i).len() >= 3);
    assert(s.skip(i)[0] == s[i]);
    assert(s.skip(i)[1] == s[i + 1]);
    assert(s.skip(i)[2] == s[i + 2]);
    assert(s.skip(i).skip(3) =~= s.skip(i + 3));
}

/// Unfolds the decoding of a suffix with at least four symbols left.
proof fn lemma_decode_step(t: Seq<u8>, i: int)
    requires
        0 <= i,
        i + 4 <= t.len(),
    ensures
        b64_decode(t.skip(i)) == (match (
            symbol_value(t[i]),
            symbol_value(t[i + 1]),
            symbol_value(t[i + 2]),
            symbol_value(t[i + 3]),
        ) {
            (Some(v0), Some(v1), Some(v2), Some(v3)) => match b64_decode(t.skip(i + 4)) {
                Some(rest) => Some(
                    seq![
                        (v0 << 2) | (v1 >> 4),
                        ((v1 & 0xf) << 4) | (v2 >> 2),
                        ((v2 & 0x3) << 6) | v3,
                    ] + rest,
                ),
                None => None::<Seq<u8>>,
            },
            _ => None::<Seq<u8>>,
        }),
{
    assert(t.skip(i).len() >= 4);
    assert(t.skip(i)[0] == t[i]);
    assert(t.skip(i)[1] == t[i + 1]);
    assert(t.skip(i)[2] == t[i + 2]);
    assert(t.skip(i)[3] == t[i + 3]);
    assert(t.skip(i).skip(4) =~= t.skip(i + 4));
}

/// Encodes a URL string to its filesystem-safe token.
pub fn encode(url: &str) -> (r: String)
    ensures
        encode_utf8(r@) == token_of(url@),
        r@ == decode_utf8(token_of(url@)),
{
    let b: &[u8] = url.as_bytes();
    let n: usize = b.len();
    let mut out: Vec<u8> = Vec::new();
    let mut i: usize = 0;
    proof {
        assert(b@.skip(0) =~= b@);
        assert(out@ + b64_encode(b@) =~= b64_encode(b@));
    }
    while n - i >= 3
        invariant
            i <= n,
            n == b@.len(),
            b@ == url.spec_bytes(),
            out@ + b64_encode(b@.skip(i as int)) == b64_encode(b@),
        decreases n - i,
    {
        let s0: u8 = b[i];
        let s1: u8 = b[i + 1];
        let s2: u8 = b[i + 2];
        proof {
            lemma_pack3(s0, s1, s2);
            lemma_encode_step(b@, i as int);
        }
        let ghost prev = out@;
        out.push(symbol_of(s0 >> 2));
        out.push(symbol_of(((s0 & 0x3) << 4) | (s1 >> 4)));
        out.push(symbol_of(((s1 & 0xf) << 2) | (s2 >> 6)));
        out.push(symbol_of(s2 & 0x3f));
        proof {
            assert(out@ =~= prev + seq![
                sextet_symbol(s0 >> 2),
                sextet_symbol(((s0 & 0x3) << 4) | (s1 >> 4)),
                sextet_symbol(((s1 & 0xf) << 2) | (s2 >> 6)),
                sextet_symbol(s2 & 0x3f),
            ]);
            assert(out@ + b64_encode(b@.skip(i + 3 as int)) =~= b64_encode(b@));
        }
        i = i + 3;
    }
    if n - i == 1 {
        let s0: u8 = b[i];
        proof {
            lemma_pack1(s0);
            assert(b@.skip(i as int) =~= seq![s0]);
        }
        let ghost prev = out@;
        out.push(symbol_of(s0 >> 2));
        out.push(symbol_of((s0 & 0x3) << 4));
        proof {
            assert(out@ =~= prev + seq![sextet_symbol(s0 >> 2), sextet_symbol((s0 & 0x3) << 4)]);
        }
    } else if n - i == 2 {
        let s0: u8 = b[i];
        let s1: u8 = b[i + 1];
        proof {
            lemma_pack2(s0, s1);
            assert(b@.skip(i as int) =~= seq![s0, s1]);
        }
        let ghost prev = out@;
        out.push(symbol_of(s0 >> 2));
        out.push(symbol_of(((s0 & 0x3) << 4) | (s1 >> 4)));
        out.push(symbol_of((s1 & 0xf) << 2));
        proof {
            assert(out@ =~= prev + seq![
                sextet_symbol(s0 >> 2),
                sextet_symbol(((s0 & 0x3) << 4) | (s1 >> 4)),
                sextet_symbol((s1 & 0xf) << 2),
            ]);
        }
    } else {
        proof {
            assert(b@.skip(i as int) =~= Seq::<u8>::empty());
        }
    }
    proof {
        assert(out@ =~= b64_encode(b@));
        lemma_b64_encode_fs_safe(b@);
        assert forall|j: int| 0 <= j < out@.len() implies out@[j] < 0x80 by {
            assert(fs_safe_byte(b64_encode(b@)[j]));
        }
        lemma_ascii_valid_utf8(out@);
    }
    let ghost ob = out@;
    match string_from_utf8(out) {
        Some(s) => {
            proof {
                vstd::utf8::decode_utf8_encode_utf8(ob);
            }
            s
        },
        None => vstd::pervasive::unreached(),
    }
}

/// Decodes a token back to the URL string it encodes; fails on any token that
/// `encode` could not have produced.
pub fn decode(token: &str) -> (r: Result<String, DecodeError>)
    ensures
        ({
            let tb = token.spec_bytes();
            match b64_decode(tb) {
                Some(bytes) => if valid_utf8(bytes) {
                    r matches Ok(u) && u@ == decode_utf8(bytes)
                } else {
                    r == Err::<String, DecodeError>(DecodeError::NotUtf8)
                },
                None => r == Err::<String, DecodeError>(DecodeError::Malformed),
            }
        }),
        (r matches Ok(u) ==> url_of(token.spec_bytes()) == Some(u@)),
        (r is Err <==> url_of(token.spec_bytes()) is None),
{
    let tb: &[u8] = token.as_bytes();
    let n: usize = tb.len();
    let mut out: Vec<u8> = Vec::new();
    let mut i: usize = 0;
    proof {
        assert(tb@.skip(0) =~= tb@);
        assert(out@ + b64_decode(tb@)->Some_0 =~= b64_decode(tb@)->Some_0);
    }
    while n - i >= 4
        invariant
            i <= n,
            n == tb@.len(),
            tb@ == token.spec_bytes(),
            b64_decode(tb@) == (match b64_decode(tb@.skip(i as int)) {
                Some(rest) => Some(out@ + rest),
                None => None::<Seq<u8>>,
            }),
        decreases n - i,
    {
        proof {
            lemma_decode_step(tb@, i as int);
        }
        let v0 = match value_of(tb[i]) {
            Some(v) => v,
            None => {
                return Err(DecodeError::Malformed);
            },
        };
        let v1 = match value_of(tb[i + 1]) {
            Some(v) => v,
            None => {
                return Err(DecodeError::Malformed);
            },
        };
        let v2 = match value_of(tb[i + 2]) {
            Some(v) => v,
            None => {
                return Err(DecodeError::Malformed);
            },
        };
        let v3 = match value_of(tb[i + 3]) {
            Some(v) => v,
            None => {
                return Err(DecodeError::Malformed);
            },
        };
        let ghost prev = out@;
        out.push((v0 << 2) | (v1 >> 4));
        out.push(((v1 & 0xf) << 4) | (v2 >> 2));
        out.push(((v2 & 0x3) << 6) | v3);
        proof {
            assert(out@ =~= prev + seq![
                (v0 << 2) | (v1 >> 4),
                ((v1 & 0xf) << 4) | (v2 >> 2),
                ((v2 & 0x3) << 6) | v3,
            ]);
            if b64_decode(tb@.skip(i + 4 as int)) is Some {
                let rest = b64_decode(tb@.skip(i + 4 as int))->Some_0;
                assert(prev + (seq![
                    (v0 << 2) | (v1 >> 4),
                    ((v1 & 0xf) << 4) | (v2 >> 2),
                    ((v2 & 0x3) << 6) | v3,
                ] + rest) =~= out@ + rest);
            }
        }
        i = i + 4;
    }
    if n - i == 1 {
        proof {
            assert(tb@.skip(i as int).len() == 1);
        }
        return Err(DecodeError::Malformed);
    } else if n - i == 2 {
        proof {
            assert(tb@.skip(i as int) =~= seq![tb@[i as int], tb@[i as int + 1]]);
        }
        let v0 = match value_of(tb[i]) {
            Some(v) => v,
            None => {
                return Err(DecodeError::Malformed);
            },
        };
        let v1 = match value_of(tb[i + 1]) {
            Some(v) => v,
            None => {
                return Err(DecodeError::Malformed);
            },
        };
        if v1 & 0xf != 0 {
            return Err(DecodeError::Malformed);
        }
        let ghost prev = out@;
        out.push((v0 << 2) | (v1 >> 4));
        proof {
            assert(out@ =~= prev + seq![(v0 << 2) | (v1 >> 4)]);
        }
    } else if n - i == 3 {
        proof {
            assert(tb@.skip(i as int) =~= seq![
                tb@[i as int],
                tb@[i as int + 1],
                tb@[i as int + 2],
            ]);
        }
        let v0 = match value_of(tb[i]) {
            Some(v) => v,
            None => {
                return Err(DecodeError::Malformed);
            },
        };
        let v1 = match value_of(tb[i + 1]) {
            Some(v) => v,
            None => {
                return Err(DecodeError::Malformed);
            },
        };
        let v2 = match value_of(tb[i + 2]) {
            Some(v) => v,
            None => {
                return Err(DecodeError::Malformed);
            },
        };
        if v2 & 0x3 != 0 {
            return Err(DecodeError::Malformed);
        }
        let ghost prev = out@;
        out.push((v0 << 2) | (v1 >> 4));
        out.push(((v1 & 0xf) << 4) | (v2 >> 2));
        proof {
            assert(out@ =~= prev + seq![(v0 << 2) | (v1 >> 4), ((v1 & 0xf) << 4) | (v2 >> 2)]);
        }
    } else {
        proof {
            assert(tb@.skip(i as int) =~= Seq::<u8>::empty());
        }
    }
    proof {
        assert(b64_decode(tb@) == Some(out@));
    }
    let ghost ob = out@;
    match string_from_utf8(out) {
        Some(u) => Ok(u),
        None => Err(DecodeError::NotUtf8),
    }
}

} // verus!
