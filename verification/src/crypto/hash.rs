//! Domain-separated SHA-256 helpers used for digests and identifiers.

use sha2::{Digest, Sha256};
use vstd::prelude::*;
use vstd::utf8::{encode_utf8, is_ascii_chars, is_ascii_chars_encode_utf8};

use crate::bytes::append;

verus! {

/// The SHA-256 digest of a byte string.
pub uninterp spec fn sha256_of(data: Seq<u8>) -> [u8; 32];

/// Single-shot SHA-256 through `sha2::Sha256::digest`.
///
/// The digest is a function of the input bytes alone; which function is not
/// spelled out here, only named.
#[verifier::external_body]
pub fn sha256(data: &[u8]) -> (r: crate::types::Hash)
    ensures
        r == sha256_of(data@),
{
    Sha256::digest(data).into()
}

/// The parts one after the other.
pub open spec fn joined(parts: Seq<&[u8]>) -> Seq<u8>
    decreases parts.len(),
{
    if parts.len() == 0 {
        Seq::empty()
    } else {
        joined(parts.drop_last()) + parts.last()@
    }
}

/// SHA-256 over the concatenation of `parts`.
pub fn sha256_parts(parts: &[&[u8]]) -> (r: crate::types::Hash)
    ensures
        r == sha256_of(joined(parts@)),
{
    let mut buf: Vec<u8> = Vec::new();
    let mut i: usize = 0;
    while i < parts.len()
        invariant
            i <= parts@.len(),
            buf@ == joined(parts@.take(i as int)),
        decreases parts@.len() - i,
    {
        append(&mut buf, parts[i]);
        proof {
            assert(parts@.take(i + 1).drop_last() =~= parts@.take(i as int));
        }
        i += 1;
    }
    proof {
        assert(parts@.take(i as int) =~= parts@);
    }
    sha256(buf.as_slice())
}

/// The lower-case hexadecimal digit with value `d`.
pub open spec fn hex_digit(d: int) -> char {
    if d < 10 {
        (('0' as int) + d) as char
    } else {
        (('a' as int) + (d - 10)) as char
    }
}

/// Two lower-case hexadecimal digits per byte, high half first.
pub open spec fn hex_text(data: Seq<u8>) -> Seq<char> {
    Seq::new(
        2 * data.len(),
        |i: int|
            if i % 2 == 0 {
                hex_digit((data[i / 2] / 16) as int)
            } else {
                hex_digit((data[i / 2] % 16) as int)
            },
    )
}

/// `hex::encode`: two lower-case hexadecimal digits per byte, high half first.
#[verifier::external_body]
pub(crate) fn hex_encode(data: &[u8]) -> (r: String)
    ensures
        r@ == hex_text(data@),
{
    hex::encode(data)
}

/// Hex encoding of a digest.
pub fn hex_hash(hash: &crate::types::Hash) -> (r: String)
    ensures
        r@ == hex_text(hash@),
{
    hex_encode(hash.as_slice())
}

/// Why a text is no hexadecimal byte string.
#[derive(Clone, Copy, Debug, PartialEq, Eq, Structural)]
pub enum HexFault {
    OddLength,
    InvalidCharacter { c: char, index: usize },
}

/// Whether a byte is a hexadecimal digit.
pub open spec fn is_hex_digit(b: u8) -> bool {
    ||| 0x30 <= b <= 0x39
    ||| 0x41 <= b <= 0x46
    ||| 0x61 <= b <= 0x66
}

/// The value of a hexadecimal digit.
pub open spec fn hex_value(b: u8) -> int {
    if b <= 0x39 {
        b - 0x30
    } else if b <= 0x46 {
        b - 0x41 + 10
    } else {
        b - 0x61 + 10
    }
}

/// The first place from `i` on that holds no hexadecimal digit.
pub open spec fn first_non_hex(s: Seq<u8>, i: int) -> int
    decreases s.len() - i,
{
    if 0 <= i < s.len() && is_hex_digit(s[i]) {
        first_non_hex(s, i + 1)
    } else {
        i
    }
}

/// The bytes that a hexadecimal text spells.
pub open spec fn unhexed(s: Seq<u8>) -> Result<Seq<u8>, HexFault> {
    let bad = first_non_hex(s, 0);
    if s.len() % 2 != 0 {
        Err(HexFault::OddLength)
    } else if bad < s.len() {
        Err(HexFault::InvalidCharacter { c: s[bad] as char, index: bad as usize })
    } else {
        Ok(
            Seq::new(
                s.len() / 2,
                |i: int| (16 * hex_value(s[2 * i]) + hex_value(s[2 * i + 1])) as u8,
            ),
        )
    }
}

/// `hex::decode`: two digits per byte, high half first, in either case. An odd
/// number of digits is reported before a character that is no digit, and of those
/// the first.
#[verifier::external_body]
pub(crate) fn hex_decode(data: &[u8]) -> (r: Result<Vec<u8>, HexFault>)
    ensures
        match r {
            Ok(v) => unhexed(data@) == Ok::<Seq<u8>, HexFault>(v@),
            Err(e) => unhexed(data@) == Err::<Seq<u8>, HexFault>(e),
        },
{
    match hex::decode(data) {
        Ok(v) => Ok(v),
        Err(hex::FromHexError::InvalidHexCharacter { c, index }) => Err(
            HexFault::InvalidCharacter { c, index },
        ),
        Err(_) => Err(HexFault::OddLength),
    }
}

proof fn lemma_all_hex(s: Seq<u8>, i: int)
    requires
        0 <= i <= s.len(),
        forall|k: int| 0 <= k < s.len() ==> is_hex_digit(#[trigger] s[k]),
    ensures
        first_non_hex(s, i) == s.len(),
    decreases s.len() - i,
{
    if i < s.len() {
        lemma_all_hex(s, i + 1);
    }
}

/// Decoding hexadecimal text gives the bytes that were encoded.
pub proof fn law_hex_round_trip(data: Seq<u8>)
    ensures
        is_ascii_chars(hex_text(data)),
        unhexed(encode_utf8(hex_text(data))) == Ok::<Seq<u8>, HexFault>(data),
{
    let t = hex_text(data);
    assert forall|i: int| 0 <= i < t.len() implies 0 <= #[trigger] t[i] as nat && t[i] as nat
        <= 127 by {}
    is_ascii_chars_encode_utf8(t);
    let b = encode_utf8(t);
    assert forall|k: int| 0 <= k < b.len() implies is_hex_digit(#[trigger] b[k]) by {
        assert(b[k] == t[k] as u8);
    }
    lemma_all_hex(b, 0);
    assert forall|i: int| 0 <= i < data.len() implies (16 * hex_value(b[2 * i]) + hex_value(
        b[2 * i + 1],
    )) as u8 == #[trigger] data[i] by {
        let x = data[i];
        assert(b[2 * i] == t[2 * i] as u8);
        assert(b[2 * i + 1] == t[2 * i + 1] as u8);
        assert((2 * i) / 2 == i && (2 * i + 1) / 2 == i && (2 * i) % 2 == 0 && (2 * i + 1) % 2
            == 1);
        assert(16 * (x / 16) + x % 16 == x);
    }
    assert(unhexed(b)->Ok_0 =~= data);
}

} // verus!
