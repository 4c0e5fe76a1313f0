//! Bech32 (BIP-173) for the KRON display address (`kron1…`), with the generator words of
//! this network.
//!
//! Ledger keys stay raw 32-byte addresses; this is display and parsing only.

use vstd::arithmetic::power2::{lemma_pow2_adds, lemma_pow2_pos, pow2};
use vstd::prelude::*;
use vstd::utf8::{encode_utf8, is_ascii_chars, is_ascii_chars_encode_utf8};

use crate::bytes::{append, array32, be_value};
use crate::text::{chars_of, decimal, decimal_text, is_white, push_chars, text_of, white};

verus! {

/// Human-readable part. With the separator it yields `kron1`.
pub const HRP: &'static str = "kron";

/// Length of a complete `kron1…` address.
pub const KRON1_LEN: usize = 63;

#[derive(Clone, Copy, Debug, PartialEq, Eq, Structural)]
pub enum Bech32Error {
    Empty,
    MixedCase,
    MissingSeparator,
    InvalidHrp,
    InvalidCharset,
    InvalidChecksum,
    InvalidPadding,
    InvalidPayloadLength,
}

impl Bech32Error {
    /// The text of the error.
    pub open spec fn spec_message(&self) -> Seq<char> {
        match self {
            Bech32Error::Empty => "empty bech32 string"@,
            Bech32Error::MixedCase => "mixed-case bech32 is invalid"@,
            Bech32Error::MissingSeparator => "bech32 missing separator '1'"@,
            Bech32Error::InvalidHrp => "bech32 HRP must be 'kron'"@,
            Bech32Error::InvalidCharset => "bech32 character not in charset"@,
            Bech32Error::InvalidChecksum =>
                "bech32 checksum mismatch (a kron1 address is 63 characters on one line)"@,
            Bech32Error::InvalidPadding => "bech32 bit-conversion padding invalid"@,
            Bech32Error::InvalidPayloadLength => "bech32 payload is not 32 bytes"@,
        }
    }

    /// The error as a line of text.
    pub fn message(&self) -> (r: &'static str)
        ensures
            r@ == self.spec_message(),
    {
        match self {
            Bech32Error::Empty => "empty bech32 string",
            Bech32Error::MixedCase => "mixed-case bech32 is invalid",
            Bech32Error::MissingSeparator => "bech32 missing separator '1'",
            Bech32Error::InvalidHrp => "bech32 HRP must be 'kron'",
            Bech32Error::InvalidCharset => "bech32 character not in charset",
            Bech32Error::InvalidChecksum =>
                "bech32 checksum mismatch (a kron1 address is 63 characters on one line)",
            Bech32Error::InvalidPadding => "bech32 bit-conversion padding invalid",
            Bech32Error::InvalidPayloadLength => "bech32 payload is not 32 bytes",
        }
    }

    /// What the command line prints for this error on `input`.
    pub open spec fn cli_text(&self, input: Seq<char>) -> Seq<char> {
        self.spec_message() + ": got "@ + decimal_text(input.len())
            + " of 63 characters; paste the whole kron1 address on one line"@
    }

    /// The error with the length of what was typed.
    pub fn cli_message(&self, input: &str) -> (r: String)
        ensures
            r@ == self.cli_text(input@),
    {
        let chars = chars_of(input);
        let mut out = String::new();
        push_chars(&mut out, chars_of(self.message()).as_slice());
        push_chars(&mut out, chars_of(": got ").as_slice());
        push_chars(&mut out, decimal(chars.len() as u64).as_slice());
        push_chars(
            &mut out,
            chars_of(" of 63 characters; paste the whole kron1 address on one line").as_slice(),
        );
        assert(out@ =~= self.cli_text(input@));
        out
    }
}

/// White space and zero-width marks, which a wrapped paste may carry.
pub open spec fn is_filler(c: char) -> bool {
    ||| is_white(c)
    ||| 0x200b <= c as int <= 0x200d
    ||| c as int == 0x2060
    ||| c as int == 0xfeff
}

fn filler(c: char) -> (r: bool)
    ensures
        r == is_filler(c),
{
    let n: u32 = c as u32;
    white(c) || (0x200b <= n && n <= 0x200d) || n == 0x2060 || n == 0xfeff
}

/// `s` without fillers.
pub open spec fn without_fillers(s: Seq<char>) -> Seq<char> {
    s.filter(|c: char| !is_filler(c))
}

/// Strips white space, newlines, and zero-width marks.
pub fn normalize_bech32_input(s: &str) -> (r: String)
    ensures
        r@ == without_fillers(s@),
{
    let chars = chars_of(s);
    let mut kept: Vec<char> = Vec::new();
    let mut i: usize = 0;
    assert(without_fillers(chars@.take(0)) =~= Seq::<char>::empty()) by {
        reveal(Seq::filter);
    }
    while i < chars.len()
        invariant
            i <= chars@.len(),
            kept@ == without_fillers(chars@.take(i as int)),
        decreases chars@.len() - i,
    {
        let c = chars[i];
        proof {
            assert(chars@.take(i + 1) =~= chars@.take(i as int).push(c));
            chars@.take(i as int).lemma_filter_push(c, |c: char| !is_filler(c));
        }
        if !filler(c) {
            kept.push(c);
        }
        i += 1;
    }
    assert(chars@.take(i as int) =~= chars@);
    text_of(kept.as_slice())
}

/// One step of the checksum: shift in the 5-bit value `v`.
pub open spec fn polymod_step(chk: u32, v: u32) -> u32 {
    let b = chk >> 25u32;
    let c0 = ((chk & 0x1ffffffu32) << 5u32) ^ v;
    let c1 = if b & 1u32 == 1u32 { c0 ^ 0x3b6a57b2u32 } else { c0 };
    let c2 = if (b >> 1u32) & 1u32 == 1u32 { c1 ^ 0x26508e1du32 } else { c1 };
    let c3 = if (b >> 2u32) & 1u32 == 1u32 { c2 ^ 0x1ea119fau32 } else { c2 };
    let c4 = if (b >> 3u32) & 1u32 == 1u32 { c3 ^ 0x3d4233ddu32 } else { c3 };
    if (b >> 4u32) & 1u32 == 1u32 { c4 ^ 0x2a1462b3u32 } else { c4 }
}

/// The checksum of a string of 5-bit values.
pub open spec fn polymod_of(values: Seq<u8>) -> u32
    decreases values.len(),
{
    if values.len() == 0 {
        1
    } else {
        polymod_step(polymod_of(values.drop_last()), values.last() as u32)
    }
}

fn polymod(values: &[u8]) -> (r: u32)
    ensures
        r == polymod_of(values@),
{
    let mut chk: u32 = 1;
    let mut i: usize = 0;
    while i < values.len()
        invariant
            i <= values@.len(),
            chk == polymod_of(values@.take(i as int)),
        decreases values@.len() - i,
    {
        let v: u32 = values[i] as u32;
        let b: u32 = chk >> 25u32;
        let mut c: u32 = ((chk & 0x1ffffffu32) << 5u32) ^ v;
        if b & 1u32 == 1u32 {
            c = c ^ 0x3b6a57b2u32;
        }
        if (b >> 1u32) & 1u32 == 1u32 {
            c = c ^ 0x26508e1du32;
        }
        if (b >> 2u32) & 1u32 == 1u32 {
            c = c ^ 0x1ea119fau32;
        }
        if (b >> 3u32) & 1u32 == 1u32 {
            c = c ^ 0x3d4233ddu32;
        }
        if (b >> 4u32) & 1u32 == 1u32 {
            c = c ^ 0x2a1462b3u32;
        }
        proof {
            assert(values@.take(i + 1).drop_last() =~= values@.take(i as int));
        }
        chk = c;
        i += 1;
    }
    assert(values@.take(i as int) =~= values@);
    chk
}

/// The bytes of `kron`.
pub open spec fn hrp_bytes() -> Seq<u8> {
    seq![0x6bu8, 0x72u8, 0x6fu8, 0x6eu8]
}

/// What the human-readable part contributes to the checksum: the high bits of
/// each byte, a zero, the low bits of each byte.
pub open spec fn hrp_values() -> Seq<u8> {
    Seq::new(4, |i: int| (hrp_bytes()[i] / 32) as u8) + seq![0u8] + Seq::new(
        4,
        |i: int| (hrp_bytes()[i] % 32) as u8,
    )
}

fn hrp_expand() -> (r: Vec<u8>)
    ensures
        r@ == hrp_values(),
{
    let hrp = [0x6bu8, 0x72u8, 0x6fu8, 0x6eu8];
    let mut out: Vec<u8> = Vec::new();
    let mut i: usize = 0;
    while i < 4
        invariant
            i <= 4,
            hrp@ =~= hrp_bytes(),
            out@.len() == i,
            forall|k: int| 0 <= k < i ==> #[trigger] out@[k] == hrp_bytes()[k] / 32,
        decreases 4 - i,
    {
        out.push(hrp[i] / 32);
        i += 1;
    }
    out.push(0);
    let mut j: usize = 0;
    while j < 4
        invariant
            j <= 4,
            hrp@ =~= hrp_bytes(),
            out@.len() == 5 + j,
            forall|k: int| 0 <= k < 4 ==> #[trigger] out@[k] == hrp_bytes()[k] / 32,
            out@[4] == 0,
            forall|k: int| 5 <= k < 5 + j ==> #[trigger] out@[k] == hrp_bytes()[k - 5] % 32,
        decreases 4 - j,
    {
        out.push(hrp[j] % 32);
        j += 1;
    }
    assert(out@ =~= hrp_values());
    out
}

pub open spec fn six_zeros() -> Seq<u8> {
    seq![0u8, 0u8, 0u8, 0u8, 0u8, 0u8]
}

/// The 5-bit group `i` (of six, most significant first) of a 30-bit number.
pub open spec fn group5(p: u32, i: int) -> u8 {
    if i == 0 {
        ((p >> 25u32) & 31u32) as u8
    } else if i == 1 {
        ((p >> 20u32) & 31u32) as u8
    } else if i == 2 {
        ((p >> 15u32) & 31u32) as u8
    } else if i == 3 {
        ((p >> 10u32) & 31u32) as u8
    } else if i == 4 {
        ((p >> 5u32) & 31u32) as u8
    } else {
        (p & 31u32) as u8
    }
}

/// The six checksum values of a data part.
pub open spec fn checksum_of(data: Seq<u8>) -> Seq<u8> {
    let p = polymod_of(hrp_values() + data + six_zeros()) ^ 1u32;
    Seq::new(6, |i: int| group5(p, i))
}

fn create_checksum(data: &[u8]) -> (r: Vec<u8>)
    ensures
        r@ == checksum_of(data@),
{
    let mut values = hrp_expand();
    append(&mut values, data);
    let zeros = [0u8, 0u8, 0u8, 0u8, 0u8, 0u8];
    assert(zeros@ =~= six_zeros());
    append(&mut values, zeros.as_slice());
    let p: u32 = polymod(values.as_slice()) ^ 1u32;
    let mut out: Vec<u8> = Vec::new();
    out.push(((p >> 25u32) & 31u32) as u8);
    out.push(((p >> 20u32) & 31u32) as u8);
    out.push(((p >> 15u32) & 31u32) as u8);
    out.push(((p >> 10u32) & 31u32) as u8);
    out.push(((p >> 5u32) & 31u32) as u8);
    out.push((p & 31u32) as u8);
    assert(out@ =~= checksum_of(data@));
    out
}

/// Whether data part plus checksum values hash to one.
pub open spec fn checksum_holds(data: Seq<u8>) -> bool {
    polymod_of(hrp_values() + data) == 1
}

fn verify_checksum(data: &[u8]) -> (r: bool)
    ensures
        r == checksum_holds(data@),
{
    let mut values = hrp_expand();
    append(&mut values, data);
    polymod(values.as_slice()) == 1
}

/// A difference in the low 25 bits of the state passes through a step as a
/// plain shift.
proof fn lemma_step_linear(a: u32, d: u32, v: u32)
    requires
        d < 0x2000000,
        v < 32,
    ensures
        polymod_step(a ^ d, v) == polymod_step(a, 0) ^ ((d << 5u32) ^ v),
{
    assert(d < 0x2000000 && v < 32 ==> polymod_step(a ^ d, v) == polymod_step(a, 0) ^ ((d << 5u32)
        ^ v)) by (bit_vector);
}

/// Six steps that shift in `c` differ from six zero steps by `c` packed into
/// 30 bits.
proof fn lemma_six_steps(pre: Seq<u8>, p: u32)
    requires
        p == polymod_of(pre + six_zeros()) ^ 1u32,
    ensures
        polymod_of(pre + Seq::new(6, |i: int| group5(p, i))) == 1,
{
    let z = six_zeros();
    let c = Seq::new(6, |i: int| group5(p, i));
    let s0 = polymod_of(pre);
    let z1 = polymod_step(s0, 0);
    let z2 = polymod_step(z1, 0);
    let z3 = polymod_step(z2, 0);
    let z4 = polymod_step(z3, 0);
    let z5 = polymod_step(z4, 0);
    let z6 = polymod_step(z5, 0);
    assert(polymod_of(pre + z) == z6) by {
        lemma_last_six(pre, z);
    }
    let c0 = c[0] as u32;
    let c1 = c[1] as u32;
    let c2 = c[2] as u32;
    let c3 = c[3] as u32;
    let c4 = c[4] as u32;
    let c5 = c[5] as u32;
    assert((p >> 25u32) & 31u32 < 32 && (p >> 20u32) & 31u32 < 32 && (p >> 15u32) & 31u32 < 32 && (p
        >> 10u32) & 31u32 < 32 && (p >> 5u32) & 31u32 < 32 && p & 31u32 < 32) by (bit_vector);
    assert(c0 == (p >> 25u32) & 31u32);
    assert(c1 == (p >> 20u32) & 31u32);
    assert(c2 == (p >> 15u32) & 31u32);
    assert(c3 == (p >> 10u32) & 31u32);
    assert(c4 == (p >> 5u32) & 31u32);
    assert(c5 == p & 31u32);
    let d1 = c0;
    let d2 = (d1 << 5u32) ^ c1;
    let d3 = (d2 << 5u32) ^ c2;
    let d4 = (d3 << 5u32) ^ c3;
    let d5 = (d4 << 5u32) ^ c4;
    let d6 = (d5 << 5u32) ^ c5;
    assert(d1 < 32 && d2 < 0x400 && d3 < 0x8000 && d4 < 0x100000 && d5 < 0x2000000 && d6 == p
        & 0x3fffffffu32) by (bit_vector)
        requires
            c0 == (p >> 25u32) & 31u32,
            c1 == (p >> 20u32) & 31u32,
            c2 == (p >> 15u32) & 31u32,
            c3 == (p >> 10u32) & 31u32,
            c4 == (p >> 5u32) & 31u32,
            c5 == p & 31u32,
            d1 == c0,
            d2 == (d1 << 5u32) ^ c1,
            d3 == (d2 << 5u32) ^ c2,
            d4 == (d3 << 5u32) ^ c3,
            d5 == (d4 << 5u32) ^ c4,
            d6 == (d5 << 5u32) ^ c5,
    ;
    assert(s0 ^ 0u32 == s0 && (0u32 << 5u32) ^ c0 == c0) by (bit_vector);
    lemma_step_linear(s0, 0, c0);
    lemma_step_linear(z1, d1, c1);
    lemma_step_linear(z2, d2, c2);
    lemma_step_linear(z3, d3, c3);
    lemma_step_linear(z4, d4, c4);
    lemma_step_linear(z5, d5, c5);
    assert(polymod_of(pre + c) == z6 ^ d6) by {
        lemma_last_six(pre, c);
    }
    assert(polymod_step(z5, 0) < 0x40000000) by (bit_vector);
    assert(z6 ^ d6 == 1) by (bit_vector)
        requires
            z6 < 0x40000000,
            p == z6 ^ 1u32,
            d6 == p & 0x3fffffffu32,
    ;
}

proof fn lemma_last_six(pre: Seq<u8>, c: Seq<u8>)
    requires
        c.len() == 6,
    ensures
        polymod_of(pre + c) == polymod_step(
            polymod_step(
                polymod_step(
                    polymod_step(
                        polymod_step(polymod_step(polymod_of(pre), c[0] as u32), c[1] as u32),
                        c[2] as u32,
                    ),
                    c[3] as u32,
                ),
                c[4] as u32,
            ),
            c[5] as u32,
        ),
{
    let s = pre + c;
    assert(s.drop_last() =~= pre + c.take(5));
    assert((pre + c.take(5)).drop_last() =~= pre + c.take(4));
    assert((pre + c.take(4)).drop_last() =~= pre + c.take(3));
    assert((pre + c.take(3)).drop_last() =~= pre + c.take(2));
    assert((pre + c.take(2)).drop_last() =~= pre + c.take(1));
    assert((pre + c.take(1)).drop_last() =~= pre);
    reveal_with_fuel(polymod_of, 7);
}

/// Every data part with its checksum appended passes verification.
pub proof fn law_checksum_verifies(data: Seq<u8>)
    ensures
        checksum_holds(data + checksum_of(data)),
{
    let p = polymod_of(hrp_values() + data + six_zeros()) ^ 1u32;
    lemma_six_steps(hrp_values() + data, p);
    assert(hrp_values() + (data + checksum_of(data)) =~= hrp_values() + data + checksum_of(data));
}

/// The number that `s` spells in `base`, most significant digit first.
pub open spec fn digits_value(s: Seq<u8>, base: nat) -> nat
    decreases s.len(),
{
    if s.len() == 0 {
        0
    } else {
        base * digits_value(s.drop_last(), base) + s.last() as nat
    }
}

/// The `len` lowest digits of `v` in `base`, most significant first.
pub open spec fn digits_of(v: nat, base: nat, len: nat) -> Seq<u8>
    decreases len,
{
    if len == 0 {
        Seq::empty()
    } else {
        digits_of(v / base, base, (len - 1) as nat).push((v % base) as u8)
    }
}

pub open spec fn all_below(s: Seq<u8>, base: nat) -> bool {
    forall|i: int| 0 <= i < s.len() ==> (#[trigger] s[i] as nat) < base
}

/// Digits are recovered from the number they spell.
proof fn lemma_digits_recovered(s: Seq<u8>, base: nat)
    requires
        2 <= base <= 256,
        all_below(s, base),
    ensures
        digits_of(digits_value(s, base), base, s.len()) == s,
    decreases s.len(),
{
    if s.len() > 0 {
        let h = s.drop_last();
        assert(all_below(h, base)) by {
            assert forall|i: int| 0 <= i < h.len() implies (#[trigger] h[i] as nat) < base by {
                assert(h[i] == s[i]);
            }
        }
        lemma_digits_recovered(h, base);
        let v = digits_value(h, base);
        let d = s.last() as nat;
        assert((s[s.len() - 1] as nat) < base);
        vstd::arithmetic::div_mod::lemma_fundamental_div_mod_converse(
            (base * v + d) as int,
            base as int,
            v as int,
            d as int,
        );
        assert(s =~= h.push(s.last()));
    } else {
        assert(s =~= Seq::<u8>::empty());
    }
}

proof fn lemma_digits_of_props(v: nat, base: nat, len: nat)
    requires
        2 <= base <= 256,
    ensures
        digits_of(v, base, len).len() == len,
        all_below(digits_of(v, base, len), base),
    decreases len,
{
    if len > 0 {
        lemma_digits_of_props(v / base, base, (len - 1) as nat);
        let h = digits_of(v / base, base, (len - 1) as nat);
        let s = digits_of(v, base, len);
        assert(v % base < base) by (nonlinear_arith)
            requires
                base >= 2,
        ;
        assert forall|i: int| 0 <= i < s.len() implies (#[trigger] s[i] as nat) < base by {
            if i < len - 1 {
                assert(s[i] == h[i]);
            }
        }
    }
}

/// `base` to the power `n`.
pub open spec fn power_of(base: nat, n: nat) -> nat
    decreases n,
{
    if n == 0 {
        1
    } else {
        base * power_of(base, (n - 1) as nat)
    }
}

/// A number below `base^len` is spelled by its `len` digits.
proof fn lemma_value_recovered(v: nat, base: nat, len: nat)
    requires
        2 <= base <= 256,
        v < power_of(base, len),
    ensures
        digits_value(digits_of(v, base, len), base) == v,
    decreases len,
{
    if len > 0 {
        let p = power_of(base, (len - 1) as nat);
        vstd::arithmetic::div_mod::lemma_fundamental_div_mod(v as int, base as int);
        assert(v / base < p) by (nonlinear_arith)
            requires
                v < base * p,
                base >= 2,
        ;
        assert(v % base < base) by (nonlinear_arith)
            requires
                base >= 2,
        ;
        lemma_value_recovered(v / base, base, (len - 1) as nat);
        assert(digits_of(v, base, len).drop_last() =~= digits_of(
            v / base,
            base,
            (len - 1) as nat,
        ));
    }
}

fn small_power(n: u32) -> (r: u32)
    requires
        n <= 16,
    ensures
        r == pow2(n as nat),
{
    let mut r: u32 = 1;
    let mut i: u32 = 0;
    proof {
        vstd::arithmetic::power2::lemma2_to64();
    }
    while i < n
        invariant
            i <= n <= 16,
            r == pow2(i as nat),
        decreases n - i,
    {
        proof {
            vstd::arithmetic::power2::lemma2_to64();
            vstd::arithmetic::power2::lemma_pow2_unfold((i + 1) as nat);
            if i + 1 < 16 {
                vstd::arithmetic::power2::lemma_pow2_strictly_increases((i + 1) as nat, 16);
            }
        }
        r = r * 2;
        i += 1;
    }
    r
}

/// Bits that are left over when `n` groups of `from` bits are regrouped by `to`.
pub open spec fn leftover(n: nat, from: nat, to: nat) -> nat {
    (n * from) % to
}

/// The regrouping of `data` from `from`-bit to `to`-bit groups.
///
/// With padding the last group is filled with zero bits. Without, the left-over
/// bits must be fewer than a source group and all zero, and are dropped.
pub open spec fn regrouped(data: Seq<u8>, from: nat, to: nat, pad: bool) -> Option<Seq<u8>> {
    let v = digits_value(data, pow2(from));
    let left = leftover(data.len(), from, to);
    let full = (data.len() * from) / to;
    if !all_below(data, pow2(from)) {
        None
    } else if pad {
        if left == 0 {
            Some(digits_of(v, pow2(to), full))
        } else {
            Some(digits_of(v * pow2((to - left) as nat), pow2(to), full + 1))
        }
    } else if left < from && v % pow2(left) == 0 {
        Some(digits_of(v / pow2(left), pow2(to), full))
    } else {
        None
    }
}

proof fn lemma_group_in(w: nat, p: nat, f: nat, acc: nat, v: nat, x: nat)
    requires
        w * p + acc == x,
        acc < p,
        v < f,
    ensures
        w * (p * f) + (acc * f + v) == f * x + v,
        acc * f + v < p * f,
{
    assert(w * (p * f) + acc * f == f * (w * p + acc)) by (nonlinear_arith);
    assert(acc * f + v < p * f) by (nonlinear_arith)
        requires
            acc + 1 <= p,
            v < f,
    ;
}

proof fn lemma_group_out(w: nat, b: nat, p: nat, acc: nat)
    requires
        acc < b * p,
        p > 0,
    ensures
        acc / p < b,
        (b * w + acc / p) * p + acc % p == w * (b * p) + acc,
        acc % p < p,
{
    vstd::arithmetic::div_mod::lemma_fundamental_div_mod(acc as int, p as int);
    assert(acc / p < b) by (nonlinear_arith)
        requires
            acc < b * p,
            p > 0,
    ;
    let d = acc / p;
    assert((b * w + d) * p == w * (b * p) + p * d) by (nonlinear_arith);
    assert(acc % p < p) by (nonlinear_arith)
        requires
            p > 0,
    ;
}

/// Regroups bits.
fn convert_bits(data: &[u8], from: u32, to: u32, pad: bool) -> (r: Option<Vec<u8>>)
    requires
        1 <= from <= 8,
        1 <= to <= 8,
    ensures
        match r {
            Some(out) => regrouped(data@, from as nat, to as nat, pad) == Some(out@),
            None => regrouped(data@, from as nat, to as nat, pad) is None,
        },
{
    let from_base: u32 = small_power(from);
    let to_base: u32 = small_power(to);
    proof {
        vstd::arithmetic::power2::lemma2_to64();
        if from < 8 {
            vstd::arithmetic::power2::lemma_pow2_strictly_increases(from as nat, 8);
        }
        if to < 8 {
            vstd::arithmetic::power2::lemma_pow2_strictly_increases(to as nat, 8);
        }
        if 1 < to {
            vstd::arithmetic::power2::lemma_pow2_strictly_increases(1, to as nat);
        }
        if 1 < from {
            vstd::arithmetic::power2::lemma_pow2_strictly_increases(1, from as nat);
        }
    }
    let ghost fb = pow2(from as nat);
    let ghost tb = pow2(to as nat);
    let mut acc: u32 = 0;
    let mut bits: u32 = 0;
    let mut out: Vec<u8> = Vec::new();
    let mut i: usize = 0;
    while i < data.len()
        invariant
            1 <= from <= 8,
            1 <= to <= 8,
            fb == pow2(from as nat),
            tb == pow2(to as nat),
            from_base == fb,
            to_base == tb,
            2 <= fb <= 256,
            2 <= tb <= 256,
            i <= data@.len(),
            bits < to,
            acc < pow2(bits as nat),
            digits_value(out@, tb) * pow2(bits as nat) + acc == digits_value(
                data@.take(i as int),
                fb,
            ),
            all_below(data@.take(i as int), fb),
            all_below(out@, tb),
            out@.len() * to + bits == i * from,
        decreases data@.len() - i,
    {
        let v: u32 = data[i] as u32;
        let ghost prev = data@.take(i as int);
        let ghost cur = data@.take(i + 1);
        assert(cur.drop_last() =~= prev);
        if v >= from_base {
            assert(!(all_below(data@, fb))) by {
                assert(data@[i as int] as nat >= fb);
            }
            return None;
        }
        assert(all_below(cur, fb)) by {
            assert forall|k: int| 0 <= k < cur.len() implies (#[trigger] cur[k] as nat) < fb by {
                if k < i {
                    assert(cur[k] == prev[k]);
                }
            }
        }
        proof {
            lemma_pow2_adds(bits as nat, from as nat);
            lemma_group_in(
                digits_value(out@, tb),
                pow2(bits as nat),
                fb,
                acc as nat,
                v as nat,
                digits_value(prev, fb),
            );
            vstd::arithmetic::power2::lemma2_to64();
            if bits + from < 16 {
                vstd::arithmetic::power2::lemma_pow2_strictly_increases((bits + from) as nat, 16);
            }
            assert(acc * from_base <= acc * 256) by (nonlinear_arith)
                requires
                    from_base <= 256,
            ;
            if bits < 8 {
                vstd::arithmetic::power2::lemma_pow2_strictly_increases(bits as nat, 8);
            }
        }
        acc = acc * from_base + v;
        bits = bits + from;
        proof {
            assert(i * from + from == (i + 1) * from) by (nonlinear_arith);
        }
        while bits >= to
            invariant
                1 <= from <= 8,
                1 <= to <= 8,
                fb == pow2(from as nat),
                tb == pow2(to as nat),
                to_base == tb,
                2 <= tb <= 256,
                bits <= 16,
                acc < pow2(bits as nat),
                digits_value(out@, tb) * pow2(bits as nat) + acc == digits_value(cur, fb),
                all_below(out@, tb),
                out@.len() * to + bits == (i + 1) * from,
            decreases bits,
        {
            let ghost bits0 = bits;
            bits = bits - to;
            let p: u32 = small_power(bits);
            proof {
                lemma_pow2_pos(bits as nat);
                lemma_pow2_adds(to as nat, bits as nat);
                lemma_group_out(digits_value(out@, tb), tb, p as nat, acc as nat);
            }
            let ghost before = out@;
            let d: u32 = acc / p;
            out.push(d as u8);
            acc = acc % p;
            proof {
                assert(out@.drop_last() =~= before);
                assert(all_below(out@, tb)) by {
                    assert forall|k: int| 0 <= k < out@.len() implies (#[trigger] out@[k] as nat) < tb by {
                        if k < before.len() {
                            assert(out@[k] == before[k]);
                        }
                    }
                }
                assert((before.len() + 1) * to == before.len() * to + to) by (nonlinear_arith);
            }
        }
        i += 1;
    }
    proof {
        assert(data@.take(i as int) =~= data@);
        let v = digits_value(data@, fb);
        let w = digits_value(out@, tb);
        let n = (data@.len() * from) as int;
        vstd::arithmetic::div_mod::lemma_fundamental_div_mod_converse(
            n,
            to as int,
            out@.len() as int,
            bits as int,
        );
        assert(leftover(data@.len(), from as nat, to as nat) == bits);
        lemma_pow2_pos(bits as nat);
        assert(pow2(bits as nat) * w == w * pow2(bits as nat)) by (nonlinear_arith);
        vstd::arithmetic::div_mod::lemma_fundamental_div_mod_converse(
            v as int,
            pow2(bits as nat) as int,
            w as int,
            acc as int,
        );
        lemma_digits_recovered(out@, tb);
    }
    if pad {
        if bits > 0 {
            let q: u32 = small_power(to - bits);
            let ghost before = out@;
            proof {
                let w = digits_value(before, tb);
                lemma_pow2_adds(bits as nat, (to - bits) as nat);
                let p = pow2(bits as nat);
                assert(acc * q < p * q) by (nonlinear_arith)
                    requires
                        acc < p,
                        q > 0,
                ;
                assert((w * p + acc) * q == tb * w + acc * q) by (nonlinear_arith)
                    requires
                        tb == p * q,
                ;
            }
            let last: u32 = acc * q;
            out.push(last as u8);
            proof {
                assert(out@.drop_last() =~= before);
                assert(all_below(out@, tb)) by {
                    assert forall|k: int| 0 <= k < out@.len() implies (#[trigger] out@[k] as nat) < tb by {
                        if k < before.len() {
                            assert(out@[k] == before[k]);
                        }
                    }
                }
                lemma_digits_recovered(out@, tb);
            }
        } else {
            proof {
                vstd::arithmetic::power2::lemma2_to64();
                let w = digits_value(out@, tb);
                let one = pow2(bits as nat);
                assert(w * one == w) by (nonlinear_arith)
                    requires
                        one == 1,
                ;
            }
        }
    } else if bits >= from || acc != 0 {
        return None;
    }
    Some(out)
}

/// The character (as a byte) that stands for the 5-bit value `d`.
pub open spec fn symbol(d: int) -> u8 {
    if d == 0 { 0x71 } else if d == 1 { 0x70 } else if d == 2 { 0x7a } else if d == 3 { 0x72 }
    else if d == 4 { 0x79 } else if d == 5 { 0x39 } else if d == 6 { 0x78 } else if d == 7 { 0x38 }
    else if d == 8 { 0x67 } else if d == 9 { 0x66 } else if d == 10 { 0x32 } else if d == 11 { 0x74 }
    else if d == 12 { 0x76 } else if d == 13 { 0x64 } else if d == 14 { 0x77 } else if d == 15 { 0x30 }
    else if d == 16 { 0x73 } else if d == 17 { 0x33 } else if d == 18 { 0x6a } else if d == 19 { 0x6e }
    else if d == 20 { 0x35 } else if d == 21 { 0x34 } else if d == 22 { 0x6b } else if d == 23 { 0x68 }
    else if d == 24 { 0x63 } else if d == 25 { 0x65 } else if d == 26 { 0x36 } else if d == 27 { 0x6d }
    else if d == 28 { 0x75 } else if d == 29 { 0x61 } else if d == 30 { 0x37 } else { 0x6c }
}

fn charset_symbol(d: u8) -> (r: u8)
    requires
        d < 32,
    ensures
        r == symbol(d as int),
{
    let set = [
        0x71u8, 0x70, 0x7a, 0x72, 0x79, 0x39, 0x78, 0x38, 0x67, 0x66, 0x32, 0x74, 0x76, 0x64, 0x77,
        0x30, 0x73, 0x33, 0x6a, 0x6e, 0x35, 0x34, 0x6b, 0x68, 0x63, 0x65, 0x36, 0x6d, 0x75, 0x61,
        0x37, 0x6c,
    ];
    set[d as usize]
}

proof fn lemma_symbol_injective(a: int, b: int)
    requires
        0 <= a < 32,
        0 <= b < 32,
        symbol(a) == symbol(b),
    ensures
        a == b,
{
}

/// No symbol is `1` or a capital letter; all are ASCII.
proof fn lemma_symbol_range(d: int)
    requires
        0 <= d < 32,
    ensures
        symbol(d) != 0x31,
        symbol(d) < 0x80,
        !(0x41 <= symbol(d) <= 0x5a),
{
}

/// Whether `c` is in the character set.
pub open spec fn in_charset(c: u8) -> bool {
    exists|d: int| 0 <= d < 32 && #[trigger] symbol(d) == c
}

/// The value of a character of the set.
pub open spec fn symbol_value(c: u8) -> u8 {
    (choose|d: int| 0 <= d < 32 && #[trigger] symbol(d) == c) as u8
}

fn charset_index(c: u8) -> (r: Option<u8>)
    ensures
        match r {
            Some(d) => d < 32 && in_charset(c) && d == symbol_value(c),
            None => !in_charset(c),
        },
{
    let mut d: u8 = 0;
    while d < 32
        invariant
            d <= 32,
            forall|k: int| 0 <= k < d ==> #[trigger] symbol(k) != c,
        decreases 32 - d,
    {
        if charset_symbol(d) == c {
            proof {
                let k = choose|k: int| 0 <= k < 32 && #[trigger] symbol(k) == c;
                assert(symbol(d as int) == c);
                lemma_symbol_injective(k, d as int);
            }
            return Some(d);
        }
        d += 1;
    }
    None
}

/// The 5-bit data part of a payload.
pub open spec fn data_part(payload: Seq<u8>) -> Seq<u8> {
    digits_of(be_value(payload) * 16, 32, 52)
}

/// The characters of a data part with its checksum.
pub open spec fn symbols(values: Seq<u8>) -> Seq<char> {
    values.map_values(|d: u8| symbol(d as int) as char)
}

pub open spec fn kron1_prefix() -> Seq<char> {
    seq!['k', 'r', 'o', 'n', '1']
}

/// The `kron1…` text of a 32-byte payload.
pub open spec fn kron_text(payload: Seq<u8>) -> Seq<char> {
    kron1_prefix() + symbols(data_part(payload) + checksum_of(data_part(payload)))
}

proof fn lemma_be_is_base_256(s: Seq<u8>)
    ensures
        be_value(s) == digits_value(s, 256),
    decreases s.len(),
{
    if s.len() > 0 {
        lemma_be_is_base_256(s.drop_last());
    }
}

proof fn lemma_pow2_small()
    ensures
        pow2(4) == 16,
        pow2(5) == 32,
        pow2(8) == 256,
        pow2(0) == 1,
{
    vstd::arithmetic::power2::lemma2_to64();
}

proof fn lemma_payload_regroups(payload: Seq<u8>)
    requires
        payload.len() == 32,
    ensures
        regrouped(payload, 8, 5, true) == Some(data_part(payload)),
        data_part(payload).len() == 52,
        all_below(data_part(payload), 32),
        all_below(checksum_of(data_part(payload)), 32),
        checksum_of(data_part(payload)).len() == 6,
{
    lemma_pow2_small();
    lemma_be_is_base_256(payload);
    assert(all_below(payload, 256));
    lemma_digits_of_props(be_value(payload) * 16, 32, 52);
    let c = checksum_of(data_part(payload));
    let p = polymod_of(hrp_values() + data_part(payload) + six_zeros()) ^ 1u32;
    assert((p >> 25u32) & 31u32 < 32 && (p >> 20u32) & 31u32 < 32 && (p >> 15u32) & 31u32 < 32 && (p
        >> 10u32) & 31u32 < 32 && (p >> 5u32) & 31u32 < 32 && p & 31u32 < 32) by (bit_vector);
    assert forall|i: int| 0 <= i < c.len() implies (#[trigger] c[i] as nat) < 32 by {
        assert(c[i] == group5(p, i));
    }
}

/// Encodes a 32-byte address as `kron1…`.
pub fn encode_kron(payload: &[u8; 32]) -> (r: String)
    ensures
        r@ == kron_text(payload@),
        r@.len() == KRON1_LEN,
{
    proof {
        lemma_payload_regroups(payload@);
    }
    let mut values = match convert_bits(payload.as_slice(), 8, 5, true) {
        Some(d) => d,
        None => Vec::new(),
    };
    let checksum = create_checksum(values.as_slice());
    append(&mut values, checksum.as_slice());
    let ghost all = values@;
    let mut out: Vec<char> = Vec::new();
    out.push('k');
    out.push('r');
    out.push('o');
    out.push('n');
    out.push('1');
    let mut i: usize = 0;
    assert(out@ =~= kron1_prefix() + symbols(all.take(0)));
    assert(all_below(all, 32)) by {
        let d = data_part(payload@);
        let c = checksum_of(d);
        assert forall|k: int| 0 <= k < all.len() implies (#[trigger] all[k] as nat) < 32 by {
            if k < 52 {
                assert(all[k] == d[k]);
            } else {
                assert(all[k] == c[k - 52]);
            }
        }
    }
    while i < values.len()
        invariant
            i <= values@.len(),
            values@ == all,
            all_below(all, 32),
            out@ == kron1_prefix() + symbols(all.take(i as int)),
        decreases values@.len() - i,
    {
        assert((all[i as int] as nat) < 32);
        out.push(charset_symbol(values[i]) as char);
        i += 1;
        assert(out@ =~= kron1_prefix() + symbols(all.take(i as int)));
    }
    assert(all.take(i as int) =~= all);
    text_of(out.as_slice())
}

pub open spec fn is_lower_byte(b: u8) -> bool {
    0x61 <= b <= 0x7a
}

pub open spec fn is_upper_byte(b: u8) -> bool {
    0x41 <= b <= 0x5a
}

/// `b` with an ASCII capital turned to lower case.
pub open spec fn lower_byte(b: u8) -> u8 {
    if is_upper_byte(b) {
        (b + 32) as u8
    } else {
        b
    }
}

pub open spec fn lower_bytes(s: Seq<u8>) -> Seq<u8> {
    s.map_values(|b: u8| lower_byte(b))
}

/// Index of the last `1`, or -1.
pub open spec fn last_separator(s: Seq<u8>) -> int
    decreases s.len(),
{
    if s.len() == 0 {
        -1
    } else if s.last() == 0x31 {
        s.len() - 1
    } else {
        last_separator(s.drop_last())
    }
}

/// The payload that a text spells, or what is wrong with the text.
pub open spec fn decoded(s: Seq<u8>) -> Result<Seq<u8>, Bech32Error> {
    let low = lower_bytes(s);
    let sep = last_separator(low);
    let part = low.skip(sep + 1);
    let data = part.map_values(|c: u8| symbol_value(c));
    if s.len() == 0 {
        Err(Bech32Error::Empty)
    } else if (exists|i: int| 0 <= i < s.len() && is_lower_byte(#[trigger] s[i])) && (exists|i: int|
        0 <= i < s.len() && is_upper_byte(#[trigger] s[i])) {
        Err(Bech32Error::MixedCase)
    } else if sep < 0 {
        Err(Bech32Error::MissingSeparator)
    } else if sep == 0 || sep + 7 > s.len() || low.take(sep) != hrp_bytes() {
        Err(Bech32Error::InvalidHrp)
    } else if exists|i: int| 0 <= i < part.len() && !in_charset(#[trigger] part[i]) {
        Err(Bech32Error::InvalidCharset)
    } else if !checksum_holds(data) {
        Err(Bech32Error::InvalidChecksum)
    } else {
        match regrouped(data.take(data.len() - 6), 5, 8, false) {
            None => Err(Bech32Error::InvalidPadding),
            Some(b) => if b.len() != 32 {
                Err(Bech32Error::InvalidPayloadLength)
            } else {
                Ok(b)
            },
        }
    }
}

fn symbol_values(part: &[u8]) -> (r: Option<Vec<u8>>)
    ensures
        match r {
            Some(data) => data@ == part@.map_values(|c: u8| symbol_value(c)) && (forall|k: int|
                0 <= k < part@.len() ==> in_charset(#[trigger] part@[k])),
            None => exists|k: int| 0 <= k < part@.len() && !in_charset(#[trigger] part@[k]),
        },
{
    let mut data: Vec<u8> = Vec::new();
    let mut j: usize = 0;
    while j < part.len()
        invariant
            j <= part@.len(),
            data@.len() == j,
            forall|k: int| 0 <= k < j ==> in_charset(#[trigger] part@[k]),
            forall|k: int| 0 <= k < j ==> #[trigger] data@[k] == symbol_value(part@[k]),
        decreases part@.len() - j,
    {
        match charset_index(part[j]) {
            Some(d) => {
                data.push(d);
            },
            None => {
                return None;
            },
        }
        j += 1;
    }
    assert(data@ =~= part@.map_values(|c: u8| symbol_value(c)));
    Some(data)
}

/// Decodes a `kron1…` string to its 32-byte payload.
pub fn decode_kron(s: &str) -> (r: Result<[u8; 32], Bech32Error>)
    ensures
        match r {
            Ok(p) => decoded(encode_utf8(s@)) == Ok::<Seq<u8>, Bech32Error>(p@),
            Err(e) => decoded(encode_utf8(s@)) == Err::<Seq<u8>, Bech32Error>(e),
        },
{
    let raw = s.as_bytes();
    let ghost b = raw@;
    if raw.len() == 0 {
        return Err(Bech32Error::Empty);
    }
    let mut has_lower = false;
    let mut has_upper = false;
    let mut low: Vec<u8> = Vec::new();
    let mut sep: usize = raw.len();
    let mut i: usize = 0;
    while i < raw.len()
        invariant
            i <= b.len(),
            b == raw@,
            has_lower == (exists|k: int| 0 <= k < i && is_lower_byte(#[trigger] b[k])),
            has_upper == (exists|k: int| 0 <= k < i && is_upper_byte(#[trigger] b[k])),
            low@ == lower_bytes(b.take(i as int)),
            sep == b.len() || sep < i,
            last_separator(low@) == (if sep == b.len() {
                -1
            } else {
                sep as int
            }),
        decreases b.len() - i,
    {
        let c: u8 = raw[i];
        assert(b[i as int] == c);
        let ghost before = low@;
        let mut l: u8 = c;
        if 0x61 <= c && c <= 0x7a {
            has_lower = true;
        }
        if 0x41 <= c && c <= 0x5a {
            has_upper = true;
            l = c + 32;
        }
        low.push(l);
        if l == 0x31 {
            sep = i;
        }
        proof {
            assert(low@ =~= lower_bytes(b.take(i + 1)));
            assert(low@.drop_last() =~= before);
        }
        i += 1;
    }
    proof {
        assert(b.take(i as int) =~= b);
    }
    if has_lower && has_upper {
        return Err(Bech32Error::MixedCase);
    }
    if sep == raw.len() {
        return Err(Bech32Error::MissingSeparator);
    }
    if sep == 0 || raw.len() - sep < 7 {
        return Err(Bech32Error::InvalidHrp);
    }
    let hrp = [0x6bu8, 0x72u8, 0x6fu8, 0x6eu8];
    let head = vstd::slice::slice_subrange(low.as_slice(), 0, sep);
    proof {
        assert(hrp@ =~= hrp_bytes());
        assert(head@ =~= low@.take(sep as int));
    }
    if !crate::bytes::slices_equal(head, hrp.as_slice()) {
        return Err(Bech32Error::InvalidHrp);
    }
    let part = vstd::slice::slice_subrange(low.as_slice(), sep + 1, low.len());
    assert(part@ =~= low@.skip(sep + 1));
    let data = match symbol_values(part) {
        Some(d) => d,
        None => {
            return Err(Bech32Error::InvalidCharset);
        },
    };
    if !verify_checksum(data.as_slice()) {
        return Err(Bech32Error::InvalidChecksum);
    }
    let payload = vstd::slice::slice_subrange(data.as_slice(), 0, data.len() - 6);
    assert(payload@ =~= data@.take(data@.len() - 6));
    match convert_bits(payload, 5, 8, false) {
        None => Err(Bech32Error::InvalidPadding),
        Some(bytes) => {
            if bytes.len() != 32 {
                return Err(Bech32Error::InvalidPayloadLength);
            }
            let out = array32(bytes.as_slice(), 0);
            assert(out@ =~= bytes@);
            Ok(out)
        },
    }
}

proof fn lemma_no_separator_after(s: Seq<u8>, i: int)
    requires
        0 <= i < s.len(),
        s[i] == 0x31,
        forall|k: int| i < k < s.len() ==> #[trigger] s[k] != 0x31,
    ensures
        last_separator(s) == i,
    decreases s.len(),
{
    if i < s.len() - 1 {
        assert(s[s.len() - 1] != 0x31);
        assert forall|k: int| i < k < s.drop_last().len() implies #[trigger] s.drop_last()[k] != 0x31 by {
            assert(s[k] != 0x31);
        }
        lemma_no_separator_after(s.drop_last(), i);
    }
}

/// Decoding undoes encoding, for every payload: the text is 63 characters,
/// begins with `kron1`, and spells the payload it was made from.
pub proof fn law_kron_round_trip(payload: Seq<u8>)
    requires
        payload.len() == 32,
    ensures
        kron_text(payload).len() == KRON1_LEN,
        kron_text(payload).take(5) == kron1_prefix(),
        decoded(encode_utf8(kron_text(payload))) == Ok::<Seq<u8>, Bech32Error>(payload),
{
    let t = kron_text(payload);
    let d5 = data_part(payload);
    let ck = checksum_of(d5);
    let all = d5 + ck;
    lemma_payload_regroups(payload);
    assert(all_below(all, 32)) by {
        assert forall|k: int| 0 <= k < all.len() implies (#[trigger] all[k] as nat) < 32 by {
            if k < 52 {
                assert(all[k] == d5[k]);
            } else {
                assert(all[k] == ck[k - 52]);
            }
        }
    }
    assert(t.take(5) =~= kron1_prefix());
    assert forall|i: int| 5 <= i < t.len() implies #[trigger] t[i] == symbol(all[i - 5] as int) as char
        && symbol(all[i - 5] as int) < 0x80 by {
        assert((all[i - 5] as nat) < 32);
        lemma_symbol_range(all[i - 5] as int);
    }
    assert(is_ascii_chars(t)) by {
        assert forall|i: int| 0 <= i < t.len() implies (0 <= t[i] as int) && (t[i] as int) < 0x80 by {
            if i < 5 {
                assert(t[i] == kron1_prefix()[i]);
            } else {
                assert(t[i] == symbol(all[i - 5] as int) as char);
            }
        }
    }
    is_ascii_chars_encode_utf8(t);
    let b = encode_utf8(t);
    assert(b.len() == 63);
    assert forall|i: int| 5 <= i < 63 implies #[trigger] b[i] == symbol(all[i - 5] as int) by {
        assert(t[i] == symbol(all[i - 5] as int) as char);
        assert((all[i - 5] as nat) < 32);
        lemma_symbol_range(all[i - 5] as int);
    }
    assert forall|i: int| 0 <= i < 5 implies #[trigger] b[i] == kron1_prefix()[i] as u8 by {
        assert(t[i] == kron1_prefix()[i]);
    }
    assert(b[0] == 0x6b && b[1] == 0x72 && b[2] == 0x6f && b[3] == 0x6e && b[4] == 0x31);
    assert forall|i: int| 0 <= i < b.len() implies !is_upper_byte(#[trigger] b[i]) by {
        if i >= 5 {
            assert((all[i - 5] as nat) < 32);
            lemma_symbol_range(all[i - 5] as int);
        }
    }
    assert(lower_bytes(b) =~= b);
    assert forall|k: int| 4 < k < b.len() implies #[trigger] b[k] != 0x31 by {
        assert((all[k - 5] as nat) < 32);
        lemma_symbol_range(all[k - 5] as int);
    }
    lemma_no_separator_after(b, 4);
    assert(b.take(4) =~= hrp_bytes());
    let part = b.skip(5);
    assert forall|k: int| 0 <= k < part.len() implies in_charset(#[trigger] part[k]) && symbol_value(
        part[k],
    ) == all[k] by {
        assert(part[k] == b[k + 5]);
        assert((all[k] as nat) < 32);
        assert(symbol(all[k] as int) == part[k]);
        let d = choose|d: int| 0 <= d < 32 && #[trigger] symbol(d) == part[k];
        lemma_symbol_injective(d, all[k] as int);
    }
    let data = part.map_values(|c: u8| symbol_value(c));
    assert(data =~= all);
    law_checksum_verifies(d5);
    assert(data.take(data.len() - 6) =~= d5);
    // Regrouping the data part drops the four padding bits again.
    lemma_pow2_small();
    let v = be_value(payload);
    lemma_be_is_base_256(payload);
    lemma_value_bound(payload);
    lemma_power_256_32();
    lemma_value_recovered(v * 16, 32, 52);
    assert((v * 16) % 16 == 0);
    assert((v * 16) / 16 == v);
    assert(all_below(payload, 256));
    lemma_digits_recovered(payload, 256);
    assert(leftover(52, 5, 8) == 4);
    assert(regrouped(d5, 5, 8, false) == Some(payload));
}

proof fn lemma_value_bound(s: Seq<u8>)
    ensures
        digits_value(s, 256) < power_of(256, s.len()),
    decreases s.len(),
{
    if s.len() > 0 {
        lemma_value_bound(s.drop_last());
    }
}

proof fn lemma_power_256_32()
    ensures
        power_of(256, 32) * 16 == power_of(32, 52),
{
    reveal_with_fuel(power_of, 53);
}

/// No character of a `kron1…` text is a filler, so stripping leaves it alone.
pub proof fn lemma_kron_text_has_no_filler(payload: Seq<u8>)
    requires
        payload.len() == 32,
    ensures
        without_fillers(kron_text(payload)) == kron_text(payload),
{
    let t = kron_text(payload);
    let all = data_part(payload) + checksum_of(data_part(payload));
    lemma_payload_regroups(payload);
    assert forall|i: int| 0 <= i < t.len() implies !is_filler(#[trigger] t[i]) by {
        if i < 5 {
            assert(t[i] == kron1_prefix()[i]);
        } else {
            let d = all[i - 5] as int;
            assert(t[i] == symbol(d) as char);
            assert(0x30 <= symbol(d) <= 0x7a);
        }
    }
    lemma_filter_keeps_all(t);
}

/// Behind `kron1` a text holds symbols alone: digits and small letters.
pub proof fn lemma_kron_text_is_plain(payload: Seq<u8>, i: int)
    requires
        payload.len() == 32,
        5 <= i < KRON1_LEN,
    ensures
        0x30 <= kron_text(payload)[i] as u32 <= 0x7a,
        kron_text(payload)[i] != '`',
{
    let all = data_part(payload) + checksum_of(data_part(payload));
    lemma_payload_regroups(payload);
    let d = all[i - 5] as int;
    assert(kron_text(payload)[i] == symbol(d) as char);
    assert(0x30 <= symbol(d) <= 0x7a && symbol(d) != 0x60);
}

proof fn lemma_filter_keeps_all(t: Seq<char>)
    requires
        forall|i: int| 0 <= i < t.len() ==> !is_filler(#[trigger] t[i]),
    ensures
        without_fillers(t) == t,
    decreases t.len(),
{
    reveal(Seq::filter);
    if t.len() > 0 {
        let h = t.drop_last();
        assert forall|i: int| 0 <= i < h.len() implies !is_filler(#[trigger] h[i]) by {
            assert(h[i] == t[i]);
        }
        lemma_filter_keeps_all(h);
        assert(!is_filler(t[t.len() - 1]));
        assert(t =~= h.push(t.last()));
    } else {
        assert(without_fillers(t) =~= t);
    }
}

/// Six 5-bit values in 30 bits, the first one highest.
spec fn packed(c0: u32, c1: u32, c2: u32, c3: u32, c4: u32, c5: u32) -> u32 {
    (((((((((c0 << 5u32) ^ c1) << 5u32) ^ c2) << 5u32) ^ c3) << 5u32) ^ c4) << 5u32) ^ c5
}

/// Six values in place of six zeros change the checksum by what they are, packed.
proof fn lemma_packed_in(pre: Seq<u8>, c: Seq<u8>)
    requires
        c.len() == 6,
        all_below(c, 32),
    ensures
        polymod_of(pre + c) == polymod_of(pre + six_zeros()) ^ packed(
            c[0] as u32,
            c[1] as u32,
            c[2] as u32,
            c[3] as u32,
            c[4] as u32,
            c[5] as u32,
        ),
{
    let s0 = polymod_of(pre);
    let z1 = polymod_step(s0, 0);
    let z2 = polymod_step(z1, 0);
    let z3 = polymod_step(z2, 0);
    let z4 = polymod_step(z3, 0);
    let z5 = polymod_step(z4, 0);
    lemma_last_six(pre, six_zeros());
    lemma_last_six(pre, c);
    let c0 = c[0] as u32;
    let c1 = c[1] as u32;
    let c2 = c[2] as u32;
    let c3 = c[3] as u32;
    let c4 = c[4] as u32;
    let c5 = c[5] as u32;
    let d2 = (c0 << 5u32) ^ c1;
    let d3 = (d2 << 5u32) ^ c2;
    let d4 = (d3 << 5u32) ^ c3;
    let d5 = (d4 << 5u32) ^ c4;
    assert(d2 < 0x400 && d3 < 0x8000 && d4 < 0x100000 && d5 < 0x2000000) by (bit_vector)
        requires
            c0 < 32,
            c1 < 32,
            c2 < 32,
            c3 < 32,
            c4 < 32,
            d2 == (c0 << 5u32) ^ c1,
            d3 == (d2 << 5u32) ^ c2,
            d4 == (d3 << 5u32) ^ c3,
            d5 == (d4 << 5u32) ^ c4,
    ;
    assert(s0 ^ 0u32 == s0 && (0u32 << 5u32) ^ c0 == c0) by (bit_vector);
    lemma_step_linear(s0, 0, c0);
    lemma_step_linear(z1, c0, c1);
    lemma_step_linear(z2, d2, c2);
    lemma_step_linear(z3, d3, c3);
    lemma_step_linear(z4, d4, c4);
    lemma_step_linear(z5, d5, c5);
}

/// A data part has one checksum: no other six values pass verification.
pub proof fn law_checksum_is_unique(data: Seq<u8>, c: Seq<u8>)
    requires
        c.len() == 6,
        all_below(c, 32),
        checksum_holds(data + c),
    ensures
        c == checksum_of(data),
{
    let pre = hrp_values() + data;
    let k = checksum_of(data);
    law_checksum_verifies(data);
    lemma_checksum_values(data);
    lemma_packed_in(pre, c);
    lemma_packed_in(pre, k);
    assert(hrp_values() + (data + c) =~= pre + c);
    assert(hrp_values() + (data + k) =~= pre + k);
    let z = polymod_of(pre + six_zeros());
    let c0 = c[0] as u32;
    let c1 = c[1] as u32;
    let c2 = c[2] as u32;
    let c3 = c[3] as u32;
    let c4 = c[4] as u32;
    let c5 = c[5] as u32;
    let k0 = k[0] as u32;
    let k1 = k[1] as u32;
    let k2 = k[2] as u32;
    let k3 = k[3] as u32;
    let k4 = k[4] as u32;
    let k5 = k[5] as u32;
    assert(c0 == k0 && c1 == k1 && c2 == k2 && c3 == k3 && c4 == k4 && c5 == k5) by (bit_vector)
        requires
            c0 < 32,
            c1 < 32,
            c2 < 32,
            c3 < 32,
            c4 < 32,
            c5 < 32,
            k0 < 32,
            k1 < 32,
            k2 < 32,
            k3 < 32,
            k4 < 32,
            k5 < 32,
            z ^ packed(c0, c1, c2, c3, c4, c5) == 1,
            z ^ packed(k0, k1, k2, k3, k4, k5) == 1,
    ;
    assert(c =~= k);
}

proof fn lemma_checksum_values(data: Seq<u8>)
    ensures
        checksum_of(data).len() == 6,
        all_below(checksum_of(data), 32),
{
    let c = checksum_of(data);
    let p = polymod_of(hrp_values() + data + six_zeros()) ^ 1u32;
    assert((p >> 25u32) & 31u32 < 32 && (p >> 20u32) & 31u32 < 32 && (p >> 15u32) & 31u32 < 32 && (p
        >> 10u32) & 31u32 < 32 && (p >> 5u32) & 31u32 < 32 && p & 31u32 < 32) by (bit_vector);
    assert forall|i: int| 0 <= i < c.len() implies (#[trigger] c[i] as nat) < 32 by {
        assert(c[i] == group5(p, i));
    }
}

/// The generator word `g` where bit `i` of the state's high bits is set.
spec fn word_of(chk: u32, i: u32, g: u32) -> u32 {
    if ((chk >> 25u32) >> i) & 1u32 == 1u32 {
        g
    } else {
        0u32
    }
}

/// A step of the checksum as a sum: the state shifted on, the value, and a word for each
/// high bit.
spec fn summed_step(chk: u32, v: u32) -> u32 {
    ((chk & 0x1ffffffu32) << 5u32) ^ v ^ word_of(chk, 0u32, 0x3b6a57b2u32) ^ word_of(
        chk,
        1u32,
        0x26508e1du32,
    ) ^ word_of(chk, 2u32, 0x1ea119fau32) ^ word_of(chk, 3u32, 0x3d4233ddu32) ^ word_of(
        chk,
        4u32,
        0x2a1462b3u32,
    )
}

proof fn lemma_step_parts(chk: u32, v: u32)
    ensures
        polymod_step(chk, v) == summed_step(chk, v),
{
    let b = chk >> 25u32;
    assert(b >> 0u32 == b) by (bit_vector);
    assert(forall|y: u32| #[trigger] (y ^ 0u32) == y) by (bit_vector);
}

/// A difference `d` of the checksum after `n` further steps.
spec fn spread(d: u32, n: nat) -> u32
    decreases n,
{
    if n == 0 {
        d
    } else {
        polymod_step(spread(d, (n - 1) as nat), 0)
    }
}

/// A difference of one 5-bit value never fades.
proof fn lemma_spread_stays(d: u32, n: nat)
    requires
        0 < d < 32,
    ensures
        spread(d, n) != 0,
    decreases n,
{
    reveal_with_fuel(spread, 4);
    if n <= 2 {
        let s1 = polymod_step(d, 0);
        let s2 = polymod_step(s1, 0);
        lemma_step_parts(d, 0);
        lemma_step_parts(s1, 0);
        assert(s1 != 0 && s2 != 0) by (bit_vector)
            requires
                0 < d < 32,
                s1 == summed_step(d, 0),
                s2 == summed_step(s1, 0),
        ;
    } else {
        lemma_spread_stays(d, (n - 1) as nat);
        let w = spread(d, (n - 3) as nat);
        lemma_spread_range(d, (n - 3) as nat);
        let s1 = polymod_step(w, 0);
        let s2 = polymod_step(s1, 0);
        let s3 = polymod_step(s2, 0);
        lemma_step_parts(w, 0);
        lemma_step_parts(s1, 0);
        lemma_step_parts(s2, 0);
        assert(s3 == 0 ==> s2 == 0) by (bit_vector)
            requires
                w < 0x40000000,
                s1 == summed_step(w, 0),
                s2 == summed_step(s1, 0),
                s3 == summed_step(s2, 0),
        ;
    }
}

proof fn lemma_spread_range(d: u32, n: nat)
    requires
        d < 32,
    ensures
        spread(d, n) < 0x40000000,
{
    if n > 0 {
        let w = spread(d, (n - 1) as nat);
        lemma_step_parts(w, 0);
        assert(summed_step(w, 0) < 0x40000000) by (bit_vector);
    }
}

proof fn lemma_word_adds(a: u32, d: u32, i: u32, g: u32)
    ensures
        word_of(a ^ d, i, g) == word_of(a, i, g) ^ word_of(d, i, g),
{
    assert(word_of(a ^ d, i, g) == word_of(a, i, g) ^ word_of(d, i, g)) by (bit_vector);
}

/// A step takes the sum of two states to the sum of what it takes them to.
proof fn lemma_step_adds(a: u32, d: u32, v: u32)
    ensures
        polymod_step(a ^ d, v) == polymod_step(a, v) ^ polymod_step(d, 0),
{
    lemma_step_parts(a ^ d, v);
    lemma_step_parts(a, v);
    lemma_step_parts(d, 0);
    lemma_word_adds(a, d, 0, 0x3b6a57b2u32);
    lemma_word_adds(a, d, 1, 0x26508e1du32);
    lemma_word_adds(a, d, 2, 0x1ea119fau32);
    lemma_word_adds(a, d, 3, 0x3d4233ddu32);
    lemma_word_adds(a, d, 4, 0x2a1462b3u32);
    let p = (a & 0x1ffffffu32) << 5u32;
    let q = (d & 0x1ffffffu32) << 5u32;
    assert(((a ^ d) & 0x1ffffffu32) << 5u32 == ((a & 0x1ffffffu32) << 5u32) ^ ((d & 0x1ffffffu32)
        << 5u32)) by (bit_vector);
    let a0 = word_of(a, 0, 0x3b6a57b2u32);
    let a1 = word_of(a, 1, 0x26508e1du32);
    let a2 = word_of(a, 2, 0x1ea119fau32);
    let a3 = word_of(a, 3, 0x3d4233ddu32);
    let a4 = word_of(a, 4, 0x2a1462b3u32);
    let d0 = word_of(d, 0, 0x3b6a57b2u32);
    let d1 = word_of(d, 1, 0x26508e1du32);
    let d2 = word_of(d, 2, 0x1ea119fau32);
    let d3 = word_of(d, 3, 0x3d4233ddu32);
    let d4 = word_of(d, 4, 0x2a1462b3u32);
    assert((p ^ q) ^ v ^ (a0 ^ d0) ^ (a1 ^ d1) ^ (a2 ^ d2) ^ (a3 ^ d3) ^ (a4 ^ d4) == (p ^ v ^ a0
        ^ a1 ^ a2 ^ a3 ^ a4) ^ (q ^ 0u32 ^ d0 ^ d1 ^ d2 ^ d3 ^ d4)) by (bit_vector);
}

/// One changed value changes the checksum by its difference, spread over the steps behind
/// it.
proof fn lemma_one_change_spreads(s: Seq<u8>, i: int, d: u8)
    requires
        0 <= i < s.len(),
    ensures
        polymod_of(s.update(i, d)) == polymod_of(s) ^ spread(
            s[i] as u32 ^ d as u32,
            (s.len() - 1 - i) as nat,
        ),
    decreases s.len(),
{
    let h = s.drop_last();
    let t = s.update(i, d);
    let c = polymod_of(h);
    let v = s.last() as u32;
    if i == s.len() - 1 {
        let x = d as u32;
        assert(t.drop_last() =~= h);
        lemma_step_parts(c, x);
        lemma_step_parts(c, v);
        assert(summed_step(c, x) == summed_step(c, v) ^ (v ^ x)) by (bit_vector);
    } else {
        lemma_one_change_spreads(h, i, d);
        assert(t.drop_last() =~= h.update(i, d));
        let e = spread(s[i] as u32 ^ d as u32, (h.len() - 1 - i) as nat);
        lemma_step_adds(c, e, v);
    }
}

/// One changed value changes the checksum.
proof fn lemma_one_change_shows(s: Seq<u8>, i: int, d: u8)
    requires
        0 <= i < s.len(),
        s[i] < 32,
        d < 32,
        d != s[i],
    ensures
        polymod_of(s.update(i, d)) != polymod_of(s),
{
    let x = s[i] as u32;
    let y = d as u32;
    assert(x < 32 && y < 32 && x != y ==> 0 < x ^ y && x ^ y < 32) by (bit_vector);
    lemma_one_change_spreads(s, i, d);
    lemma_spread_stays(x ^ y, (s.len() - 1 - i) as nat);
    let c = polymod_of(s);
    let e = spread(x ^ y, (s.len() - 1 - i) as nat);
    assert(e != 0 ==> c ^ e != c) by (bit_vector);
}

/// The bytes that spell 5-bit values behind `kron1`.
spec fn spelled(all: Seq<u8>) -> Seq<u8> {
    hrp_bytes() + seq![0x31u8] + all.map_values(|d: u8| symbol(d as int))
}

/// What a text of lower case makes of the values it spells: the checksum decides first.
proof fn lemma_spelled_decodes(all: Seq<u8>)
    requires
        all.len() >= 6,
        all_below(all, 32),
    ensures
        decoded(spelled(all)) == (if !checksum_holds(all) {
            Err(Bech32Error::InvalidChecksum)
        } else {
            match regrouped(all.take(all.len() - 6), 5, 8, false) {
                None => Err(Bech32Error::InvalidPadding),
                Some(b) => if b.len() != 32 {
                    Err(Bech32Error::InvalidPayloadLength)
                } else {
                    Ok(b)
                },
            }
        }),
        lower_bytes(spelled(all)) == spelled(all),
{
    let b = spelled(all);
    assert forall|i: int| 5 <= i < b.len() implies #[trigger] b[i] == symbol(all[i - 5] as int)
        && b[i] != 0x31 && !is_upper_byte(b[i]) by {
        assert((all[i - 5] as nat) < 32);
        lemma_symbol_range(all[i - 5] as int);
    }
    assert(b[0] == 0x6b && b[1] == 0x72 && b[2] == 0x6f && b[3] == 0x6e && b[4] == 0x31);
    assert forall|i: int| 0 <= i < b.len() implies !is_upper_byte(#[trigger] b[i]) by {}
    assert(lower_bytes(b) =~= b);
    lemma_no_separator_after(b, 4);
    assert(b.take(4) =~= hrp_bytes());
    let part = b.skip(5);
    assert forall|k: int| 0 <= k < part.len() implies in_charset(#[trigger] part[k]) && symbol_value(
        part[k],
    ) == all[k] by {
        assert(part[k] == b[k + 5]);
        assert((all[k] as nat) < 32);
        assert(symbol(all[k] as int) == part[k]);
        let d = choose|d: int| 0 <= d < 32 && #[trigger] symbol(d) == part[k];
        lemma_symbol_injective(d, all[k] as int);
    }
    assert(part.map_values(|c: u8| symbol_value(c)) =~= all);
}

/// The text of 5-bit values is ASCII, and its bytes are those that spell them.
proof fn lemma_text_spells(all: Seq<u8>)
    requires
        all_below(all, 32),
    ensures
        encode_utf8(kron1_prefix() + symbols(all)) == spelled(all),
        is_ascii_chars(kron1_prefix() + symbols(all)),
{
    let t = kron1_prefix() + symbols(all);
    assert forall|i: int| 5 <= i < t.len() implies #[trigger] t[i] == symbol(all[i - 5] as int) as char
        && symbol(all[i - 5] as int) < 0x80 by {
        assert((all[i - 5] as nat) < 32);
        lemma_symbol_range(all[i - 5] as int);
    }
    assert forall|i: int| 0 <= i < t.len() implies (0 <= t[i] as int) && (t[i] as int) < 0x80 by {
        if i < 5 {
            assert(t[i] == kron1_prefix()[i]);
        } else {
            assert(t[i] == symbol(all[i - 5] as int) as char);
        }
    }
    assert(is_ascii_chars(t));
    is_ascii_chars_encode_utf8(t);
    let b = encode_utf8(t);
    assert forall|i: int| 0 <= i < b.len() implies #[trigger] b[i] == spelled(all)[i] by {
        if i < 5 {
            assert(t[i] == kron1_prefix()[i]);
        } else {
            assert(t[i] == symbol(all[i - 5] as int) as char);
            assert((all[i - 5] as nat) < 32);
            lemma_symbol_range(all[i - 5] as int);
        }
    }
    assert(b =~= spelled(all));
}

/// One character of an address that is replaced by another one of the character set is
/// always caught by the checksum.
pub proof fn law_one_wrong_character_is_caught(payload: Seq<u8>, i: int, c: char)
    requires
        payload.len() == 32,
        5 <= i < KRON1_LEN,
        (c as u32) < 0x80,
        in_charset(c as u8),
        c != kron_text(payload)[i],
    ensures
        decoded(encode_utf8(kron_text(payload).update(i, c))) == Err::<Seq<u8>, Bech32Error>(
            Bech32Error::InvalidChecksum,
        ),
{
    let d5 = data_part(payload);
    let all = d5 + checksum_of(d5);
    lemma_payload_regroups(payload);
    assert forall|k: int| 0 <= k < all.len() implies (#[trigger] all[k] as nat) < 32 by {
        if k < 52 {
            assert(all[k] == d5[k]);
        } else {
            assert(all[k] == checksum_of(d5)[k - 52]);
        }
    }
    let d = choose|d: int| 0 <= d < 32 && #[trigger] symbol(d) == c as u8;
    lemma_symbol_range(d);
    let at = i - 5;
    assert((all[at] as nat) < 32);
    lemma_symbol_range(all[at] as int);
    assert(kron_text(payload)[i] == symbol(all[at] as int) as char);
    assert(symbol(d) as char == c);
    assert(d != all[at]);
    let wrong = all.update(at, d as u8);
    assert(all_below(wrong, 32)) by {
        assert forall|k: int| 0 <= k < wrong.len() implies (#[trigger] wrong[k] as nat) < 32 by {
            if k != at {
                assert(wrong[k] == all[k]);
            }
        }
    }
    assert(kron_text(payload).update(i, c) =~= kron1_prefix() + symbols(wrong));
    lemma_text_spells(wrong);
    lemma_spelled_decodes(wrong);
    let h = hrp_values();
    law_checksum_verifies(d5);
    assert((h + all)[9 + at] == all[at]);
    lemma_one_change_shows(h + all, 9 + at, d as u8);
    assert((h + all).update(9 + at, d as u8) =~= h + wrong);
}

/// `c` with a small ASCII letter turned to a capital.
pub open spec fn upper_char(c: char) -> char {
    if 0x61 <= c as u32 <= 0x7a {
        (c as u32 - 32) as char
    } else {
        c
    }
}

/// `t` in capitals.
pub open spec fn shouted(t: Seq<char>) -> Seq<char> {
    t.map_values(|c: char| upper_char(c))
}

spec fn upper_byte(b: u8) -> u8 {
    if is_lower_byte(b) {
        (b - 32) as u8
    } else {
        b
    }
}

spec fn upper_bytes(s: Seq<u8>) -> Seq<u8> {
    s.map_values(|b: u8| upper_byte(b))
}

proof fn lemma_shouted_bytes(t: Seq<char>)
    requires
        is_ascii_chars(t),
    ensures
        encode_utf8(shouted(t)) == upper_bytes(encode_utf8(t)),
{
    let u = shouted(t);
    vstd::utf8::is_ascii_chars_nat_bound(t);
    is_ascii_chars_encode_utf8(t);
    assert forall|i: int| 0 <= i < u.len() implies (0 <= u[i] as int) && (u[i] as int) < 0x80 by {
        assert(u[i] == upper_char(t[i]));
        assert((t[i] as nat) < 128);
    }
    assert(is_ascii_chars(u));
    is_ascii_chars_encode_utf8(u);
    assert forall|i: int| 0 <= i < u.len() implies encode_utf8(u)[i] == #[trigger] upper_bytes(
        encode_utf8(t),
    )[i] by {
        assert(u[i] as u8 == encode_utf8(u)[i]);
        assert(t[i] as u8 == encode_utf8(t)[i]);
        assert(u[i] == upper_char(t[i]));
        assert((t[i] as nat) < 128);
    }
    assert(encode_utf8(u) =~= upper_bytes(encode_utf8(t)));
}

/// What a text that decodes has spelled.
proof fn lemma_decoded_is_spelled(s: Seq<u8>, payload: Seq<u8>)
    requires
        decoded(s) == Ok::<Seq<u8>, Bech32Error>(payload),
    ensures
        payload.len() == 32,
        lower_bytes(s) == spelled(data_part(payload) + checksum_of(data_part(payload))),
{
    let low = lower_bytes(s);
    let sep = last_separator(low);
    let part = low.skip(sep + 1);
    let all = part.map_values(|c: u8| symbol_value(c));
    assert(low.take(sep).len() == sep);
    assert(sep == 4);
    lemma_separator_found(low);
    assert forall|k: int| 0 <= k < part.len() implies (#[trigger] all[k] as nat) < 32
        && symbol(all[k] as int) == part[k] by {
        assert(in_charset(part[k]));
        let d = choose|d: int| 0 <= d < 32 && #[trigger] symbol(d) == part[k];
        assert(symbol(d) == part[k]);
    }
    assert(low =~= spelled(all)) by {
        assert forall|i: int| 0 <= i < low.len() implies #[trigger] low[i] == spelled(all)[i] by {
            if i < 4 {
                assert(low[i] == low.take(sep)[i]);
            } else if i > 4 {
                assert(low[i] == part[i - 5]);
                assert(symbol(all[i - 5] as int) == part[i - 5]);
            }
        }
    }
    let m = all.len() - 6;
    let data = all.take(m);
    let c = all.skip(m);
    let v = digits_value(data, 32);
    lemma_pow2_small();
    assert(all_below(data, 32)) by {
        assert forall|k: int| 0 <= k < data.len() implies (#[trigger] data[k] as nat) < 32 by {
            assert(data[k] == all[k]);
        }
    }
    assert(all_below(c, 32)) by {
        assert forall|k: int| 0 <= k < c.len() implies (#[trigger] c[k] as nat) < 32 by {
            assert(c[k] == all[m + k]);
        }
    }
    let left = leftover(m as nat, 5, 8);
    lemma_digits_of_props(v / pow2(left), 256, ((m * 5) / 8) as nat);
    assert((m * 5) / 8 == 32);
    assert(m == 52);
    assert(left == 4);
    assert(payload == digits_of(v / 16, 256, 32));
    lemma_digits_bound(data);
    lemma_power_256_32();
    assert(v / 16 < power_of(256, 32));
    lemma_value_recovered(v / 16, 256, 32);
    lemma_be_is_base_256(payload);
    assert(be_value(payload) * 16 == v);
    lemma_digits_recovered(data, 32);
    assert(data_part(payload) == data);
    assert(all =~= data + c);
    law_checksum_is_unique(data, c);
}

proof fn lemma_digits_bound(s: Seq<u8>)
    requires
        all_below(s, 32),
    ensures
        digits_value(s, 32) < power_of(32, s.len()),
    decreases s.len(),
{
    if s.len() > 0 {
        let h = s.drop_last();
        assert forall|i: int| 0 <= i < h.len() implies (#[trigger] h[i] as nat) < 32 by {
            assert(h[i] == s[i]);
        }
        lemma_digits_bound(h);
        assert((s[s.len() - 1] as nat) < 32);
    }
}

proof fn lemma_separator_found(s: Seq<u8>)
    ensures
        last_separator(s) < s.len(),
        last_separator(s) >= 0 ==> s[last_separator(s)] == 0x31,
    decreases s.len(),
{
    if s.len() > 0 {
        lemma_separator_found(s.drop_last());
    }
}

/// An address has two spellings, its text and its text in capitals: these decode to the
/// payload, and nothing else does.
pub proof fn law_two_spellings(s: Seq<char>, payload: Seq<u8>)
    requires
        payload.len() == 32,
    ensures
        decoded(encode_utf8(s)) == Ok::<Seq<u8>, Bech32Error>(payload) <==> (s == kron_text(
            payload,
        ) || s == shouted(kron_text(payload))),
{
    let t = kron_text(payload);
    let d5 = data_part(payload);
    let all = d5 + checksum_of(d5);
    lemma_payload_regroups(payload);
    assert(all_below(all, 32)) by {
        assert forall|k: int| 0 <= k < all.len() implies (#[trigger] all[k] as nat) < 32 by {
            if k < 52 {
                assert(all[k] == d5[k]);
            } else {
                assert(all[k] == checksum_of(d5)[k - 52]);
            }
        }
    }
    law_kron_round_trip(payload);
    lemma_text_spells(all);
    lemma_spelled_decodes(all);
    lemma_shouted_bytes(t);
    let b = spelled(all);
    let up = upper_bytes(b);
    assert(encode_utf8(t) == b);
    assert(encode_utf8(shouted(t)) == up);
    assert forall|i: int| 0 <= i < b.len() implies !is_upper_byte(#[trigger] b[i]) by {
        assert(lower_bytes(b)[i] == b[i]);
    }
    assert(lower_bytes(up) =~= b);
    assert forall|i: int| 0 <= i < up.len() implies !is_lower_byte(#[trigger] up[i]) by {}
    assert(decoded(up) == decoded(b));
    vstd::utf8::encode_utf8_decode_utf8(s);
    vstd::utf8::encode_utf8_decode_utf8(t);
    vstd::utf8::encode_utf8_decode_utf8(shouted(t));
    if decoded(encode_utf8(s)) == Ok::<Seq<u8>, Bech32Error>(payload) {
        let x = encode_utf8(s);
        lemma_decoded_is_spelled(x, payload);
        assert(lower_bytes(x) == b);
        if exists|i: int| 0 <= i < x.len() && is_lower_byte(#[trigger] x[i]) {
            assert(x =~= b) by {
                assert forall|i: int| 0 <= i < x.len() implies #[trigger] x[i] == b[i] by {
                    assert(b[i] == lower_byte(x[i]));
                }
            }
        } else {
            assert(x =~= up) by {
                assert forall|i: int| 0 <= i < x.len() implies #[trigger] x[i] == up[i] by {
                    assert(b[i] == lower_byte(x[i]));
                }
            }
        }
    }
}

} // verus!
