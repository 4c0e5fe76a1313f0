//! Byte strings: equality, big-endian order, and little-endian integers.

use vstd::prelude::*;

verus! {

/// The number that `s` spells in base 256, most significant byte first.
pub open spec fn be_value(s: Seq<u8>) -> nat
    decreases s.len(),
{
    if s.len() == 0 {
        0
    } else {
        256 * be_value(s.drop_last()) + s.last() as nat
    }
}

/// Strings of one length are told apart by their big-endian value.
pub proof fn lemma_be_injective(a: Seq<u8>, b: Seq<u8>)
    requires
        a.len() == b.len(),
        be_value(a) == be_value(b),
    ensures
        a == b,
    decreases a.len(),
{
    if a.len() > 0 {
        lemma_be_injective(a.drop_last(), b.drop_last());
        assert(a =~= a.drop_last().push(a.last()));
        assert(b =~= b.drop_last().push(b.last()));
    } else {
        assert(a =~= b);
    }
}

/// The first differing byte decides the big-endian order.
proof fn lemma_be_first_difference(a: Seq<u8>, b: Seq<u8>, i: int)
    requires
        a.len() == b.len(),
        0 <= i < a.len(),
        a.take(i) == b.take(i),
        a[i] < b[i],
    ensures
        be_value(a) < be_value(b),
    decreases a.len(),
{
    if i == a.len() - 1 {
        assert(a.drop_last() =~= a.take(i));
        assert(b.drop_last() =~= b.take(i));
    } else {
        assert(a.drop_last().take(i) =~= a.take(i));
        assert(b.drop_last().take(i) =~= b.take(i));
        lemma_be_first_difference(a.drop_last(), b.drop_last(), i);
    }
}

/// Two keys of one width with the same value are the same key.
pub proof fn lemma_key_injective<const N: usize>(a: [u8; N], b: [u8; N])
    requires
        be_value(a@) == be_value(b@),
    ensures
        a == b,
{
    lemma_be_injective(a@, b@);
    assert forall|i: int| 0 <= i < N implies a[i] == b[i] by {
        assert(a@[i] == b@[i]);
    }
    assert(a =~= b);
}

/// Arrays with equal contents are equal.
pub proof fn lemma_array_view_eq<const N: usize>(a: [u8; N], b: [u8; N])
    requires
        a@ == b@,
    ensures
        a == b,
{
    lemma_key_injective(a, b);
}

/// Byte-for-byte equality of two arrays.
pub fn same<const N: usize>(a: &[u8; N], b: &[u8; N]) -> (r: bool)
    ensures
        r == (*a == *b),
{
    let mut i: usize = 0;
    while i < N
        invariant
            i <= N,
            forall|j: int| 0 <= j < i ==> a@[j] == b@[j],
        decreases N - i,
    {
        if a[i] != b[i] {
            assert(a@[i as int] != b@[i as int]);
            return false;
        }
        i += 1;
    }
    proof {
        assert(a@ =~= b@);
        lemma_array_view_eq(*a, *b);
    }
    true
}

/// Lexicographic (big-endian) order on arrays of one width.
pub fn less<const N: usize>(a: &[u8; N], b: &[u8; N]) -> (r: bool)
    ensures
        r == (be_value(a@) < be_value(b@)),
{
    let mut i: usize = 0;
    while i < N
        invariant
            i <= N,
            forall|j: int| 0 <= j < i ==> a@[j] == b@[j],
        decreases N - i,
    {
        if a[i] != b[i] {
            proof {
                assert(a@.take(i as int) =~= b@.take(i as int));
                if a@[i as int] < b@[i as int] {
                    lemma_be_first_difference(a@, b@, i as int);
                } else {
                    lemma_be_first_difference(b@, a@, i as int);
                }
            }
            return a[i] < b[i];
        }
        i += 1;
    }
    proof {
        assert(a@ =~= b@);
    }
    false
}

/// Byte-for-byte equality of two slices.
pub fn slices_equal(a: &[u8], b: &[u8]) -> (r: bool)
    ensures
        r == (a@ == b@),
{
    if a.len() != b.len() {
        return false;
    }
    let mut i: usize = 0;
    while i < a.len()
        invariant
            i <= a.len(),
            a.len() == b.len(),
            forall|j: int| 0 <= j < i ==> a@[j] == b@[j],
        decreases a.len() - i,
    {
        if a[i] != b[i] {
            return false;
        }
        i += 1;
    }
    assert(a@ =~= b@);
    true
}

/// The `n` low base-256 digits of `x`, least significant first.
pub open spec fn le_bytes(x: nat, n: nat) -> Seq<u8>
    decreases n,
{
    if n == 0 {
        Seq::empty()
    } else {
        seq![(x % 256) as u8] + le_bytes(x / 256, (n - 1) as nat)
    }
}

/// The number that `s` spells in base 256, least significant byte first.
pub open spec fn le_value(s: Seq<u8>) -> nat
    decreases s.len(),
{
    if s.len() == 0 {
        0
    } else {
        s[0] as nat + 256 * le_value(s.drop_first())
    }
}

/// 256 to the power `n`.
pub open spec fn pow256(n: nat) -> nat
    decreases n,
{
    if n == 0 {
        1
    } else {
        256 * pow256((n - 1) as nat)
    }
}

pub broadcast proof fn lemma_le_bytes_len(x: nat, n: nat)
    ensures
        #[trigger] le_bytes(x, n).len() == n,
    decreases n,
{
    if n > 0 {
        lemma_le_bytes_len(x / 256, (n - 1) as nat);
    }
}

/// Decoding undoes encoding for every number that fits.
pub proof fn lemma_le_value_of_bytes(x: nat, n: nat)
    requires
        x < pow256(n),
    ensures
        le_value(le_bytes(x, n)) == x,
    decreases n,
{
    lemma_le_bytes_len(x, n);
    if n > 0 {
        let rest = le_bytes(x / 256, (n - 1) as nat);
        lemma_le_bytes_len(x / 256, (n - 1) as nat);
        lemma_le_value_of_bytes(x / 256, (n - 1) as nat);
        assert(le_bytes(x, n).drop_first() =~= rest);
    }
}

/// Encoding undoes decoding.
pub proof fn lemma_le_bytes_of_value(s: Seq<u8>)
    ensures
        le_bytes(le_value(s), s.len()) == s,
        le_value(s) < pow256(s.len()),
    decreases s.len(),
{
    if s.len() > 0 {
        lemma_le_bytes_of_value(s.drop_first());
        let v = le_value(s);
        assert(v % 256 == s[0] as nat);
        assert(v / 256 == le_value(s.drop_first()));
        assert(s =~= seq![s[0]] + s.drop_first());
    } else {
        assert(s =~= Seq::<u8>::empty());
    }
}

pub proof fn lemma_pow256_values()
    ensures
        pow256(1) == 0x100,
        pow256(2) == 0x1_0000,
        pow256(4) == 0x1_0000_0000,
        pow256(8) == 0x1_0000_0000_0000_0000,
{
    reveal_with_fuel(pow256, 9);
}

/// Appends the `n` low bytes of `x`, least significant first.
pub fn put_le(out: &mut Vec<u8>, x: u64, n: usize)
    ensures
        final(out)@ == old(out)@ + le_bytes(x as nat, n as nat),
{
    let ghost start = out@;
    let mut rest: u64 = x;
    let mut i: usize = 0;
    while i < n
        invariant
            i <= n,
            start + le_bytes(x as nat, n as nat) == out@ + le_bytes(rest as nat, (n - i) as nat),
        decreases n - i,
    {
        let digit: u8 = (rest % 256) as u8;
        let ghost before = out@;
        out.push(digit);
        proof {
            let tail = le_bytes((rest / 256) as nat, (n - i - 1) as nat);
            assert(le_bytes(rest as nat, (n - i) as nat) == seq![digit] + tail);
            assert(before + (seq![digit] + tail) =~= out@ + tail);
        }
        rest = rest / 256;
        i += 1;
    }
    assert(out@ + le_bytes(rest as nat, 0) =~= out@);
}

pub fn put_u16(out: &mut Vec<u8>, x: u16)
    ensures
        final(out)@ == old(out)@ + le_bytes(x as nat, 2),
{
    put_le(out, x as u64, 2);
}

pub fn put_u32(out: &mut Vec<u8>, x: u32)
    ensures
        final(out)@ == old(out)@ + le_bytes(x as nat, 4),
{
    put_le(out, x as u64, 4);
}

pub fn put_u64(out: &mut Vec<u8>, x: u64)
    ensures
        final(out)@ == old(out)@ + le_bytes(x as nat, 8),
{
    put_le(out, x, 8);
}

/// Reads the little-endian number in `bytes[off .. off + n]`.
pub fn get_le(bytes: &[u8], off: usize, n: usize) -> (r: u64)
    requires
        off + n <= bytes@.len(),
        n <= 8,
    ensures
        r == le_value(bytes@.subrange(off as int, off + n)),
        r < pow256(n as nat),
{
    let mut value: u64 = 0;
    let mut i: usize = n;
    proof {
        lemma_pow256_values();
        assert(bytes@.subrange(off + n, off + n) =~= Seq::<u8>::empty());
    }
    while i > 0
        invariant
            i <= n <= 8,
            off + n <= bytes.len(),
            value == le_value(bytes@.subrange(off + i, off + n)),
            value < pow256((n - i) as nat),
        decreases i,
    {
        i -= 1;
        proof {
            let s = bytes@.subrange(off + i, off + n);
            assert(s.drop_first() =~= bytes@.subrange(off + i + 1, off + n));
            reveal_with_fuel(pow256, 9);
        }
        value = value * 256 + bytes[off + i] as u64;
    }
    value
}

pub fn get_u16(bytes: &[u8], off: usize) -> (r: u16)
    requires
        off + 2 <= bytes@.len(),
    ensures
        r == le_value(bytes@.subrange(off as int, off + 2)),
{
    let v: u64 = get_le(bytes, off, 2);
    proof {
        lemma_pow256_values();
    }
    v as u16
}

pub fn get_u32(bytes: &[u8], off: usize) -> (r: u32)
    requires
        off + 4 <= bytes@.len(),
    ensures
        r == le_value(bytes@.subrange(off as int, off + 4)),
{
    let v: u64 = get_le(bytes, off, 4);
    proof {
        lemma_pow256_values();
    }
    v as u32
}

pub fn get_u64(bytes: &[u8], off: usize) -> (r: u64)
    requires
        off + 8 <= bytes@.len(),
    ensures
        r == le_value(bytes@.subrange(off as int, off + 8)),
{
    get_le(bytes, off, 8)
}

/// Appends a slice.
pub fn append(out: &mut Vec<u8>, s: &[u8])
    ensures
        final(out)@ == old(out)@ + s@,
{
    out.extend_from_slice(s);
    assert(out@ =~= old(out)@ + s@);
}

/// Copies a slice into a vector.
pub fn to_vec(s: &[u8]) -> (r: Vec<u8>)
    ensures
        r@ == s@,
{
    let mut out: Vec<u8> = Vec::new();
    append(&mut out, s);
    assert(out@ =~= s@);
    out
}

/// The 32 bytes of `s` that start at `off`.
pub fn array32(s: &[u8], off: usize) -> (r: [u8; 32])
    requires
        off + 32 <= s@.len(),
    ensures
        r@ == s@.subrange(off as int, off + 32),
{
    let mut out = [0u8; 32];
    let mut i: usize = 0;
    while i < 32
        invariant
            i <= 32,
            off + 32 <= s.len(),
            forall|j: int| 0 <= j < i ==> out@[j] == s@[off + j],
        decreases 32 - i,
    {
        out[i] = s[off + i];
        i += 1;
    }
    assert(out@ =~= s@.subrange(off as int, off + 32));
    out
}

/// The last part of a concatenation.
pub proof fn lemma_segment(b: Seq<u8>, head: Seq<u8>, seg: Seq<u8>)
    requires
        b == head + seg,
    ensures
        b.take(head.len() as int) == head,
        b.subrange(head.len() as int, head.len() as int + seg.len()) == seg,
{
    assert(b.take(head.len() as int) =~= head);
    assert(b.subrange(head.len() as int, head.len() as int + seg.len()) =~= seg);
}

/// The last part of a prefix of `b`.
pub proof fn lemma_inner_segment(b: Seq<u8>, whole: Seq<u8>, head: Seq<u8>, seg: Seq<u8>)
    requires
        whole.len() <= b.len(),
        b.take(whole.len() as int) == whole,
        whole == head + seg,
    ensures
        b.take(head.len() as int) == head,
        b.subrange(head.len() as int, head.len() as int + seg.len()) == seg,
{
    assert(b.take(head.len() as int) =~= whole.take(head.len() as int));
    assert(whole.take(head.len() as int) =~= head);
    assert(b.subrange(head.len() as int, head.len() as int + seg.len()) =~= whole.subrange(
        head.len() as int,
        head.len() as int + seg.len(),
    ));
    assert(whole.subrange(head.len() as int, head.len() as int + seg.len()) =~= seg);
}

} // verus!
