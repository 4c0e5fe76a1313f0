//! Hardware attestation: probe jitter, cache latency, clock skew, core count,
//! and a sealed quote over them. The verdict is a pure function of the quote.

use vstd::prelude::*;
use vstd::utf8::encode_utf8;

use crate::anti_bot::profile::{DeviceClass, HardwareProfile};
use crate::bytes::{append, array32, get_u16, get_u32, get_u64, le_bytes, le_value,
    lemma_inner_segment, lemma_le_bytes_len, lemma_le_value_of_bytes, lemma_pow256_values,
    lemma_segment, put_le, put_u16, put_u32, put_u64, same};
use crate::crypto::hash::{sha256, sha256_of};
use crate::dag::tx::{array_of, lemma_array_of};
use crate::types::Address;

verus! {

/// Fewest timing samples in a usable quote.
pub const MIN_SAMPLES: usize = 4;

#[derive(Clone, Copy, Debug, PartialEq, Eq, Structural)]
pub enum SecurityError {
    AttestationInvalid,
    VirtualMachineFingerprint,
    EmulatorTiming,
    DatacenterCluster,
    ImpossibleCadence,
    Quarantined,
    SybilSubnet,
    NotPhoneMiner,
}

impl SecurityError {
    pub open spec fn spec_message(&self) -> Seq<char> {
        match self {
            SecurityError::AttestationInvalid => "attestation quote or encoding is invalid"@,
            SecurityError::VirtualMachineFingerprint =>
                "timing fingerprint matches a VM or emulator (zero jitter / too perfect)"@,
            SecurityError::EmulatorTiming =>
                "claimed class is incompatible with core count or probe speed"@,
            SecurityError::DatacenterCluster =>
                "endpoint sits in a datacenter prefix or rack-scale adjacency cluster"@,
            SecurityError::ImpossibleCadence =>
                "submission cadence is impossible for the declared hardware class"@,
            SecurityError::Quarantined =>
                "identity is quarantined after repeated bot/ASIC flags"@,
            SecurityError::SybilSubnet =>
                "too many distinct miners from the same IP subnet (Sybil)"@,
            SecurityError::NotPhoneMiner =>
                "mining is phone-only; this hardware class is not admitted"@,
        }
    }

    /// The error as a line of text.
    pub fn message(&self) -> (r: &'static str)
        ensures
            r@ == self.spec_message(),
    {
        match self {
            SecurityError::AttestationInvalid => "attestation quote or encoding is invalid",
            SecurityError::VirtualMachineFingerprint =>
                "timing fingerprint matches a VM or emulator (zero jitter / too perfect)",
            SecurityError::EmulatorTiming =>
                "claimed class is incompatible with core count or probe speed",
            SecurityError::DatacenterCluster =>
                "endpoint sits in a datacenter prefix or rack-scale adjacency cluster",
            SecurityError::ImpossibleCadence =>
                "submission cadence is impossible for the declared hardware class",
            SecurityError::Quarantined =>
                "identity is quarantined after repeated bot/ASIC flags",
            SecurityError::SybilSubnet =>
                "too many distinct miners from the same IP subnet (Sybil)",
            SecurityError::NotPhoneMiner =>
                "mining is phone-only; this hardware class is not admitted",
        }
    }
}

/// Remarks that a passing quote may carry.
#[derive(Clone, Copy, Debug, PartialEq, Eq, Structural)]
pub enum ScoreFlag {
    LowJitter,
    LowRtt,
    ResidentialPrefix,
}

impl ScoreFlag {
    pub fn as_str(self) -> (r: &'static str)
        ensures
            r@ == (match self {
                ScoreFlag::LowJitter => "low-jitter"@,
                ScoreFlag::LowRtt => "low-rtt"@,
                ScoreFlag::ResidentialPrefix => "residential-prefix"@,
            }),
    {
        match self {
            ScoreFlag::LowJitter => "low-jitter",
            ScoreFlag::LowRtt => "low-rtt",
            ScoreFlag::ResidentialPrefix => "residential-prefix",
        }
    }
}

/// Authenticity score (0 to 1000) plus adjacency hints.
#[derive(Debug, PartialEq, Eq)]
pub struct DeviceScore {
    pub authenticity: u16,
    pub residential: u16,
    pub extra_difficulty_bits: u32,
    pub flags: Vec<ScoreFlag>,
}

/// A score as mathematical data.
#[verifier::ext_equal]
pub struct ScoreView {
    pub authenticity: u16,
    pub residential: u16,
    pub extra_difficulty_bits: u32,
    pub flags: Seq<ScoreFlag>,
}

impl View for DeviceScore {
    type V = ScoreView;

    open spec fn view(&self) -> ScoreView {
        ScoreView {
            authenticity: self.authenticity,
            residential: self.residential,
            extra_difficulty_bits: self.extra_difficulty_bits,
            flags: self.flags@,
        }
    }
}

impl DeviceScore {
    pub fn is_strong(&self) -> (r: bool)
        ensures
            r == (self@.authenticity >= 400 && self@.residential >= 250),
    {
        self.authenticity >= 400 && self.residential >= 250
    }
}

impl Clone for DeviceScore {
    fn clone(&self) -> (r: Self)
        ensures
            r@ == self@,
    {
        let mut flags: Vec<ScoreFlag> = Vec::new();
        let mut i: usize = 0;
        while i < self.flags.len()
            invariant
                i <= self.flags@.len(),
                flags@ == self.flags@.take(i as int),
            decreases self.flags@.len() - i,
        {
            flags.push(self.flags[i]);
            i += 1;
            assert(flags@ =~= self.flags@.take(i as int));
        }
        assert(flags@ =~= self.flags@);
        DeviceScore {
            authenticity: self.authenticity,
            residential: self.residential,
            extra_difficulty_bits: self.extra_difficulty_bits,
            flags,
        }
    }
}

/// Hardware measurements with a sealed digest.
#[derive(Debug, PartialEq, Eq)]
pub struct DeviceAttestation {
    pub miner: Address,
    pub class: DeviceClass,
    pub logical_cores: u16,
    pub advertised_mhz: u32,
    /// Nanoseconds of a fixed mat-vec probe.
    pub lattice_probe_ns: Vec<u64>,
    /// Cache-line chase latencies.
    pub cache_probe_ns: Vec<u64>,
    /// Apparent clock error in parts per million.
    pub clock_skew_ppm: Vec<i32>,
    pub ipv4: [u8; 4],
    /// Round trips (ms) to protocol beacons.
    pub adjacency_rtt_ms: Vec<u16>,
    pub mining_duration_ns: u64,
    pub quote: [u8; 32],
}

/// A quote as mathematical data.
#[verifier::ext_equal]
pub struct AttestationView {
    pub miner: Address,
    pub class: DeviceClass,
    pub logical_cores: u16,
    pub advertised_mhz: u32,
    pub lattice: Seq<u64>,
    pub cache: Seq<u64>,
    pub skew: Seq<i32>,
    pub ipv4: Seq<u8>,
    pub rtt: Seq<u16>,
    pub duration: u64,
    pub quote: [u8; 32],
}

impl View for DeviceAttestation {
    type V = AttestationView;

    open spec fn view(&self) -> AttestationView {
        AttestationView {
            miner: self.miner,
            class: self.class,
            logical_cores: self.logical_cores,
            advertised_mhz: self.advertised_mhz,
            lattice: self.lattice_probe_ns@,
            cache: self.cache_probe_ns@,
            skew: self.clock_skew_ppm@,
            ipv4: self.ipv4@,
            rtt: self.adjacency_rtt_ms@,
            duration: self.mining_duration_ns,
            quote: self.quote,
        }
    }
}

/// The numbers in eight little-endian bytes each.
pub open spec fn join_u64(s: Seq<u64>) -> Seq<u8>
    decreases s.len(),
{
    if s.len() == 0 {
        Seq::empty()
    } else {
        join_u64(s.drop_last()) + le_bytes(s.last() as nat, 8)
    }
}

/// The numbers in two little-endian bytes each.
pub open spec fn join_u16(s: Seq<u16>) -> Seq<u8>
    decreases s.len(),
{
    if s.len() == 0 {
        Seq::empty()
    } else {
        join_u16(s.drop_last()) + le_bytes(s.last() as nat, 2)
    }
}

/// Two's complement of a 32-bit number.
pub open spec fn complement32(x: i32) -> nat {
    if x < 0 {
        (x + 0x1_0000_0000) as nat
    } else {
        x as nat
    }
}

/// The numbers in four little-endian two's-complement bytes each.
pub open spec fn join_i32(s: Seq<i32>) -> Seq<u8>
    decreases s.len(),
{
    if s.len() == 0 {
        Seq::empty()
    } else {
        join_i32(s.drop_last()) + le_bytes(complement32(s.last()), 4)
    }
}

impl AttestationView {
    /// The measured bytes: everything but the quote. Each list stands behind its
    /// length modulo 256.
    pub open spec fn canonical(self) -> Seq<u8> {
        self.miner@ + seq![self.class.code()] + le_bytes(self.logical_cores as nat, 2) + le_bytes(
            self.advertised_mhz as nat,
            4,
        ) + le_bytes(self.lattice.len(), 1) + join_u64(self.lattice) + le_bytes(self.cache.len(), 1)
            + join_u64(self.cache) + le_bytes(self.skew.len(), 1) + join_i32(self.skew) + self.ipv4
            + le_bytes(self.rtt.len(), 1) + join_u16(self.rtt) + le_bytes(self.duration as nat, 8)
    }

    /// The digest that seals the measurements.
    pub open spec fn seal(self) -> [u8; 32] {
        sha256_of(encode_utf8("tee-quote-v1"@) + self.canonical())
    }
}

fn push_u64s(out: &mut Vec<u8>, xs: &[u64])
    ensures
        final(out)@ == old(out)@ + le_bytes(xs@.len(), 1) + join_u64(xs@),
{
    put_le(out, xs.len() as u64, 1);
    let ghost start = out@;
    let mut i: usize = 0;
    assert(start + join_u64(xs@.take(0)) =~= start);
    while i < xs.len()
        invariant
            i <= xs@.len(),
            out@ == start + join_u64(xs@.take(i as int)),
        decreases xs@.len() - i,
    {
        put_u64(out, xs[i]);
        assert(xs@.take(i + 1).drop_last() =~= xs@.take(i as int));
        i += 1;
        assert(out@ =~= start + join_u64(xs@.take(i as int)));
    }
    assert(xs@.take(i as int) =~= xs@);
}

fn push_i32s(out: &mut Vec<u8>, xs: &[i32])
    ensures
        final(out)@ == old(out)@ + le_bytes(xs@.len(), 1) + join_i32(xs@),
{
    put_le(out, xs.len() as u64, 1);
    let ghost start = out@;
    let mut i: usize = 0;
    assert(start + join_i32(xs@.take(0)) =~= start);
    while i < xs.len()
        invariant
            i <= xs@.len(),
            out@ == start + join_i32(xs@.take(i as int)),
        decreases xs@.len() - i,
    {
        let x: i32 = xs[i];
        let u: u32 = if x < 0 { (x as i64 + 0x1_0000_0000) as u32 } else { x as u32 };
        put_u32(out, u);
        assert(xs@.take(i + 1).drop_last() =~= xs@.take(i as int));
        i += 1;
        assert(out@ =~= start + join_i32(xs@.take(i as int)));
    }
    assert(xs@.take(i as int) =~= xs@);
}

fn push_u16s(out: &mut Vec<u8>, xs: &[u16])
    ensures
        final(out)@ == old(out)@ + le_bytes(xs@.len(), 1) + join_u16(xs@),
{
    put_le(out, xs.len() as u64, 1);
    let ghost start = out@;
    let mut i: usize = 0;
    assert(start + join_u16(xs@.take(0)) =~= start);
    while i < xs.len()
        invariant
            i <= xs@.len(),
            out@ == start + join_u16(xs@.take(i as int)),
        decreases xs@.len() - i,
    {
        put_u16(out, xs[i]);
        assert(xs@.take(i + 1).drop_last() =~= xs@.take(i as int));
        i += 1;
        assert(out@ =~= start + join_u16(xs@.take(i as int)));
    }
    assert(xs@.take(i as int) =~= xs@);
}

fn copy_u64s(s: &Vec<u64>) -> (r: Vec<u64>)
    ensures
        r@ == s@,
{
    let mut out: Vec<u64> = Vec::new();
    let mut i: usize = 0;
    while i < s.len()
        invariant
            i <= s@.len(),
            out@ == s@.take(i as int),
        decreases s@.len() - i,
    {
        out.push(s[i]);
        i += 1;
        assert(out@ =~= s@.take(i as int));
    }
    assert(out@ =~= s@);
    out
}

impl Clone for DeviceAttestation {
    fn clone(&self) -> (r: Self)
        ensures
            r@ == self@,
    {
        let mut skew: Vec<i32> = Vec::new();
        let mut i: usize = 0;
        while i < self.clock_skew_ppm.len()
            invariant
                i <= self.clock_skew_ppm@.len(),
                skew@ == self.clock_skew_ppm@.take(i as int),
            decreases self.clock_skew_ppm@.len() - i,
        {
            skew.push(self.clock_skew_ppm[i]);
            i += 1;
            assert(skew@ =~= self.clock_skew_ppm@.take(i as int));
        }
        assert(skew@ =~= self.clock_skew_ppm@);
        let mut rtt: Vec<u16> = Vec::new();
        let mut j: usize = 0;
        while j < self.adjacency_rtt_ms.len()
            invariant
                j <= self.adjacency_rtt_ms@.len(),
                rtt@ == self.adjacency_rtt_ms@.take(j as int),
            decreases self.adjacency_rtt_ms@.len() - j,
        {
            rtt.push(self.adjacency_rtt_ms[j]);
            j += 1;
            assert(rtt@ =~= self.adjacency_rtt_ms@.take(j as int));
        }
        assert(rtt@ =~= self.adjacency_rtt_ms@);
        DeviceAttestation {
            miner: self.miner,
            class: self.class,
            logical_cores: self.logical_cores,
            advertised_mhz: self.advertised_mhz,
            lattice_probe_ns: copy_u64s(&self.lattice_probe_ns),
            cache_probe_ns: copy_u64s(&self.cache_probe_ns),
            clock_skew_ppm: skew,
            ipv4: self.ipv4,
            adjacency_rtt_ms: rtt,
            mining_duration_ns: self.mining_duration_ns,
            quote: self.quote,
        }
    }
}

impl DeviceAttestation {
    pub fn canonical_bytes(&self) -> (r: Vec<u8>)
        ensures
            r@ == self@.canonical(),
    {
        let mut out: Vec<u8> = Vec::new();
        append(&mut out, self.miner.as_slice());
        out.push(self.class.to_u8());
        put_u16(&mut out, self.logical_cores);
        put_u32(&mut out, self.advertised_mhz);
        push_u64s(&mut out, self.lattice_probe_ns.as_slice());
        push_u64s(&mut out, self.cache_probe_ns.as_slice());
        push_i32s(&mut out, self.clock_skew_ppm.as_slice());
        append(&mut out, self.ipv4.as_slice());
        push_u16s(&mut out, self.adjacency_rtt_ms.as_slice());
        put_u64(&mut out, self.mining_duration_ns);
        assert(out@ =~= self@.canonical());
        out
    }

    fn sealed_digest(&self) -> (r: [u8; 32])
        ensures
            r == self@.seal(),
    {
        let mut buf: Vec<u8> = Vec::new();
        append(&mut buf, "tee-quote-v1".as_bytes());
        append(&mut buf, self.canonical_bytes().as_slice());
        assert(buf@ =~= encode_utf8("tee-quote-v1"@) + self@.canonical());
        sha256(buf.as_slice())
    }

    /// Sets the quote to the digest of the measurements.
    pub fn seal_quote(&mut self)
        ensures
            final(self)@ == (AttestationView { quote: old(self)@.seal(), ..old(self)@ }),
    {
        let q = self.sealed_digest();
        self.quote = q;
    }

    pub fn to_bytes(&self) -> (r: Vec<u8>)
        ensures
            r@ == self@.canonical() + self@.quote@,
    {
        let mut out = self.canonical_bytes();
        append(&mut out, self.quote.as_slice());
        out
    }
}

/// The 64-bit numbers of a list at `off`.
pub open spec fn u64s_at(b: Seq<u8>, off: int, n: nat) -> Seq<u64> {
    Seq::new(n, |i: int| le_value(b.subrange(off + 8 * i, off + 8 * i + 8)) as u64)
}

pub open spec fn u16s_at(b: Seq<u8>, off: int, n: nat) -> Seq<u16> {
    Seq::new(n, |i: int| le_value(b.subrange(off + 2 * i, off + 2 * i + 2)) as u16)
}

/// The number with the given two's complement.
pub open spec fn from_complement32(u: nat) -> i32 {
    if u >= 0x8000_0000 {
        (u - 0x1_0000_0000) as i32
    } else {
        u as i32
    }
}

pub open spec fn i32s_at(b: Seq<u8>, off: int, n: nat) -> Seq<i32> {
    Seq::new(n, |i: int| from_complement32(le_value(b.subrange(off + 4 * i, off + 4 * i + 4))))
}

/// The quote that a byte string begins with, and its length.
pub open spec fn parsed_attestation(b: Seq<u8>) -> Option<(AttestationView, int)> {
    let o1: int = 39;
    let n1 = b[o1] as int;
    let o2 = o1 + 1 + 8 * n1;
    let n2 = b[o2] as int;
    let o3 = o2 + 1 + 8 * n2;
    let n3 = b[o3] as int;
    let o4 = o3 + 1 + 4 * n3;
    let n4 = b[o4 + 4] as int;
    let o5 = o4 + 5 + 2 * n4;
    if b.len() < 40 || DeviceClass::decoded(b[32]) is None {
        None
    } else if b.len() < o2 || b.len() < o2 + 1 || b.len() < o3 || b.len() < o3 + 1 || b.len() < o4
        + 5 || b.len() < o5 + 40 {
        None
    } else {
        Some(
            (
                AttestationView {
                    miner: array_of(b.subrange(0, 32)),
                    class: DeviceClass::decoded(b[32])->0,
                    logical_cores: le_value(b.subrange(33, 35)) as u16,
                    advertised_mhz: le_value(b.subrange(35, 39)) as u32,
                    lattice: u64s_at(b, o1 + 1, n1 as nat),
                    cache: u64s_at(b, o2 + 1, n2 as nat),
                    skew: i32s_at(b, o3 + 1, n3 as nat),
                    ipv4: b.subrange(o4, o4 + 4),
                    rtt: u16s_at(b, o4 + 5, n4 as nat),
                    duration: le_value(b.subrange(o5, o5 + 8)) as u64,
                    quote: array_of(b.subrange(o5 + 8, o5 + 40)),
                },
                o5 + 40,
            ),
        )
    }
}

fn read_u64s(bytes: &[u8], off: usize, n: usize) -> (r: Vec<u64>)
    requires
        off + 8 * n <= bytes.len(),
        n <= 255,
    ensures
        r@ == u64s_at(bytes@, off as int, n as nat),
{
    let mut v: Vec<u64> = Vec::new();
    let mut i: usize = 0;
    while i < n
        invariant
            off + 8 * n <= bytes.len(),
            n <= 255,
            i <= n,
            v@ == u64s_at(bytes@, off as int, i as nat),
        decreases n - i,
    {
        v.push(get_u64(bytes, off + 8 * i));
        i += 1;
        assert(v@ =~= u64s_at(bytes@, off as int, i as nat));
    }
    v
}

fn read_i32s(bytes: &[u8], off: usize, n: usize) -> (r: Vec<i32>)
    requires
        off + 4 * n <= bytes.len(),
        n <= 255,
    ensures
        r@ == i32s_at(bytes@, off as int, n as nat),
{
    let mut v: Vec<i32> = Vec::new();
    let mut i: usize = 0;
    while i < n
        invariant
            off + 4 * n <= bytes.len(),
            n <= 255,
            i <= n,
            v@ == i32s_at(bytes@, off as int, i as nat),
        decreases n - i,
    {
        let u: u32 = get_u32(bytes, off + 4 * i);
        let x: i32 = if u >= 0x8000_0000 { (u as i64 - 0x1_0000_0000) as i32 } else { u as i32 };
        v.push(x);
        i += 1;
        assert(v@ =~= i32s_at(bytes@, off as int, i as nat));
    }
    v
}

fn read_u16s(bytes: &[u8], off: usize, n: usize) -> (r: Vec<u16>)
    requires
        off + 2 * n <= bytes.len(),
        n <= 255,
    ensures
        r@ == u16s_at(bytes@, off as int, n as nat),
{
    let mut v: Vec<u16> = Vec::new();
    let mut i: usize = 0;
    while i < n
        invariant
            off + 2 * n <= bytes.len(),
            n <= 255,
            i <= n,
            v@ == u16s_at(bytes@, off as int, i as nat),
        decreases n - i,
    {
        v.push(get_u16(bytes, off + 2 * i));
        i += 1;
        assert(v@ =~= u16s_at(bytes@, off as int, i as nat));
    }
    v
}

fn array_at(bytes: &[u8], off: usize) -> (r: [u8; 32])
    requires
        off + 32 <= bytes@.len(),
    ensures
        r == array_of(bytes@.subrange(off as int, off + 32)),
{
    let r = array32(bytes, off);
    proof {
        lemma_array_of(r);
    }
    r
}

impl DeviceAttestation {
    /// Decodes a quote from the start of `bytes`; gives its length with it.
    pub fn from_bytes(bytes: &[u8]) -> (r: Result<(Self, usize), SecurityError>)
        ensures
            match r {
                Ok((a, n)) => parsed_attestation(bytes@) == Some((a@, n as int)),
                Err(e) => parsed_attestation(bytes@) is None && e
                    == SecurityError::AttestationInvalid,
            },
    {
        let len: usize = bytes.len();
        if len < 40 {
            return Err(SecurityError::AttestationInvalid);
        }
        let miner = array_at(bytes, 0);
        let class = match DeviceClass::from_u8(bytes[32]) {
            Some(c) => c,
            None => {
                return Err(SecurityError::AttestationInvalid);
            },
        };
        let logical_cores: u16 = get_u16(bytes, 33);
        let advertised_mhz: u32 = get_u32(bytes, 35);
        let n1: usize = bytes[39] as usize;
        let o2: usize = 40 + 8 * n1;
        if len < o2 || len - o2 < 1 {
            return Err(SecurityError::AttestationInvalid);
        }
        let lattice_probe_ns = read_u64s(bytes, 40, n1);
        let n2: usize = bytes[o2] as usize;
        if len - o2 < 1 + 8 * n2 || len - o2 - (1 + 8 * n2) < 1 {
            return Err(SecurityError::AttestationInvalid);
        }
        let o3: usize = o2 + 1 + 8 * n2;
        let cache_probe_ns = read_u64s(bytes, o2 + 1, n2);
        let n3: usize = bytes[o3] as usize;
        if len - o3 < 1 + 4 * n3 + 5 {
            return Err(SecurityError::AttestationInvalid);
        }
        let o4: usize = o3 + 1 + 4 * n3;
        let clock_skew_ppm = read_i32s(bytes, o3 + 1, n3);
        let ipv4 = [bytes[o4], bytes[o4 + 1], bytes[o4 + 2], bytes[o4 + 3]];
        assert(ipv4@ =~= bytes@.subrange(o4 as int, o4 + 4));
        let n4: usize = bytes[o4 + 4] as usize;
        if len - o4 < 5 + 2 * n4 + 40 {
            return Err(SecurityError::AttestationInvalid);
        }
        let adjacency_rtt_ms = read_u16s(bytes, o4 + 5, n4);
        let o5: usize = o4 + 5 + 2 * n4;
        let mining_duration_ns: u64 = get_u64(bytes, o5);
        let quote = array_at(bytes, o5 + 8);
        let a = DeviceAttestation {
            miner,
            class,
            logical_cores,
            advertised_mhz,
            lattice_probe_ns,
            cache_probe_ns,
            clock_skew_ppm,
            ipv4,
            adjacency_rtt_ms,
            mining_duration_ns,
            quote,
        };
        Ok((a, o5 + 40))
    }
}

/// The first four address bytes as a number.
pub fn miner_node_id(addr: &Address) -> (r: crate::types::NodeId)
    ensures
        r == le_value(addr@.subrange(0, 4)),
{
    get_u32(addr.as_slice(), 0)
}

/// A residential endpoint derived from an address.
pub open spec fn residential_endpoint(addr: Address) -> Seq<u8> {
    seq![86u8, addr@[5] | 1u8, addr@[6], addr@[7]]
}

/// A datacenter endpoint derived from an address.
pub open spec fn datacenter_endpoint(addr: Address) -> Seq<u8> {
    seq![3u8, addr@[5], addr@[6], addr@[7]]
}

pub fn residential_ipv4(addr: &Address) -> (r: [u8; 4])
    ensures
        r@ == residential_endpoint(*addr),
{
    let r = [86u8, addr[5] | 1u8, addr[6], addr[7]];
    assert(r@ =~= residential_endpoint(*addr));
    r
}

pub fn datacenter_ipv4(addr: &Address) -> (r: [u8; 4])
    ensures
        r@ == datacenter_endpoint(*addr),
{
    let r = [3u8, addr[5], addr[6], addr[7]];
    assert(r@ =~= datacenter_endpoint(*addr));
    r
}

/// Conceptual public-cloud unicast space, by first octet.
pub open spec fn in_datacenter(first: u8) -> bool {
    first == 3 || first == 13 || first == 18 || first == 34 || first == 35 || first == 52 || first
        == 54 || first == 104
}

pub fn is_datacenter_ipv4(ip: [u8; 4]) -> (r: bool)
    ensures
        r == in_datacenter(ip@[0]),
{
    let f: u8 = ip[0];
    f == 3 || f == 13 || f == 18 || f == 34 || f == 35 || f == 52 || f == 54 || f == 104
}

/// Shortest believable duration of one job, in nanoseconds.
pub open spec fn min_duration_of(class: DeviceClass) -> u64 {
    match class {
        DeviceClass::IotSensor => 20_000,
        DeviceClass::LegacyMobile => 15_000,
        DeviceClass::PersonalComputer => 8_000,
    }
}

pub fn min_duration_ns(class: DeviceClass) -> (r: u64)
    ensures
        r == min_duration_of(class),
{
    match class {
        DeviceClass::IotSensor => 20_000,
        DeviceClass::LegacyMobile => 15_000,
        DeviceClass::PersonalComputer => 8_000,
    }
}

/// Shortest believable cadence, in nanoseconds.
pub fn min_cadence(class: DeviceClass) -> (r: u64)
    ensures
        r == min_duration_of(class),
{
    min_duration_ns(class)
}

/// The sum of a list of numbers.
pub open spec fn sum_u64(s: Seq<u64>) -> nat
    decreases s.len(),
{
    if s.len() == 0 {
        0
    } else {
        sum_u64(s.drop_last()) + s.last() as nat
    }
}

pub open spec fn sum_u16(s: Seq<u16>) -> nat
    decreases s.len(),
{
    if s.len() == 0 {
        0
    } else {
        sum_u16(s.drop_last()) + s.last() as nat
    }
}

pub open spec fn gap(a: u64, b: u64) -> nat {
    if a < b {
        (b - a) as nat
    } else {
        (a - b) as nat
    }
}

/// The sum of the squared gaps between `x` and the first `n` numbers of `s`.
pub open spec fn gaps_to(s: Seq<u64>, x: u64, n: nat) -> nat
    decreases n,
{
    if n == 0 {
        0
    } else {
        gaps_to(s, x, (n - 1) as nat) + gap(s[n - 1], x) * gap(s[n - 1], x)
    }
}

/// The sum of the squared gaps over all pairs: the variance of the list times
/// the square of its length.
pub open spec fn spread(s: Seq<u64>) -> nat
    decreases s.len(),
{
    if s.len() == 0 {
        0
    } else {
        spread(s.drop_last()) + gaps_to(s, s.last(), (s.len() - 1) as nat)
    }
}

/// Whether the variance of `s` is below `limit`. The spread counts up to the
/// largest `u128`, which no list that fits in memory reaches below the limit.
pub open spec fn variance_below(s: Seq<u64>, limit: nat) -> bool {
    let counted = if spread(s) > u128::MAX {
        u128::MAX as nat
    } else {
        spread(s)
    };
    counted / limit < s.len() * s.len()
}

/// The sum of the squares of a list.
pub open spec fn sum_of_squares(s: Seq<u64>) -> nat
    decreases s.len(),
{
    if s.len() == 0 {
        0
    } else {
        sum_of_squares(s.drop_last()) + s.last() as nat * s.last() as nat
    }
}

proof fn lemma_gaps_expand(s: Seq<u64>, x: u64, n: nat)
    requires
        n <= s.len(),
    ensures
        gaps_to(s, x, n) == sum_of_squares(s.take(n as int)) - 2 * (x * sum_u64(s.take(n as int)))
            + n * (x * x),
    decreases n,
{
    if n > 0 {
        let m = (n - 1) as nat;
        let y = s[n - 1];
        lemma_gaps_expand(s, x, m);
        assert(s.take(n as int).drop_last() =~= s.take(m as int));
        assert(s.take(n as int).last() == y);
        let sum = sum_u64(s.take(m as int)) as int;
        assert(gap(y, x) * gap(y, x) == y * y - 2 * (x * y) + x * x) by (nonlinear_arith)
            requires
                gap(y, x) == (if y < x {
                    (x - y) as nat
                } else {
                    (y - x) as nat
                }),
        ;
        assert(x * (sum + y) == x * sum + x * y) by (nonlinear_arith);
        assert(n * (x * x) == m * (x * x) + x * x) by (nonlinear_arith)
            requires
                n == m + 1,
        ;
        assert(sum_u64(s.take(n as int)) == sum + y);
        assert(sum_of_squares(s.take(n as int)) == sum_of_squares(s.take(m as int)) + y * y);
    } else {
        let none = s.take(0);
        assert(sum_u64(none) == 0 && sum_of_squares(none) == 0);
        assert(x * sum_u64(none) == 0) by (nonlinear_arith)
            requires
                sum_u64(none) == 0,
        ;
        assert(n * (x * x) == 0) by (nonlinear_arith)
            requires
                n == 0,
        ;
    }
}

proof fn lemma_spread_is_variance(s: Seq<u64>)
    ensures
        spread(s) == s.len() * sum_of_squares(s) - sum_u64(s) * sum_u64(s),
    decreases s.len(),
{
    if s.len() > 0 {
        let q = s.drop_last();
        let x = s.last();
        let m = q.len();
        lemma_spread_is_variance(q);
        lemma_gaps_expand(s, x, m);
        assert(s.take(m as int) =~= q);
        let sq = sum_of_squares(q) as int;
        let sum = sum_u64(q) as int;
        assert((m + 1) * (sq + x * x) - (sum + x) * (sum + x) == m * sq - sum * sum + sq - 2 * (x
            * sum) + m * (x * x)) by (nonlinear_arith);
    }
}

/// The test on the spread is the test on the variance: the mean of the squares less
/// the square of the mean, with the divisions multiplied out.
pub proof fn law_variance_is_exact(s: Seq<u64>, limit: nat)
    requires
        s.len() <= u32::MAX,
        1 <= limit <= 1_000,
    ensures
        variance_below(s, limit) <==> s.len() * sum_of_squares(s) - sum_u64(s) * sum_u64(s) < limit
            * (s.len() * s.len()),
{
    lemma_spread_is_variance(s);
    let n = s.len();
    let n2 = n * n;
    let all = spread(s);
    assert(n2 <= 0xFFFF_FFFF * 0xFFFF_FFFF) by (nonlinear_arith)
        requires
            n2 == n * n,
            n <= 0xFFFF_FFFF,
    ;
    if all > u128::MAX {
        assert(u128::MAX as nat / limit >= 0x1_0000_0000_0000_0000) by (nonlinear_arith)
            requires
                1 <= limit <= 1_000,
        ;
        assert(limit * n2 <= 1_000 * (0xFFFF_FFFF * 0xFFFF_FFFF)) by (nonlinear_arith)
            requires
                limit <= 1_000,
                n2 <= 0xFFFF_FFFF * 0xFFFF_FFFF,
        ;
    } else {
        assert(all / limit < n2 <==> all < limit * n2) by (nonlinear_arith)
            requires
                limit >= 1,
        ;
    }
}

proof fn lemma_gaps_grow(s: Seq<u64>, x: u64, i: nat, n: nat)
    requires
        i <= n,
    ensures
        gaps_to(s, x, i) <= gaps_to(s, x, n),
    decreases n - i,
{
    if i < n {
        lemma_gaps_grow(s, x, i, (n - 1) as nat);
        let g = gap(s[n - 1], x);
        assert(g * g >= 0) by (nonlinear_arith);
    }
}

proof fn lemma_spread_grows(s: Seq<u64>, i: int)
    requires
        0 <= i <= s.len(),
    ensures
        spread(s.take(i)) <= spread(s),
    decreases s.len() - i,
{
    if i < s.len() {
        lemma_spread_grows(s, i + 1);
        assert(s.take(i + 1).drop_last() =~= s.take(i));
    } else {
        assert(s.take(i) =~= s);
    }
}

/// The spread of `xs`, stopped at the largest `u128`.
fn capped_spread(xs: &[u64]) -> (r: u128)
    ensures
        r == (if spread(xs@) > u128::MAX {
            u128::MAX as nat
        } else {
            spread(xs@)
        }),
{
    let mut acc: u128 = 0;
    let mut i: usize = 0;
    while i < xs.len()
        invariant
            i <= xs@.len(),
            acc == spread(xs@.take(i as int)),
        decreases xs@.len() - i,
    {
        let ghost base = spread(xs@.take(i as int));
        let ghost x = xs@[i as int];
        let ghost t = xs@.take(i + 1);
        proof {
            assert(t.drop_last() =~= xs@.take(i as int));
            assert(t.last() == x);
        }
        let mut j: usize = 0;
        while j < i
            invariant
                j <= i,
                i < xs@.len(),
                x == xs@[i as int],
                t == xs@.take(i + 1),
                base == spread(xs@.take(i as int)),
                spread(t) == base + gaps_to(t, x, i as nat),
                acc == base + gaps_to(t, x, j as nat),
            decreases i - j,
        {
            let g: u64 = if xs[j] < xs[i] { xs[i] - xs[j] } else { xs[j] - xs[i] };
            proof {
                assert(t[j as int] == xs@[j as int]);
                assert(g == gap(t[j as int], x));
                assert(0 <= g * g <= u64::MAX * u64::MAX) by (nonlinear_arith)
                    requires
                        0 <= g <= u64::MAX,
                ;
            }
            let sq: u128 = (g as u128) * (g as u128);
            match acc.checked_add(sq) {
                Some(sum) => {
                    acc = sum;
                },
                None => {
                    proof {
                        lemma_gaps_grow(t, x, (j + 1) as nat, i as nat);
                        lemma_spread_grows(xs@, i + 1);
                    }
                    return u128::MAX;
                },
            }
            j += 1;
        }
        i += 1;
    }
    assert(xs@.take(i as int) =~= xs@);
    acc
}

fn jitter_below(xs: &[u64], limit: u128) -> (r: bool)
    requires
        limit > 0,
    ensures
        r == variance_below(xs@, limit as nat),
{
    let total: u128 = capped_spread(xs);
    let n: u128 = xs.len() as u128;
    proof {
        assert(n * n <= u64::MAX * u64::MAX) by (nonlinear_arith)
            requires
                n <= u64::MAX,
        ;
    }
    total / limit < n * n
}

fn sum_of(xs: &[u64]) -> (r: u128)
    ensures
        r == sum_u64(xs@),
        r <= xs@.len() * u64::MAX,
{
    let mut sum: u128 = 0;
    let mut i: usize = 0;
    while i < xs.len()
        invariant
            i <= xs.len(),
            sum == sum_u64(xs@.take(i as int)),
            sum <= i * u64::MAX,
        decreases xs.len() - i,
    {
        proof {
            assert(xs@.take(i + 1).drop_last() =~= xs@.take(i as int));
            assert((i + 1) * u64::MAX == i * u64::MAX + u64::MAX) by (nonlinear_arith);
            assert((i + 1) * u64::MAX <= u64::MAX * u64::MAX) by (nonlinear_arith)
                requires
                    0 <= i < u64::MAX,
            ;
        }
        sum = sum + xs[i] as u128;
        i += 1;
    }
    assert(xs@.take(i as int) =~= xs@);
    sum
}

/// Most logical cores that a class may claim.
pub open spec fn max_cores_of(class: DeviceClass) -> u16 {
    match class {
        DeviceClass::IotSensor => 2,
        DeviceClass::LegacyMobile => 8,
        DeviceClass::PersonalComputer => 32,
    }
}

/// Fastest believable mean probe of a class, in nanoseconds.
pub open spec fn min_probe_of(class: DeviceClass) -> nat {
    match class {
        DeviceClass::IotSensor => 20_000,
        DeviceClass::LegacyMobile => 8_000,
        DeviceClass::PersonalComputer => 400,
    }
}

impl AttestationView {
    /// Enough samples of every kind.
    pub open spec fn sampled(self) -> bool {
        &&& self.lattice.len() >= MIN_SAMPLES
        &&& self.cache.len() >= MIN_SAMPLES
        &&& self.skew.len() >= 2
        &&& self.rtt.len() >= 2
    }

    /// All round trips are within a rack.
    pub open spec fn same_rack(self) -> bool {
        &&& self.rtt.len() >= MIN_SAMPLES
        &&& forall|i: int| 0 <= i < self.rtt.len() ==> #[trigger] self.rtt[i] <= 2
    }

    /// What is wrong with the quote, if anything.
    pub open spec fn fault(self) -> Option<SecurityError> {
        if self.seal() != self.quote || !self.sampled() {
            Some(SecurityError::AttestationInvalid)
        } else if variance_below(self.lattice, 1) || variance_below(self.cache, 1) || (forall|i: int|
            0 <= i < self.skew.len() ==> #[trigger] self.skew[i] == 0) {
            Some(SecurityError::VirtualMachineFingerprint)
        } else if self.logical_cores == 0 || self.logical_cores > max_cores_of(self.class)
            || sum_u64(self.lattice) < min_probe_of(self.class) * self.lattice.len() {
            Some(SecurityError::EmulatorTiming)
        } else if in_datacenter(self.ipv4[0]) || self.same_rack() {
            Some(SecurityError::DatacenterCluster)
        } else if self.duration < min_duration_of(self.class) {
            Some(SecurityError::ImpossibleCadence)
        } else {
            None
        }
    }

    pub open spec fn low_jitter(self) -> bool {
        variance_below(self.lattice, 500)
    }

    pub open spec fn low_rtt(self) -> bool {
        sum_u16(self.rtt) / self.rtt.len() < 8
    }

    pub open spec fn residential_prefix(self) -> bool {
        self.ipv4[0] == 86 || self.ipv4[0] == 92 || self.ipv4[0] == 188
    }

    /// The score of a quote without fault.
    pub open spec fn score(self) -> ScoreView {
        let a = if self.low_jitter() {
            seq![ScoreFlag::LowJitter]
        } else {
            Seq::empty()
        };
        let b = if self.low_rtt() {
            a.push(ScoreFlag::LowRtt)
        } else {
            a
        };
        ScoreView {
            authenticity: if self.low_jitter() {
                730
            } else {
                850
            },
            residential: if self.low_rtt() {
                600
            } else {
                800
            },
            extra_difficulty_bits: 0,
            flags: if self.residential_prefix() {
                b.push(ScoreFlag::ResidentialPrefix)
            } else {
                b
            },
        }
    }
}

fn all_zero(xs: &[i32]) -> (r: bool)
    ensures
        r == (forall|i: int| 0 <= i < xs@.len() ==> #[trigger] xs@[i] == 0),
{
    let mut i: usize = 0;
    while i < xs.len()
        invariant
            i <= xs@.len(),
            forall|k: int| 0 <= k < i ==> #[trigger] xs@[k] == 0,
        decreases xs@.len() - i,
    {
        if xs[i] != 0 {
            return false;
        }
        i += 1;
    }
    true
}

fn all_within_rack(xs: &[u16]) -> (r: bool)
    ensures
        r == (forall|i: int| 0 <= i < xs@.len() ==> #[trigger] xs@[i] <= 2),
{
    let mut i: usize = 0;
    while i < xs.len()
        invariant
            i <= xs@.len(),
            forall|k: int| 0 <= k < i ==> #[trigger] xs@[k] <= 2,
        decreases xs@.len() - i,
    {
        if xs[i] > 2 {
            return false;
        }
        i += 1;
    }
    true
}

fn mean_rtt(xs: &[u16]) -> (r: u128)
    requires
        xs@.len() > 0,
    ensures
        r == sum_u16(xs@) / xs@.len(),
{
    let mut sum: u128 = 0;
    let mut i: usize = 0;
    while i < xs.len()
        invariant
            i <= xs.len(),
            sum == sum_u16(xs@.take(i as int)),
            sum <= i * u64::MAX,
        decreases xs.len() - i,
    {
        proof {
            assert(xs@.take(i + 1).drop_last() =~= xs@.take(i as int));
            assert((i + 1) * u64::MAX == i * u64::MAX + u64::MAX) by (nonlinear_arith);
            assert((i + 1) * u64::MAX <= u64::MAX * u64::MAX) by (nonlinear_arith)
                requires
                    0 <= i < u64::MAX,
            ;
        }
        sum = sum + xs[i] as u128;
        i += 1;
    }
    assert(xs@.take(i as int) =~= xs@);
    sum / (xs.len() as u128)
}

/// Judges a hardware quote. Fails closed on VM, emulator, and datacenter
/// fingerprints.
pub fn verify_hardware_authenticity(attestation: &DeviceAttestation) -> (r: Result<
    DeviceScore,
    SecurityError,
>)
    ensures
        match r {
            Ok(score) => attestation@.fault() is None && score@ == attestation@.score(),
            Err(e) => attestation@.fault() == Some(e),
        },
{
    let expected = attestation.sealed_digest();
    if !same(&expected, &attestation.quote) {
        return Err(SecurityError::AttestationInvalid);
    }
    let lattice = attestation.lattice_probe_ns.as_slice();
    if lattice.len() < MIN_SAMPLES || attestation.cache_probe_ns.len() < MIN_SAMPLES
        || attestation.clock_skew_ppm.len() < 2 || attestation.adjacency_rtt_ms.len() < 2 {
        return Err(SecurityError::AttestationInvalid);
    }
    if jitter_below(lattice, 1) || jitter_below(attestation.cache_probe_ns.as_slice(), 1) {
        return Err(SecurityError::VirtualMachineFingerprint);
    }
    if all_zero(attestation.clock_skew_ppm.as_slice()) {
        return Err(SecurityError::VirtualMachineFingerprint);
    }
    let max_cores: u16 = match attestation.class {
        DeviceClass::IotSensor => 2,
        DeviceClass::LegacyMobile => 8,
        DeviceClass::PersonalComputer => 32,
    };
    if attestation.logical_cores == 0 || attestation.logical_cores > max_cores {
        return Err(SecurityError::EmulatorTiming);
    }
    let min_probe: u128 = match attestation.class {
        DeviceClass::IotSensor => 20_000,
        DeviceClass::LegacyMobile => 8_000,
        DeviceClass::PersonalComputer => 400,
    };
    proof {
        let n = lattice@.len() as int;
        assert(min_probe * n <= 20_000 * u64::MAX) by (nonlinear_arith)
            requires
                0 <= n <= u64::MAX,
                0 <= min_probe <= 20_000,
        ;
    }
    if sum_of(lattice) < min_probe * (lattice.len() as u128) {
        return Err(SecurityError::EmulatorTiming);
    }
    if is_datacenter_ipv4(attestation.ipv4) {
        return Err(SecurityError::DatacenterCluster);
    }
    let rtts = attestation.adjacency_rtt_ms.as_slice();
    if all_within_rack(rtts) && rtts.len() >= MIN_SAMPLES {
        return Err(SecurityError::DatacenterCluster);
    }
    if attestation.mining_duration_ns < min_duration_ns(attestation.class) {
        return Err(SecurityError::ImpossibleCadence);
    }
    let mut flags: Vec<ScoreFlag> = Vec::new();
    let mut authenticity: u16 = 850;
    let mut residential: u16 = 800;
    if jitter_below(lattice, 500) {
        authenticity = 730;
        flags.push(ScoreFlag::LowJitter);
    }
    if mean_rtt(rtts) < 8 {
        residential = 600;
        flags.push(ScoreFlag::LowRtt);
    }
    let first: u8 = attestation.ipv4[0];
    if first == 86 || first == 92 || first == 188 {
        flags.push(ScoreFlag::ResidentialPrefix);
    }
    let score = DeviceScore { authenticity, residential, extra_difficulty_bits: 0, flags };
    assert(score@ =~= attestation@.score());
    Ok(score)
}

/// A pseudo-random measurement around `base`, drawn from the seed.
pub open spec fn jittered(seed: [u8; 32], idx: u32, base: u64, width: u64) -> u64 {
    let h = sha256_of(seed@ + le_bytes(idx as nat, 4) + encode_utf8("jitter"@));
    let r = le_value(h@.subrange(0, 8));
    let half = if width < 1 {
        1int
    } else {
        width as int
    };
    let span = if 2 * half + 1 > u64::MAX {
        u64::MAX as int
    } else {
        2 * half + 1
    };
    let up = base + (r as int) % span;
    let top = if up > u64::MAX {
        u64::MAX as int
    } else {
        up
    };
    if top < width {
        0
    } else {
        (top - width) as u64
    }
}

fn jitter(seed: &[u8; 32], idx: u32, base: u64, width: u64) -> (r: u64)
    requires
        width <= 0x1000_0000,
    ensures
        r == jittered(*seed, idx, base, width),
{
    let mut buf: Vec<u8> = Vec::new();
    append(&mut buf, seed.as_slice());
    put_u32(&mut buf, idx);
    append(&mut buf, "jitter".as_bytes());
    assert(buf@ =~= seed@ + le_bytes(idx as nat, 4) + encode_utf8("jitter"@));
    let h = sha256(buf.as_slice());
    let r: u64 = get_u64(h.as_slice(), 0);
    let half: u64 = if width < 1 { 1 } else { width };
    let span: u64 = 2 * half + 1;
    base.saturating_add(r % span).saturating_sub(width)
}

/// Baseline measurements of a class: cores, MHz, probe, cache, round trip.
pub open spec fn baseline_of(class: DeviceClass) -> (u16, u32, u64, u64, u64) {
    match class {
        DeviceClass::IotSensor => (1, 48, 180_000, 900, 85),
        DeviceClass::LegacyMobile => (4, 400, 70_000, 420, 45),
        DeviceClass::PersonalComputer => (8, 2500, 8_000, 120, 18),
    }
}

/// The seed that a simulated quote draws its measurements from.
pub open spec fn simulation_seed(miner: Address, class: DeviceClass, duration: u64) -> [u8; 32] {
    sha256_of(miner@ + seq![class.code()] + le_bytes(duration as nat, 8))
}

/// A class-consistent, noisy, sealed quote.
pub open spec fn honest_quote(
    class: DeviceClass,
    miner: Address,
    ipv4: Seq<u8>,
    duration: u64,
) -> AttestationView {
    let seed = simulation_seed(miner, class, duration);
    let (cores, mhz, lat, cache, rtt) = baseline_of(class);
    let a = AttestationView {
        miner,
        class,
        logical_cores: cores,
        advertised_mhz: mhz,
        lattice: Seq::new(6, |i: int| jittered(seed, i as u32, lat, (lat / 8) as u64)),
        cache: Seq::new(6, |i: int| jittered(seed, (16 + i) as u32, cache, (cache / 5 + 1) as u64)),
        skew: Seq::new(
            4,
            |i: int| (jittered(seed, (32 + i) as u32, 50, 20) - 40 + 3 * i) as i32,
        ),
        ipv4,
        rtt: Seq::new(4, |i: int| jittered(seed, (48 + i) as u32, rtt, 12) as u16),
        duration: if duration < 25_000 {
            25_000
        } else {
            duration
        },
        quote: crate::dag::tx::NULL_PARENT,
    };
    AttestationView { quote: a.seal(), ..a }
}

proof fn lemma_jitter_range(seed: [u8; 32], idx: u32, base: u64, width: u64)
    requires
        base <= 0x1000_0000,
        1 <= width <= base,
    ensures
        base - width <= jittered(seed, idx, base, width) <= base + width,
{
    let h = sha256_of(seed@ + le_bytes(idx as nat, 4) + encode_utf8("jitter"@));
    let r = le_value(h@.subrange(0, 8)) as int;
    let span = 2 * (width as int) + 1;
    assert(0 <= r % span < span) by (nonlinear_arith)
        requires
            span > 0,
    ;
}

impl DeviceAttestation {
    /// Class-consistent noisy measurements with a sealed quote.
    pub fn simulate_honest(
        profile: &HardwareProfile,
        miner: Address,
        ipv4: [u8; 4],
        mining_duration_ns: u64,
    ) -> (r: Self)
        ensures
            r@ == honest_quote(profile.class, miner, ipv4@, mining_duration_ns),
    {
        let mut buf: Vec<u8> = Vec::new();
        append(&mut buf, miner.as_slice());
        buf.push(profile.class.to_u8());
        put_u64(&mut buf, mining_duration_ns);
        assert(buf@ =~= miner@ + seq![profile.class.code()] + le_bytes(
            mining_duration_ns as nat,
            8,
        ));
        let seed = sha256(buf.as_slice());
        let (cores, mhz, lat, cache, rtt): (u16, u32, u64, u64, u64) = match profile.class {
            DeviceClass::IotSensor => (1, 48, 180_000, 900, 85),
            DeviceClass::LegacyMobile => (4, 400, 70_000, 420, 45),
            DeviceClass::PersonalComputer => (8, 2500, 8_000, 120, 18),
        };
        let ghost target = honest_quote(profile.class, miner, ipv4@, mining_duration_ns);
        let mut lattice_probe_ns: Vec<u64> = Vec::new();
        let mut cache_probe_ns: Vec<u64> = Vec::new();
        let mut i: u32 = 0;
        while i < 6
            invariant
                i <= 6,
                (cores, mhz, lat, cache, rtt) == baseline_of(profile.class),
                seed == simulation_seed(miner, profile.class, mining_duration_ns),
                target == honest_quote(profile.class, miner, ipv4@, mining_duration_ns),
                lattice_probe_ns@ == target.lattice.take(i as int),
                cache_probe_ns@ == target.cache.take(i as int),
            decreases 6 - i,
        {
            lattice_probe_ns.push(jitter(&seed, i, lat, lat / 8));
            cache_probe_ns.push(jitter(&seed, 16 + i, cache, cache / 5 + 1));
            i += 1;
            assert(lattice_probe_ns@ =~= target.lattice.take(i as int));
            assert(cache_probe_ns@ =~= target.cache.take(i as int));
        }
        let mut clock_skew_ppm: Vec<i32> = Vec::new();
        let mut adjacency_rtt_ms: Vec<u16> = Vec::new();
        let mut j: u32 = 0;
        while j < 4
            invariant
                j <= 4,
                (cores, mhz, lat, cache, rtt) == baseline_of(profile.class),
                seed == simulation_seed(miner, profile.class, mining_duration_ns),
                target == honest_quote(profile.class, miner, ipv4@, mining_duration_ns),
                clock_skew_ppm@ == target.skew.take(j as int),
                adjacency_rtt_ms@ == target.rtt.take(j as int),
            decreases 4 - j,
        {
            proof {
                lemma_jitter_range(seed, (32 + j) as u32, 50, 20);
                lemma_jitter_range(seed, (48 + j) as u32, rtt, 12);
            }
            let s: u64 = jitter(&seed, 32 + j, 50, 20);
            clock_skew_ppm.push((s as i32) - 40 + (j as i32) * 3);
            let t: u64 = jitter(&seed, 48 + j, rtt, 12);
            adjacency_rtt_ms.push(t as u16);
            j += 1;
            assert(clock_skew_ppm@ =~= target.skew.take(j as int));
            assert(adjacency_rtt_ms@ =~= target.rtt.take(j as int));
        }
        proof {
            assert(target.lattice.take(6) =~= target.lattice);
            assert(target.cache.take(6) =~= target.cache);
            assert(target.skew.take(4) =~= target.skew);
            assert(target.rtt.take(4) =~= target.rtt);
        }
        let mut att = DeviceAttestation {
            miner,
            class: profile.class,
            logical_cores: cores,
            advertised_mhz: mhz,
            lattice_probe_ns,
            cache_probe_ns,
            clock_skew_ppm,
            ipv4,
            adjacency_rtt_ms,
            mining_duration_ns: if mining_duration_ns < 25_000 { 25_000 } else { mining_duration_ns },
            quote: crate::dag::tx::NULL_PARENT,
        };
        att.seal_quote();
        att
    }

    /// Perfect timings, huge core count, rack round trips: a VM farm.
    pub fn datacenter_bot(miner: Address, class: DeviceClass, ipv4: [u8; 4]) -> (r: Self)
        ensures
            r@ == bot_quote(miner, class, ipv4@),
    {
        let mut att = DeviceAttestation {
            miner,
            class,
            logical_cores: 64,
            advertised_mhz: 3200,
            lattice_probe_ns: vec![80, 80, 80, 80, 80, 80],
            cache_probe_ns: vec![40, 40, 40, 40],
            clock_skew_ppm: vec![0, 0, 0, 0],
            ipv4,
            adjacency_rtt_ms: vec![1, 1, 1, 1],
            mining_duration_ns: 500,
            quote: crate::dag::tx::NULL_PARENT,
        };
        proof {
            assert(att@.lattice =~= seq![80u64, 80, 80, 80, 80, 80]);
            assert(att@.cache =~= seq![40u64, 40, 40, 40]);
            assert(att@.skew =~= seq![0i32, 0, 0, 0]);
            assert(att@.rtt =~= seq![1u16, 1, 1, 1]);
        }
        att.seal_quote();
        att
    }
}

/// The sealed quote of a VM farm.
pub open spec fn bot_quote(miner: Address, class: DeviceClass, ipv4: Seq<u8>) -> AttestationView {
    let a = AttestationView {
        miner,
        class,
        logical_cores: 64,
        advertised_mhz: 3200,
        lattice: seq![80u64, 80, 80, 80, 80, 80],
        cache: seq![40u64, 40, 40, 40],
        skew: seq![0i32, 0, 0, 0],
        ipv4,
        rtt: seq![1u16, 1, 1, 1],
        duration: 500,
        quote: crate::dag::tx::NULL_PARENT,
    };
    AttestationView { quote: a.seal(), ..a }
}

proof fn lemma_join_u64(s: Seq<u64>, i: int)
    requires
        0 <= i < s.len(),
    ensures
        join_u64(s).subrange(8 * i, 8 * i + 8) == le_bytes(s[i] as nat, 8),
    decreases s.len(),
{
    broadcast use lemma_le_bytes_len;

    let h = s.drop_last();
    lemma_join_u64_len(h);
    lemma_join_u64_len(s);
    if i < s.len() - 1 {
        lemma_join_u64(h, i);
        assert(join_u64(s).subrange(8 * i, 8 * i + 8) =~= join_u64(h).subrange(
            8 * i,
            8 * i + 8,
        ));
    } else {
        assert(join_u64(s).subrange(8 * i, 8 * i + 8) =~= le_bytes(s[i] as nat, 8));
    }
}

proof fn lemma_join_u64_len(s: Seq<u64>)
    ensures
        join_u64(s).len() == 8 * s.len(),
    decreases s.len(),
{
    broadcast use lemma_le_bytes_len;

    if s.len() > 0 {
        lemma_join_u64_len(s.drop_last());
    }
}

proof fn lemma_read_u64(b: Seq<u8>, off: int, s: Seq<u64>)
    requires
        0 <= off,
        off + 8 * s.len() <= b.len(),
        b.subrange(off, off + 8 * s.len()) == join_u64(s),
    ensures
        u64s_at(b, off, s.len()) == s,
{
    lemma_pow256_values();
    assert forall|i: int| 0 <= i < s.len() implies u64s_at(b, off, s.len())[i] == s[i] by {
        lemma_join_u64(s, i);
        assert(b.subrange(off + 8 * i, off + 8 * i + 8) =~= b.subrange(
            off,
            off + 8 * s.len(),
        ).subrange(8 * i, 8 * i + 8));
        lemma_le_value_of_bytes(s[i] as nat, 8);
    }
    assert(u64s_at(b, off, s.len()) =~= s);
}

proof fn lemma_join_u16(s: Seq<u16>, i: int)
    requires
        0 <= i < s.len(),
    ensures
        join_u16(s).subrange(2 * i, 2 * i + 2) == le_bytes(s[i] as nat, 2),
    decreases s.len(),
{
    broadcast use lemma_le_bytes_len;

    let h = s.drop_last();
    lemma_join_u16_len(h);
    lemma_join_u16_len(s);
    if i < s.len() - 1 {
        lemma_join_u16(h, i);
        assert(join_u16(s).subrange(2 * i, 2 * i + 2) =~= join_u16(h).subrange(
            2 * i,
            2 * i + 2,
        ));
    } else {
        assert(join_u16(s).subrange(2 * i, 2 * i + 2) =~= le_bytes(s[i] as nat, 2));
    }
}

proof fn lemma_join_u16_len(s: Seq<u16>)
    ensures
        join_u16(s).len() == 2 * s.len(),
    decreases s.len(),
{
    broadcast use lemma_le_bytes_len;

    if s.len() > 0 {
        lemma_join_u16_len(s.drop_last());
    }
}

proof fn lemma_read_u16(b: Seq<u8>, off: int, s: Seq<u16>)
    requires
        0 <= off,
        off + 2 * s.len() <= b.len(),
        b.subrange(off, off + 2 * s.len()) == join_u16(s),
    ensures
        u16s_at(b, off, s.len()) == s,
{
    lemma_pow256_values();
    assert forall|i: int| 0 <= i < s.len() implies u16s_at(b, off, s.len())[i] == s[i] by {
        lemma_join_u16(s, i);
        assert(b.subrange(off + 2 * i, off + 2 * i + 2) =~= b.subrange(
            off,
            off + 2 * s.len(),
        ).subrange(2 * i, 2 * i + 2));
        lemma_le_value_of_bytes(s[i] as nat, 2);
    }
    assert(u16s_at(b, off, s.len()) =~= s);
}

proof fn lemma_join_i32(s: Seq<i32>, i: int)
    requires
        0 <= i < s.len(),
    ensures
        join_i32(s).subrange(4 * i, 4 * i + 4) == le_bytes(complement32(s[i]), 4),
    decreases s.len(),
{
    broadcast use lemma_le_bytes_len;

    let h = s.drop_last();
    lemma_join_i32_len(h);
    lemma_join_i32_len(s);
    if i < s.len() - 1 {
        lemma_join_i32(h, i);
        assert(join_i32(s).subrange(4 * i, 4 * i + 4) =~= join_i32(h).subrange(
            4 * i,
            4 * i + 4,
        ));
    } else {
        assert(join_i32(s).subrange(4 * i, 4 * i + 4) =~= le_bytes(complement32(s[i]), 4));
    }
}

proof fn lemma_join_i32_len(s: Seq<i32>)
    ensures
        join_i32(s).len() == 4 * s.len(),
    decreases s.len(),
{
    broadcast use lemma_le_bytes_len;

    if s.len() > 0 {
        lemma_join_i32_len(s.drop_last());
    }
}

proof fn lemma_read_i32(b: Seq<u8>, off: int, s: Seq<i32>)
    requires
        0 <= off,
        off + 4 * s.len() <= b.len(),
        b.subrange(off, off + 4 * s.len()) == join_i32(s),
    ensures
        i32s_at(b, off, s.len()) == s,
{
    lemma_pow256_values();
    assert forall|i: int| 0 <= i < s.len() implies i32s_at(b, off, s.len())[i] == s[i] by {
        lemma_join_i32(s, i);
        assert(b.subrange(off + 4 * i, off + 4 * i + 4) =~= b.subrange(
            off,
            off + 4 * s.len(),
        ).subrange(4 * i, 4 * i + 4));
        lemma_le_value_of_bytes(complement32(s[i]), 4);
    }
    assert(i32s_at(b, off, s.len()) =~= s);
}

/// How long a sealed quote is on the wire.
pub proof fn lemma_quote_length(a: AttestationView)
    ensures
        (a.canonical() + a.quote@).len() == 83 + 8 * a.lattice.len() + 8 * a.cache.len() + 4
            * a.skew.len() + a.ipv4.len() + 2 * a.rtt.len(),
{
    broadcast use lemma_le_bytes_len;

    lemma_join_u64_len(a.lattice);
    lemma_join_u64_len(a.cache);
    lemma_join_i32_len(a.skew);
    lemma_join_u16_len(a.rtt);
}

/// Decoding undoes encoding for every quote whose lists fit their length byte.
#[verifier::rlimit(60)]
pub proof fn law_attestation_round_trip(a: AttestationView)
    requires
        a.lattice.len() <= 255,
        a.cache.len() <= 255,
        a.skew.len() <= 255,
        a.rtt.len() <= 255,
        a.ipv4.len() == 4,
    ensures
        parsed_attestation(a.canonical() + a.quote@) == Some(
            (a, (a.canonical() + a.quote@).len() as int),
        ),
{
    broadcast use lemma_le_bytes_len;

    let b = a.canonical() + a.quote@;
    lemma_pow256_values();
    lemma_join_u64_len(a.lattice);
    lemma_join_u64_len(a.cache);
    lemma_join_i32_len(a.skew);
    lemma_join_u16_len(a.rtt);
    let n1 = a.lattice.len() as int;
    let n2 = a.cache.len() as int;
    let n3 = a.skew.len() as int;
    let n4 = a.rtt.len() as int;
    let o2 = 40 + 8 * n1;
    let o3 = o2 + 1 + 8 * n2;
    let o4 = o3 + 1 + 4 * n3;
    let o5 = o4 + 5 + 2 * n4;
    lemma_one_byte(a.lattice.len());
    lemma_one_byte(a.cache.len());
    lemma_one_byte(a.skew.len());
    lemma_one_byte(a.rtt.len());
    let c0 = a.miner@;
    let c1 = c0 + seq![a.class.code()];
    let c2 = c1 + le_bytes(a.logical_cores as nat, 2);
    let c3 = c2 + le_bytes(a.advertised_mhz as nat, 4);
    let c4 = c3 + le_bytes(a.lattice.len(), 1);
    let c5 = c4 + join_u64(a.lattice);
    let c6 = c5 + le_bytes(a.cache.len(), 1);
    let c7 = c6 + join_u64(a.cache);
    let c8 = c7 + le_bytes(a.skew.len(), 1);
    let c9 = c8 + join_i32(a.skew);
    let c10 = c9 + a.ipv4;
    let c11 = c10 + le_bytes(a.rtt.len(), 1);
    let c12 = c11 + join_u16(a.rtt);
    let c13 = c12 + le_bytes(a.duration as nat, 8);
    assert(a.canonical() == c13);
    assert(b == c13 + a.quote@);
    lemma_segment(b, c13, a.quote@);
    lemma_inner_segment(b, c13, c12, le_bytes(a.duration as nat, 8));
    lemma_inner_segment(b, c12, c11, join_u16(a.rtt));
    lemma_inner_segment(b, c11, c10, le_bytes(a.rtt.len(), 1));
    lemma_inner_segment(b, c10, c9, a.ipv4);
    lemma_inner_segment(b, c9, c8, join_i32(a.skew));
    lemma_inner_segment(b, c8, c7, le_bytes(a.skew.len(), 1));
    lemma_inner_segment(b, c7, c6, join_u64(a.cache));
    lemma_inner_segment(b, c6, c5, le_bytes(a.cache.len(), 1));
    lemma_inner_segment(b, c5, c4, join_u64(a.lattice));
    lemma_inner_segment(b, c4, c3, le_bytes(a.lattice.len(), 1));
    lemma_inner_segment(b, c3, c2, le_bytes(a.advertised_mhz as nat, 4));
    lemma_inner_segment(b, c2, c1, le_bytes(a.logical_cores as nat, 2));
    lemma_inner_segment(b, c1, c0, seq![a.class.code()]);
    assert(b.subrange(0, 32) =~= b.take(32));
    lemma_array_of(a.miner);
    lemma_le_value_of_bytes(a.logical_cores as nat, 2);
    lemma_le_value_of_bytes(a.advertised_mhz as nat, 4);
    assert(b.subrange(32, 33)[0] == a.class.code());
    assert(b.subrange(39, 40)[0] == n1);
    lemma_read_u64(b, 40, a.lattice);
    assert(b.subrange(o2, o2 + 1)[0] == n2);
    lemma_read_u64(b, o2 + 1, a.cache);
    assert(b.subrange(o3, o3 + 1)[0] == n3);
    lemma_read_i32(b, o3 + 1, a.skew);
    assert(b.subrange(o4 + 4, o4 + 5)[0] == n4);
    lemma_read_u16(b, o4 + 5, a.rtt);
    lemma_le_value_of_bytes(a.duration as nat, 8);
    lemma_array_of(a.quote);
}

/// What follows a quote does not change how it is read.
proof fn lemma_tail_is_left(b: Seq<u8>, tail: Seq<u8>)
    requires
        parsed_attestation(b) is Some,
    ensures
        parsed_attestation(b + tail) == parsed_attestation(b),
{
    let c = b + tail;
    let n1 = b[39] as int;
    let o2 = 40 + 8 * n1;
    let n2 = b[o2] as int;
    let o3 = o2 + 1 + 8 * n2;
    let n3 = b[o3] as int;
    let o4 = o3 + 1 + 4 * n3;
    let n4 = b[o4 + 4] as int;
    let o5 = o4 + 5 + 2 * n4;
    assert(forall|i: int| 0 <= i < b.len() ==> c[i] == b[i]);
    assert(c.subrange(0, 32) =~= b.subrange(0, 32));
    assert(c.subrange(33, 35) =~= b.subrange(33, 35));
    assert(c.subrange(35, 39) =~= b.subrange(35, 39));
    assert(u64s_at(c, 40, n1 as nat) =~= u64s_at(b, 40, n1 as nat)) by {
        assert forall|i: int| 0 <= i < n1 implies #[trigger] u64s_at(c, 40, n1 as nat)[i] == u64s_at(
            b,
            40,
            n1 as nat,
        )[i] by {
            assert(c.subrange(40 + 8 * i, 40 + 8 * i + 8) =~= b.subrange(
                40 + 8 * i,
                40 + 8 * i + 8,
            ));
        }
    }
    assert(u64s_at(c, o2 + 1, n2 as nat) =~= u64s_at(b, o2 + 1, n2 as nat)) by {
        assert forall|i: int| 0 <= i < n2 implies #[trigger] u64s_at(c, o2 + 1, n2 as nat)[i] == u64s_at(
            b,
            o2 + 1,
            n2 as nat,
        )[i] by {
            assert(c.subrange(o2 + 1 + 8 * i, o2 + 1 + 8 * i + 8) =~= b.subrange(
                o2 + 1 + 8 * i,
                o2 + 1 + 8 * i + 8,
            ));
        }
    }
    assert(i32s_at(c, o3 + 1, n3 as nat) =~= i32s_at(b, o3 + 1, n3 as nat)) by {
        assert forall|i: int| 0 <= i < n3 implies #[trigger] i32s_at(c, o3 + 1, n3 as nat)[i] == i32s_at(
            b,
            o3 + 1,
            n3 as nat,
        )[i] by {
            assert(c.subrange(o3 + 1 + 4 * i, o3 + 1 + 4 * i + 4) =~= b.subrange(
                o3 + 1 + 4 * i,
                o3 + 1 + 4 * i + 4,
            ));
        }
    }
    assert(c.subrange(o4, o4 + 4) =~= b.subrange(o4, o4 + 4));
    assert(u16s_at(c, o4 + 5, n4 as nat) =~= u16s_at(b, o4 + 5, n4 as nat)) by {
        assert forall|i: int| 0 <= i < n4 implies #[trigger] u16s_at(c, o4 + 5, n4 as nat)[i] == u16s_at(
            b,
            o4 + 5,
            n4 as nat,
        )[i] by {
            assert(c.subrange(o4 + 5 + 2 * i, o4 + 5 + 2 * i + 2) =~= b.subrange(
                o4 + 5 + 2 * i,
                o4 + 5 + 2 * i + 2,
            ));
        }
    }
    assert(c.subrange(o5, o5 + 8) =~= b.subrange(o5, o5 + 8));
    assert(c.subrange(o5 + 8, o5 + 40) =~= b.subrange(o5 + 8, o5 + 40));
}

/// A quote is read out of a longer byte string as it stands, with its own length.
pub proof fn law_attestation_reads_from_a_stream(a: AttestationView, tail: Seq<u8>)
    requires
        a.lattice.len() <= 255,
        a.cache.len() <= 255,
        a.skew.len() <= 255,
        a.rtt.len() <= 255,
        a.ipv4.len() == 4,
    ensures
        parsed_attestation(a.canonical() + a.quote@ + tail) == Some(
            (a, (a.canonical() + a.quote@).len() as int),
        ),
{
    law_attestation_round_trip(a);
    lemma_tail_is_left(a.canonical() + a.quote@, tail);
}

/// A quote that is cut off is refused, wherever it is cut.
pub proof fn law_cut_attestation_is_refused(a: AttestationView, k: int)
    requires
        a.lattice.len() <= 255,
        a.cache.len() <= 255,
        a.skew.len() <= 255,
        a.rtt.len() <= 255,
        a.ipv4.len() == 4,
        0 <= k < (a.canonical() + a.quote@).len(),
    ensures
        parsed_attestation((a.canonical() + a.quote@).take(k)) is None,
{
    let b = a.canonical() + a.quote@;
    let c = b.take(k);
    law_attestation_round_trip(a);
    if parsed_attestation(c) is Some {
        lemma_tail_is_left(c, b.skip(k));
        assert(c + b.skip(k) =~= b);
    }
}

proof fn lemma_one_byte(n: nat)
    requires
        n <= 255,
    ensures
        le_bytes(n, 1) == seq![n as u8],
{
    reveal_with_fuel(le_bytes, 2);
    assert(le_bytes(n, 1) =~= seq![n as u8]);
}

/// A virtual-machine farm never passes, whatever class and endpoint it claims.
pub proof fn law_vm_farm_is_rejected(miner: Address, class: DeviceClass, ipv4: Seq<u8>)
    ensures
        bot_quote(miner, class, ipv4).fault() == Some(SecurityError::VirtualMachineFingerprint),
{
    let a = bot_quote(miner, class, ipv4);
    let s = a.lattice;
    lemma_uniform_spread(s, 80);
    assert(0nat / 1nat < s.len() * s.len()) by (nonlinear_arith)
        requires
            s.len() == 6,
    ;
}

proof fn lemma_uniform_spread(s: Seq<u64>, x: u64)
    requires
        forall|i: int| 0 <= i < s.len() ==> #[trigger] s[i] == x,
    ensures
        spread(s) == 0,
    decreases s.len(),
{
    if s.len() > 0 {
        let h = s.drop_last();
        assert forall|i: int| 0 <= i < h.len() implies #[trigger] h[i] == x by {
            assert(h[i] == s[i]);
        }
        lemma_uniform_spread(h, x);
        assert(s[s.len() - 1] == x);
        lemma_uniform_gaps(s, x, (s.len() - 1) as nat);
    }
}

proof fn lemma_uniform_gaps(s: Seq<u64>, x: u64, n: nat)
    requires
        n <= s.len(),
        forall|i: int| 0 <= i < s.len() ==> #[trigger] s[i] == x,
    ensures
        gaps_to(s, x, n) == 0,
    decreases n,
{
    if n > 0 {
        lemma_uniform_gaps(s, x, (n - 1) as nat);
        assert(s[n - 1] == x);
        let g = gap(s[n - 1], x);
        assert(g * g == 0) by (nonlinear_arith)
            requires
                g == 0,
        ;
    }
}

/// A quote that was altered after sealing is invalid unless the digests agree.
pub proof fn law_unsealed_quote_is_invalid(a: AttestationView)
    requires
        a.quote != a.seal(),
    ensures
        a.fault() == Some(SecurityError::AttestationInvalid),
{
}

} // verus!
