//! Identities and signatures: NIST ML-DSA-44 (FIPS 204 / Dilithium2).
//!
//! Versioned envelope: byte `2` marks ML-DSA-44. Version `1` (a toy LWE scheme)
//! is rejected. The module-LWE arithmetic below is mining work only, never a
//! signature.

use fips204::ml_dsa_44::{PrivateKey, PublicKey, KG};
use fips204::traits::{KeyGen, SerDes, Signer, Verifier};
use rand::rngs::StdRng;
use rand::RngCore;
use vstd::prelude::*;

use crate::bytes::{append, get_u32, le_bytes, le_value, lemma_le_bytes_len,
    lemma_le_value_of_bytes, lemma_pow256_values, put_le, put_u32, slices_equal, to_vec};
use crate::crypto::hash::{sha256, sha256_of};
use crate::types::Address;

verus! {

/// Rejected educational LWE wire tag.
pub const SCHEME_TOY_LWE: u8 = 1;

/// NIST ML-DSA-44 / Dilithium2.
pub const SCHEME_MLDSA44: u8 = 2;

/// Length of a raw ML-DSA-44 public key.
pub const PK_LEN: usize = 1312;

/// Length of a raw ML-DSA-44 secret key.
pub const SK_LEN: usize = 2560;

/// Length of a raw ML-DSA-44 signature.
pub const SIG_LEN: usize = 2420;

/// Secret / error dimension of the mining matrix.
pub const N: usize = 32;

/// Number of rows of the mining matrix.
pub const M: usize = 48;

/// Prime modulus of the mining arithmetic.
pub const Q: i64 = 8_380_417;

#[derive(Clone, Copy, Debug, PartialEq, Eq, Structural)]
pub enum CryptoError {
    VerifyFailed,
    SigningAborted(usize),
    InvalidEncoding,
    ObsoleteScheme,
}

/// `rand::rngs::StdRng`, a seedable generator.
#[verifier::external_type_specification]
#[verifier::external_body]
pub struct ExStdRng(StdRng);

/// The raw key pair (public, secret) that ML-DSA-44 key generation derives
/// from a 32-byte seed.
pub uninterp spec fn mldsa_keypair(seed: Seq<u8>) -> (Seq<u8>, Seq<u8>);

/// Whether `sk` decodes as an ML-DSA-44 secret key.
pub uninterp spec fn mldsa_secret_ok(sk: Seq<u8>) -> bool;

/// Whether `sig` is a valid ML-DSA-44 signature of `msg` under `pk` with the
/// context string `ctx`.
pub uninterp spec fn mldsa_verifies(
    pk: Seq<u8>,
    msg: Seq<u8>,
    sig: Seq<u8>,
    ctx: Seq<u8>,
) -> bool;

/// `fips204::ml_dsa_44::KG::keygen_from_seed`, with both keys as raw bytes.
///
/// Key generation is deterministic in the seed, the encodings have the fixed
/// lengths of the scheme, and the secret key decodes again.
#[verifier::external_body]
fn mldsa_keygen(seed: &[u8; 32]) -> (r: (Vec<u8>, Vec<u8>))
    ensures
        (r.0@, r.1@) == mldsa_keypair(seed@),
        r.0@.len() == PK_LEN,
        r.1@.len() == SK_LEN,
        mldsa_secret_ok(r.1@),
{
    let (pk, sk) = KG::keygen_from_seed(seed);
    (pk.into_bytes().to_vec(), sk.into_bytes().to_vec())
}

/// `PublicKey::try_from_bytes`: every string of the right length decodes, since
/// each packed coefficient is in range by its width.
#[verifier::external_body]
fn mldsa_public_decodes(raw: &[u8]) -> (r: bool)
    requires
        raw@.len() == PK_LEN,
    ensures
        r,
{
    PublicKey::try_from_bytes(raw.try_into().unwrap()).is_ok()
}

/// `PrivateKey::try_from_bytes`: whether the packed coefficients are in range.
#[verifier::external_body]
fn mldsa_secret_decodes(raw: &[u8]) -> (r: bool)
    requires
        raw@.len() == SK_LEN,
    ensures
        r == mldsa_secret_ok(raw@),
{
    PrivateKey::try_from_bytes(raw.try_into().unwrap()).is_ok()
}

/// `PrivateKey::try_sign` on a key given by its raw bytes.
///
/// Signing is randomised, so the signature itself is not named. A signature has
/// the fixed length, and one made with a generated secret key verifies under
/// the public key of the same seed. Signing fails only where the system's
/// random source fails.
#[verifier::external_body]
fn mldsa_sign(sk: &[u8], message: &[u8], ctx: &[u8]) -> (r: Option<Vec<u8>>)
    requires
        sk@.len() == SK_LEN,
        mldsa_secret_ok(sk@),
        ctx@.len() <= 255,
    ensures
        r is Some ==> r->0@.len() == SIG_LEN,
        r is Some ==> forall|seed: Seq<u8>|
            seed.len() == 32 && (#[trigger] mldsa_keypair(seed)).1 == sk@ ==> mldsa_verifies(
                mldsa_keypair(seed).0,
                message@,
                r->0@,
                ctx@,
            ),
{
    let key = PrivateKey::try_from_bytes(sk.try_into().unwrap()).ok()?;
    key.try_sign(message, ctx).ok().map(|s| s.to_vec())
}

/// `PublicKey::verify` on a key given by its raw bytes.
#[verifier::external_body]
fn mldsa_verify(pk: &[u8], message: &[u8], sig: &[u8], ctx: &[u8]) -> (r: bool)
    requires
        pk@.len() == PK_LEN,
        sig@.len() == SIG_LEN,
    ensures
        r == mldsa_verifies(pk@, message@, sig@, ctx@),
{
    let key = PublicKey::try_from_bytes(pk.try_into().unwrap()).unwrap();
    key.verify(message, sig.try_into().unwrap(), ctx)
}

/// `StdRng::fill_bytes` on 32 bytes. Nothing is known of the bytes.
#[verifier::external_body]
pub(crate) fn random_seed(rng: &mut StdRng) -> [u8; 32] {
    let mut seed = [0u8; 32];
    rng.fill_bytes(&mut seed);
    seed
}

/// The FIPS 204 context string of this network.
pub open spec fn signing_context() -> Seq<u8> {
    seq![0x4Bu8, 0x52u8, 0x4Fu8, 0x4Eu8]
}

fn context_bytes() -> (r: [u8; 4])
    ensures
        r@ == signing_context(),
{
    let r = [0x4Bu8, 0x52u8, 0x4Fu8, 0x4Eu8];
    assert(r@ =~= signing_context());
    r
}

/// ML-DSA-44 public key.
#[derive(Debug, PartialEq, Eq)]
pub struct LatticePublicKey {
    raw: Vec<u8>,
}

/// ML-DSA-44 secret key bytes (never logged).
#[derive(PartialEq, Eq)]
pub struct LatticeSecretKey {
    raw: Vec<u8>,
}

/// Node / wallet identity.
pub struct LatticeKeyPair {
    pub public: LatticePublicKey,
    pub secret: LatticeSecretKey,
}

/// ML-DSA-44 detached signature.
#[derive(Debug, PartialEq, Eq)]
pub struct LatticeSignature {
    pub bytes: Vec<u8>,
}

impl View for LatticePublicKey {
    type V = Seq<u8>;

    closed spec fn view(&self) -> Seq<u8> {
        self.raw@
    }
}

impl View for LatticeSecretKey {
    type V = Seq<u8>;

    closed spec fn view(&self) -> Seq<u8> {
        self.raw@
    }
}

impl View for LatticeSignature {
    type V = Seq<u8>;

    open spec fn view(&self) -> Seq<u8> {
        self.bytes@
    }
}

impl Clone for LatticePublicKey {
    fn clone(&self) -> (r: Self)
        ensures
            r@ == self@,
    {
        LatticePublicKey { raw: to_vec(self.raw.as_slice()) }
    }
}

impl Clone for LatticeSecretKey {
    fn clone(&self) -> (r: Self)
        ensures
            r@ == self@,
    {
        LatticeSecretKey { raw: to_vec(self.raw.as_slice()) }
    }
}

impl Clone for LatticeSignature {
    fn clone(&self) -> (r: Self)
        ensures
            r@ == self@,
    {
        LatticeSignature { bytes: to_vec(self.bytes.as_slice()) }
    }
}

impl Clone for LatticeKeyPair {
    fn clone(&self) -> (r: Self)
        ensures
            r.public@ == self.public@,
            r.secret@ == self.secret@,
    {
        LatticeKeyPair { public: self.public.clone(), secret: self.secret.clone() }
    }
}

/// Whether a signature of `msg` is accepted under the raw public key `pk`.
pub open spec fn signature_accepted(pk: Seq<u8>, msg: Seq<u8>, sig: Seq<u8>) -> bool {
    &&& pk.len() == PK_LEN
    &&& sig.len() == SIG_LEN
    &&& mldsa_verifies(pk, msg, sig, signing_context())
}

/// Whether `sk` is a usable secret key.
pub open spec fn secret_usable(sk: Seq<u8>) -> bool {
    sk.len() == SK_LEN && mldsa_secret_ok(sk)
}

/// Whether the two raw keys came out of one seed.
pub open spec fn keys_match(pk: Seq<u8>, sk: Seq<u8>) -> bool {
    &&& pk.len() == PK_LEN
    &&& exists|seed: Seq<u8>| seed.len() == 32 && #[trigger] mldsa_keypair(seed) == (pk, sk)
}

/// The versioned envelope: scheme byte, length (modulo 2^32), contents.
pub open spec fn blob(scheme: u8, raw: Seq<u8>) -> Seq<u8> {
    seq![scheme] + le_bytes(raw.len(), 4) + raw
}

/// The ledger address of a raw public key.
pub open spec fn address_of(pk: Seq<u8>) -> Address {
    sha256_of(blob(SCHEME_MLDSA44, pk))
}

impl LatticeSignature {
    pub fn empty() -> (r: Self)
        ensures
            r@ == Seq::<u8>::empty(),
    {
        LatticeSignature { bytes: Vec::new() }
    }

    /// Canonical encoding: version, length, signature bytes.
    pub fn to_bytes(&self) -> (r: Vec<u8>)
        ensures
            r@ == blob(SCHEME_MLDSA44, self@),
    {
        encode_blob(SCHEME_MLDSA44, self.bytes.as_slice())
    }

    pub fn from_bytes(bytes: &[u8]) -> (r: Result<Self, CryptoError>)
        ensures
            match r {
                Ok(sig) => blob_length(bytes@, 0, SIG_LEN as int) == Ok::<int, CryptoError>(
                    5 + SIG_LEN as int,
                ) && sig@ == bytes@.subrange(5, 5 + SIG_LEN as int),
                Err(e) => blob_length(bytes@, 0, SIG_LEN as int) == Err::<int, CryptoError>(e),
            },
    {
        match decode_blob(bytes, SIG_LEN) {
            Ok(raw) => Ok(LatticeSignature { bytes: raw }),
            Err(e) => Err(e),
        }
    }
}

impl LatticeKeyPair {
    /// Samples a fresh key from `rng`: 32 random bytes, then key generation.
    pub fn generate(rng: &mut StdRng) -> (r: Self)
        ensures
            r.public@.len() == PK_LEN,
            secret_usable(r.secret@),
            keys_match(r.public@, r.secret@),
    {
        Self::from_seed(random_seed(rng))
    }

    pub fn sign(&self, message: &[u8]) -> (r: Result<LatticeSignature, CryptoError>)
        ensures
            match r {
                Ok(sig) => {
                    &&& secret_usable(self.secret@)
                    &&& sig@.len() == SIG_LEN
                    &&& keys_match(self.public@, self.secret@) ==> signature_accepted(
                        self.public@,
                        message@,
                        sig@,
                    )
                },
                Err(e) => e == (if secret_usable(self.secret@) {
                    CryptoError::SigningAborted(1)
                } else {
                    CryptoError::InvalidEncoding
                }),
            },
    {
        self.secret.sign(message)
    }

    /// Deterministic key from a 32-byte seed.
    pub fn from_seed(seed: [u8; 32]) -> (r: Self)
        ensures
            (r.public@, r.secret@) == mldsa_keypair(seed@),
            r.public@.len() == PK_LEN,
            secret_usable(r.secret@),
            keys_match(r.public@, r.secret@),
    {
        let (pk, sk) = mldsa_keygen(&seed);
        proof {
            assert(mldsa_keypair(seed@) == (pk@, sk@));
        }
        LatticeKeyPair {
            public: LatticePublicKey { raw: pk },
            secret: LatticeSecretKey { raw: sk },
        }
    }
}

impl LatticeSecretKey {
    pub fn to_bytes(&self) -> (r: Vec<u8>)
        ensures
            r@ == blob(SCHEME_MLDSA44, self@),
    {
        encode_blob(SCHEME_MLDSA44, self.raw.as_slice())
    }

    pub fn from_bytes(bytes: &[u8]) -> (r: Result<Self, CryptoError>)
        ensures
            match r {
                Ok(sk) => {
                    &&& blob_length(bytes@, 0, SK_LEN as int) is Ok
                    &&& sk@ == bytes@.subrange(5, 5 + SK_LEN as int)
                    &&& mldsa_secret_ok(sk@)
                },
                Err(e) => match blob_length(bytes@, 0, SK_LEN as int) {
                    Ok(_) => e == CryptoError::InvalidEncoding && !mldsa_secret_ok(
                        bytes@.subrange(5, 5 + SK_LEN as int),
                    ),
                    Err(b) => e == b,
                },
            },
    {
        match decode_blob(bytes, SK_LEN) {
            Ok(raw) => {
                if !mldsa_secret_decodes(raw.as_slice()) {
                    return Err(CryptoError::InvalidEncoding);
                }
                Ok(LatticeSecretKey { raw })
            },
            Err(e) => Err(e),
        }
    }

    /// Whether the two keys hold the same bytes.
    pub fn same_as(&self, other: &LatticeSecretKey) -> (r: bool)
        ensures
            r == (self@ == other@),
    {
        slices_equal(self.raw.as_slice(), other.raw.as_slice())
    }

    /// Signs `message`. A key that is not usable is an encoding error; with a
    /// usable one only the random source can fail.
    pub fn sign(&self, message: &[u8]) -> (r: Result<LatticeSignature, CryptoError>)
        ensures
            match r {
                Ok(sig) => {
                    &&& secret_usable(self@)
                    &&& sig@.len() == SIG_LEN
                    &&& forall|pk: Seq<u8>| #[trigger]
                        keys_match(pk, self@) ==> signature_accepted(
                            pk,
                            message@,
                            sig@,
                        )
                },
                Err(e) => e == (if secret_usable(self@) {
                    CryptoError::SigningAborted(1)
                } else {
                    CryptoError::InvalidEncoding
                }),
            },
    {
        if self.raw.len() != SK_LEN || !mldsa_secret_decodes(self.raw.as_slice()) {
            return Err(CryptoError::InvalidEncoding);
        }
        let ctx = context_bytes();
        match mldsa_sign(self.raw.as_slice(), message, ctx.as_slice()) {
            Some(bytes) => {
                proof {
                    assert forall|pk: Seq<u8>| #[trigger]
                        keys_match(pk, self@) implies signature_accepted(
                        pk,
                        message@,
                        bytes@,
                    ) by {
                        let seed = choose|seed: Seq<u8>|
                            seed.len() == 32 && #[trigger] mldsa_keypair(seed) == (pk, self@);
                        assert(mldsa_keypair(seed).1 == self.raw@);
                    }
                }
                Ok(LatticeSignature { bytes })
            },
            None => Err(CryptoError::SigningAborted(1)),
        }
    }
}

impl LatticePublicKey {
    /// Whether `signature` is a valid signature of `message` under this key.
    pub fn verify(&self, message: &[u8], signature: &LatticeSignature) -> (r: bool)
        ensures
            r == signature_accepted(self@, message@, signature@),
    {
        if self.raw.len() != PK_LEN || signature.bytes.len() != SIG_LEN {
            return false;
        }
        let ctx = context_bytes();
        mldsa_verify(
            self.raw.as_slice(),
            message,
            signature.bytes.as_slice(),
            ctx.as_slice(),
        )
    }

    /// Canonical encoding: version, length, raw public key.
    pub fn to_bytes(&self) -> (r: Vec<u8>)
        ensures
            r@ == blob(SCHEME_MLDSA44, self@),
    {
        encode_blob(SCHEME_MLDSA44, self.raw.as_slice())
    }

    pub fn from_bytes(bytes: &[u8]) -> (r: Result<Self, CryptoError>)
        ensures
            match r {
                Ok(pk) => blob_length(bytes@, 0, PK_LEN as int) is Ok && pk@ == bytes@.subrange(
                    5,
                    5 + PK_LEN as int,
                ),
                Err(e) => blob_length(bytes@, 0, PK_LEN as int) == Err::<int, CryptoError>(e),
            },
    {
        match decode_blob(bytes, PK_LEN) {
            Ok(raw) => {
                if !mldsa_public_decodes(raw.as_slice()) {
                    return Err(CryptoError::InvalidEncoding);
                }
                Ok(LatticePublicKey { raw })
            },
            Err(e) => Err(e),
        }
    }

    /// Device address: SHA-256 of the versioned public key.
    pub fn address(&self) -> (r: Address)
        ensures
            r == address_of(self@),
    {
        sha256(self.to_bytes().as_slice())
    }

    /// Bytes consumed by a versioned public-key encoding at `bytes[off..]`.
    pub fn encoded_len(bytes: &[u8], off: usize) -> (r: Result<usize, CryptoError>)
        requires
            off <= bytes@.len(),
        ensures
            match r {
                Ok(n) => blob_length(bytes@, off as int, PK_LEN as int) == Ok::<int, CryptoError>(
                    n as int,
                ),
                Err(e) => blob_length(bytes@, off as int, PK_LEN as int) == Err::<int, CryptoError>(e),
            },
    {
        blob_len(bytes, off, PK_LEN)
    }

    /// Whether the two keys hold the same bytes.
    pub fn same_as(&self, other: &LatticePublicKey) -> (r: bool)
        ensures
            r == (self@ == other@),
    {
        slices_equal(self.raw.as_slice(), other.raw.as_slice())
    }
}

fn encode_blob(scheme: u8, raw: &[u8]) -> (r: Vec<u8>)
    ensures
        r@ == blob(scheme, raw@),
{
    let mut out: Vec<u8> = Vec::new();
    out.push(scheme);
    put_le(&mut out, raw.len() as u64, 4);
    append(&mut out, raw);
    assert(out@ =~= blob(scheme, raw@));
    out
}

/// How many bytes the envelope at `off` takes, where its contents must be
/// `expected` bytes long.
pub open spec fn blob_length(bytes: Seq<u8>, off: int, expected: int) -> Result<int, CryptoError> {
    if bytes.len() < off + 5 {
        Err(CryptoError::InvalidEncoding)
    } else if bytes[off] == SCHEME_TOY_LWE {
        Err(CryptoError::ObsoleteScheme)
    } else if bytes[off] != SCHEME_MLDSA44 {
        Err(CryptoError::InvalidEncoding)
    } else if le_value(bytes.subrange(off + 1, off + 5)) != expected {
        Err(CryptoError::InvalidEncoding)
    } else if bytes.len() < off + 5 + expected {
        Err(CryptoError::InvalidEncoding)
    } else {
        Ok(5 + expected)
    }
}

fn blob_len(bytes: &[u8], off: usize, expected: usize) -> (r: Result<usize, CryptoError>)
    requires
        off <= bytes@.len(),
        expected <= 0xffff,
    ensures
        match r {
            Ok(n) => blob_length(bytes@, off as int, expected as int) == Ok::<int, CryptoError>(
                n as int,
            ),
            Err(e) => blob_length(bytes@, off as int, expected as int) == Err::<int, CryptoError>(e),
        },
{
    let left: usize = bytes.len() - off;
    if left < 5 {
        return Err(CryptoError::InvalidEncoding);
    }
    if bytes[off] == SCHEME_TOY_LWE {
        return Err(CryptoError::ObsoleteScheme);
    }
    if bytes[off] != SCHEME_MLDSA44 {
        return Err(CryptoError::InvalidEncoding);
    }
    let n: u32 = get_u32(bytes, off + 1);
    if n != expected as u32 {
        return Err(CryptoError::InvalidEncoding);
    }
    if left - 5 < expected {
        return Err(CryptoError::InvalidEncoding);
    }
    Ok(5 + expected)
}

fn decode_blob(bytes: &[u8], expected: usize) -> (r: Result<Vec<u8>, CryptoError>)
    requires
        expected <= 0xffff,
    ensures
        match r {
            Ok(raw) => blob_length(bytes@, 0, expected as int) == Ok::<int, CryptoError>(
                5 + expected,
            ) && raw@ == bytes@.subrange(5, 5 + expected) && raw@.len() == expected,
            Err(e) => blob_length(bytes@, 0, expected as int) == Err::<int, CryptoError>(e),
        },
{
    match blob_len(bytes, 0, expected) {
        Ok(n) => Ok(to_vec(vstd::slice::slice_subrange(bytes, 5, n))),
        Err(e) => Err(e),
    }
}

/// An envelope at any offset reads back as the contents that were written.
pub proof fn lemma_blob_reads_back(bytes: Seq<u8>, off: int, raw: Seq<u8>)
    requires
        0 <= off,
        off + 5 + raw.len() <= bytes.len(),
        raw.len() <= u32::MAX,
        bytes.subrange(off, off + 5 + raw.len()) == blob(SCHEME_MLDSA44, raw),
    ensures
        blob_length(bytes, off, raw.len() as int) == Ok::<int, CryptoError>(5 + raw.len() as int),
        bytes.subrange(off + 5, off + 5 + raw.len()) == raw,
{
    let b = blob(SCHEME_MLDSA44, raw);
    let w = bytes.subrange(off, off + 5 + raw.len());
    lemma_le_bytes_len(raw.len(), 4);
    lemma_pow256_values();
    lemma_le_value_of_bytes(raw.len(), 4);
    assert(bytes[off] == w[0]);
    assert(bytes.subrange(off + 1, off + 5) =~= le_bytes(raw.len(), 4)) by {
        assert forall|i: int| 0 <= i < 4 implies bytes[off + 1 + i] == le_bytes(raw.len(), 4)[i] by {
            assert(w[1 + i] == b[1 + i]);
        }
    }
    assert(bytes.subrange(off + 5, off + 5 + raw.len()) =~= raw) by {
        assert forall|i: int| 0 <= i < raw.len() implies bytes[off + 5 + i] == raw[i] by {
            assert(w[5 + i] == b[5 + i]);
        }
    }
}

/// Reading what was written gives the same raw key or signature back.
pub proof fn law_envelope_round_trip(raw: Seq<u8>)
    requires
        raw.len() <= u32::MAX,
    ensures
        blob_length(blob(SCHEME_MLDSA44, raw), 0, raw.len() as int) == Ok::<int, CryptoError>(
            5 + raw.len() as int,
        ),
        blob(SCHEME_MLDSA44, raw).subrange(5, 5 + raw.len() as int) == raw,
{
    let b = blob(SCHEME_MLDSA44, raw);
    lemma_le_bytes_len(raw.len(), 4);
    assert(b.subrange(0, 5 + raw.len() as int) =~= b);
    lemma_blob_reads_back(b, 0, raw);
}

/// A toy-LWE envelope is refused as obsolete wherever it stands.
pub proof fn law_toy_scheme_is_obsolete(bytes: Seq<u8>, off: int, expected: int)
    requires
        0 <= off,
        off + 5 <= bytes.len(),
        bytes[off] == SCHEME_TOY_LWE,
    ensures
        blob_length(bytes, off, expected) == Err::<int, CryptoError>(CryptoError::ObsoleteScheme),
{
}


/// Entry number `idx` of the public matrix that `seed` expands to: the SHA-256
/// blocks of `seed` and a running counter give eight 32-bit words each, reduced
/// modulo [`Q`].
pub open spec fn matrix_entry(seed: Seq<u8>, idx: nat) -> int {
    let block = sha256_of(seed + le_bytes(idx / 8, 4));
    let at = 4 * (idx % 8) as int;
    (le_value(block@.subrange(at, at + 4)) as int) % (Q as int)
}

/// Expands the 48 by 32 matrix of `seed`.
pub fn expand_matrix(seed: &[u8; 32]) -> (r: Vec<Vec<i64>>)
    ensures
        r@.len() == M,
        forall|i: int| 0 <= i < M ==> (#[trigger] r@[i])@.len() == N,
        forall|i: int, j: int|
            0 <= i < M && 0 <= j < N ==> #[trigger] r@[i]@[j] == matrix_entry(
                seed@,
                (i * N + j) as nat,
            ),
{
    expand_matrix_sized(seed, M, N)
}

/// Expands a matrix of any size, row by row.
pub fn expand_matrix_sized(seed: &[u8; 32], rows: usize, cols: usize) -> (r: Vec<Vec<i64>>)
    requires
        rows * cols <= 8 * u32::MAX,
    ensures
        r@.len() == rows,
        forall|i: int| 0 <= i < rows ==> (#[trigger] r@[i])@.len() == cols,
        forall|i: int, j: int|
            0 <= i < rows && 0 <= j < cols ==> #[trigger] r@[i]@[j] == matrix_entry(
                seed@,
                (i * cols + j) as nat,
            ),
{
    let mut out: Vec<Vec<i64>> = Vec::new();
    let mut idx: u64 = 0;
    let mut block: [u8; 32] = [0u8; 32];
    let mut i: usize = 0;
    while i < rows
        invariant
            i <= rows,
            rows * cols <= 8 * u32::MAX,
            idx == i * cols,
            idx % 8 != 0 ==> block == sha256_of(seed@ + le_bytes((idx / 8) as nat, 4)),
            out@.len() == i,
            forall|a: int| 0 <= a < i ==> (#[trigger] out@[a])@.len() == cols,
            forall|a: int, j: int|
                0 <= a < i && 0 <= j < cols ==> #[trigger] out@[a]@[j] == matrix_entry(
                    seed@,
                    (a * cols + j) as nat,
                ),
        decreases rows - i,
    {
        let mut row: Vec<i64> = Vec::new();
        let mut j: usize = 0;
        proof {
            assert(i * cols + cols == (i + 1) * cols) by (nonlinear_arith);
            assert((i + 1) * cols <= rows * cols) by (nonlinear_arith)
                requires
                    i + 1 <= rows,
            ;
        }
        while j < cols
            invariant
                j <= cols,
                i < rows,
                i * cols + cols <= 8 * u32::MAX,
                idx == i * cols + j,
                idx % 8 != 0 ==> block == sha256_of(seed@ + le_bytes((idx / 8) as nat, 4)),
                row@.len() == j,
                forall|b: int|
                    0 <= b < j ==> #[trigger] row@[b] == matrix_entry(seed@, (i * cols + b) as nat),
            decreases cols - j,
        {
            if idx % 8 == 0 {
                let mut input: Vec<u8> = Vec::new();
                append(&mut input, seed.as_slice());
                put_u32(&mut input, (idx / 8) as u32);
                assert(input@ =~= seed@ + le_bytes((idx / 8) as nat, 4));
                block = sha256(input.as_slice());
            }
            let at: usize = 4 * (idx % 8) as usize;
            let word: u32 = get_u32(block.as_slice(), at);
            let entry: i64 = (word as i64) % Q;
            row.push(entry);
            idx += 1;
            j += 1;
        }
        out.push(row);
        i += 1;
    }
    out
}

/// `x` modulo `q`, taken from the interval that is centred on zero.
pub open spec fn centered(x: int, q: int) -> int {
    let r = x % q;
    if r > q / 2 {
        r - q
    } else {
        r
    }
}

/// Residue of `x` modulo `q` in `(-q/2, q/2]`.
pub fn centered_mod(x: i64, q: i64) -> (r: i64)
    requires
        q > 0,
    ensures
        r == centered(x as int, q as int),
        -q < 2 * r <= q,
{
    let r: i64 = if x >= 0 {
        x % q
    } else {
        let up: i64 = (-1 - x) % q;
        proof {
            lemma_negative_mod(x as int, q as int);
        }
        q - 1 - up
    };
    if r > q / 2 {
        r - q
    } else {
        r
    }
}

proof fn lemma_negative_mod(x: int, q: int)
    requires
        q > 0,
        x < 0,
    ensures
        x % q == q - 1 - (-1 - x) % q,
{
    let m = -1 - x;
    let a = m % q;
    let d = m / q;
    vstd::arithmetic::div_mod::lemma_fundamental_div_mod(m, q);
    assert(x == q * (-d - 1) + (q - 1 - a)) by (nonlinear_arith)
        requires
            m == -1 - x,
            m == q * d + a,
    ;
    vstd::arithmetic::div_mod::lemma_fundamental_div_mod_converse(x, q, -d - 1, q - 1 - a);
}

/// The wrapping sum of the wrapping products of the first `n` pairs.
pub open spec fn wrapping_dot(row: Seq<i64>, v: Seq<i64>, n: nat) -> i64
    decreases n,
{
    if n == 0 {
        0
    } else {
        let i = (n - 1) as int;
        wrapping_dot(row, v, (n - 1) as nat).wrapping_add(row[i].wrapping_mul(v[i]))
    }
}

/// Length of the shorter of two sequences.
pub open spec fn common_len(row: Seq<i64>, v: Seq<i64>) -> nat {
    if row.len() < v.len() {
        row.len()
    } else {
        v.len()
    }
}

/// Matrix-vector product modulo [`Q`], centred on zero.
pub fn matrix_vec(a: &[Vec<i64>], v: &[i64]) -> (r: Vec<i64>)
    ensures
        r@.len() == a@.len(),
        forall|i: int|
            0 <= i < a@.len() ==> #[trigger] r@[i] == centered(
                wrapping_dot(a@[i]@, v@, common_len(a@[i]@, v@)) as int,
                Q as int,
            ),
{
    matrix_vec_scalar(a, v)
}

/// Portable matrix-vector product.
pub fn matrix_vec_scalar(a: &[Vec<i64>], v: &[i64]) -> (r: Vec<i64>)
    ensures
        r@.len() == a@.len(),
        forall|i: int|
            0 <= i < a@.len() ==> #[trigger] r@[i] == centered(
                wrapping_dot(a@[i]@, v@, common_len(a@[i]@, v@)) as int,
                Q as int,
            ),
{
    let mut out: Vec<i64> = Vec::new();
    let mut i: usize = 0;
    while i < a.len()
        invariant
            i <= a@.len(),
            out@.len() == i,
            forall|k: int|
                0 <= k < i ==> #[trigger] out@[k] == centered(
                    wrapping_dot(a@[k]@, v@, common_len(a@[k]@, v@)) as int,
                    Q as int,
                ),
        decreases a@.len() - i,
    {
        let mut acc: i64 = 0;
        let mut j: usize = 0;
        let n: usize = if a[i].len() < v.len() { a[i].len() } else { v.len() };
        while j < n
            invariant
                j <= n,
                i < a@.len(),
                n == common_len(a@[i as int]@, v@),
                acc == wrapping_dot(a@[i as int]@, v@, j as nat),
            decreases n - j,
        {
            acc = acc.wrapping_add(a[i][j].wrapping_mul(v[j]));
            j += 1;
        }
        out.push(centered_mod(acc, Q));
        i += 1;
    }
    out
}

/// The absolute value of an integer.
pub open spec fn magnitude(x: int) -> int {
    if x < 0 {
        -x
    } else {
        x
    }
}

/// Largest absolute value in `v`; zero for an empty vector.
pub fn infinity_norm(v: &[i64]) -> (r: i64)
    requires
        forall|i: int| 0 <= i < v@.len() ==> #[trigger] v@[i] > i64::MIN,
    ensures
        forall|i: int| 0 <= i < v@.len() ==> magnitude(#[trigger] v@[i] as int) <= r,
        v@.len() == 0 ==> r == 0,
        v@.len() > 0 ==> exists|i: int| 0 <= i < v@.len() && magnitude(#[trigger] v@[i] as int) == r,
{
    let mut best: i64 = 0;
    let mut i: usize = 0;
    while i < v.len()
        invariant
            i <= v@.len(),
            0 <= best,
            forall|k: int| 0 <= k < v@.len() ==> #[trigger] v@[k] > i64::MIN,
            forall|k: int| 0 <= k < i ==> magnitude(#[trigger] v@[k] as int) <= best,
            i == 0 ==> best == 0,
            i > 0 ==> exists|k: int| 0 <= k < i && magnitude(#[trigger] v@[k] as int) == best,
        decreases v@.len() - i,
    {
        let m: i64 = if v[i] < 0 { -v[i] } else { v[i] };
        assert(magnitude(v@[i as int] as int) == m);
        if m > best {
            best = m;
        }
        i += 1;
    }
    best
}

/// A centred residue is congruent to its number and lies in the half-open interval of length `q`
/// around zero, which leaves no choice.
pub proof fn law_centred_residue(x: int, q: int)
    requires
        q > 0,
    ensures
        -q < 2 * centered(x, q) <= q,
        (x - centered(x, q)) % q == 0,
{
    let r = x % q;
    vstd::arithmetic::div_mod::lemma_fundamental_div_mod(x, q);
    assert(0 <= r < q) by {
        vstd::arithmetic::div_mod::lemma_mod_bound(x, q);
    }
    let k = x / q;
    let c = centered(x, q);
    if r > q / 2 {
        assert(x - c == q * (k + 1)) by (nonlinear_arith)
            requires
                x == q * k + r,
                c == r - q,
        ;
        vstd::arithmetic::div_mod::lemma_mod_multiples_basic(k + 1, q);
        assert(q * (k + 1) == (k + 1) * q) by (nonlinear_arith);
    } else {
        assert(x - c == q * k);
        vstd::arithmetic::div_mod::lemma_mod_multiples_basic(k, q);
        assert(q * k == k * q) by (nonlinear_arith);
    }
}

/// The magnitude of a number is the number or its opposite, whichever is not negative.
pub proof fn law_magnitude(x: int)
    ensures
        magnitude(x) >= 0,
        magnitude(x) == x || magnitude(x) == -x,
{
}

/// An entry of the matrix is below 8,380,417 and is one little-endian word of one block: the
/// blocks hold eight words each and are numbered from zero.
pub proof fn law_matrix_entries(seed: Seq<u8>, block: nat, word: nat)
    requires
        word < 8,
    ensures
        ({
            let b = sha256_of(seed + le_bytes(block, 4))@;
            let at = 4 * word as int;
            let w = b[at] + 256 * b[at + 1] + 65_536 * b[at + 2] + 16_777_216 * b[at + 3];
            &&& matrix_entry(seed, 8 * block + word) == w % 8_380_417
            &&& 0 <= matrix_entry(seed, 8 * block + word) < 8_380_417
        }),
{
    let idx = 8 * block + word;
    assert(idx / 8 == block && idx % 8 == word);
    let b = sha256_of(seed + le_bytes(block, 4))@;
    let at = 4 * word as int;
    let s = b.subrange(at, at + 4);
    reveal_with_fuel(le_value, 5);
    assert(s[0] == b[at] && s[1] == b[at + 1] && s[2] == b[at + 2] && s[3] == b[at + 3]);
    assert(le_value(s) == b[at] + 256 * b[at + 1] + 65_536 * b[at + 2] + 16_777_216 * b[at + 3]);
}

} // verus!
