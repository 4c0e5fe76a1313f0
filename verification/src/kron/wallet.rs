//! KRON wallets: Bech32 `kron1` addresses over ML-DSA-44 public keys.

use rand::rngs::{OsRng, StdRng};
use rand::RngCore;
use vstd::prelude::*;
use vstd::utf8::encode_utf8;

use crate::crypto::lattice::{address_of, keys_match, secret_usable, signature_accepted, CryptoError,
    LatticeKeyPair, LatticePublicKey, LatticeSecretKey, LatticeSignature, SIG_LEN};
use crate::bytes::{lemma_array_view_eq, same};
use crate::crypto::mobile_only::HostObservation;
use crate::dag::engine::signing_error;
use crate::dag::error::DagError;
use crate::dag::tx::{DagTransaction, TxView};
use crate::dag::wallet_relay::{all_carried, cycle_failed, cycle_result, start_wallet_relay_service,
    MeshInterface, WalletRelaySession};
use crate::kron::bech32::{decode_kron, decoded, encode_kron, kron1_prefix, kron_text,
    law_kron_round_trip, normalize_bech32_input, without_fillers, Bech32Error};
use crate::text::chars_of;
use crate::types::Address;

verus! {

/// Wallet-facing private key: the secret together with its public key.
#[derive(PartialEq, Eq)]
pub struct LatticePrivateKey {
    secret: LatticeSecretKey,
    public: LatticePublicKey,
}

impl LatticePrivateKey {
    /// The raw secret key.
    pub closed spec fn secret_bytes(&self) -> Seq<u8> {
        self.secret@
    }

    /// The raw public key.
    pub closed spec fn public_bytes(&self) -> Seq<u8> {
        self.public@
    }

    pub fn from_keypair(kp: &LatticeKeyPair) -> (r: Self)
        ensures
            r.secret_bytes() == kp.secret@,
            r.public_bytes() == kp.public@,
    {
        LatticePrivateKey { secret: kp.secret.clone(), public: kp.public.clone() }
    }

    pub fn secret(&self) -> (r: &LatticeSecretKey)
        ensures
            r@ == self.secret_bytes(),
    {
        &self.secret
    }

    pub fn public(&self) -> (r: &LatticePublicKey)
        ensures
            r@ == self.public_bytes(),
    {
        &self.public
    }
}

/// KRON wallet keypair.
pub struct KronKeypair {
    inner: LatticeKeyPair,
}

impl KronKeypair {
    /// The raw public key.
    pub closed spec fn public_bytes(&self) -> Seq<u8> {
        self.inner.public@
    }

    /// The raw secret key.
    pub closed spec fn secret_bytes(&self) -> Seq<u8> {
        self.inner.secret@
    }

    /// The two keys came out of one seed.
    pub open spec fn matched(&self) -> bool {
        &&& secret_usable(self.secret_bytes())
        &&& keys_match(self.public_bytes(), self.secret_bytes())
    }

    /// The ledger address of the wallet.
    pub open spec fn ledger_address(&self) -> Address {
        address_of(self.public_bytes())
    }

    pub fn from_lattice(inner: LatticeKeyPair) -> (r: Self)
        ensures
            r.public_bytes() == inner.public@,
            r.secret_bytes() == inner.secret@,
    {
        KronKeypair { inner }
    }

    pub fn lattice(&self) -> (r: &LatticeKeyPair)
        ensures
            r.public@ == self.public_bytes(),
            r.secret@ == self.secret_bytes(),
    {
        &self.inner
    }

    pub fn into_lattice(self) -> (r: LatticeKeyPair)
        ensures
            r.public@ == self.public_bytes(),
            r.secret@ == self.secret_bytes(),
    {
        self.inner
    }

    pub fn public_key(&self) -> (r: &LatticePublicKey)
        ensures
            r@ == self.public_bytes(),
    {
        &self.inner.public
    }

    pub fn private_key(&self) -> (r: LatticePrivateKey)
        ensures
            r.secret_bytes() == self.secret_bytes(),
            r.public_bytes() == self.public_bytes(),
    {
        LatticePrivateKey::from_keypair(&self.inner)
    }

    /// The display address with the 32-byte ledger key.
    pub fn address(&self) -> (r: KronAddress)
        ensures
            r@ == self.ledger_address(),
            r.wf(),
    {
        KronAddress::from_public_key(&self.inner.public)
    }
}

impl Clone for KronKeypair {
    fn clone(&self) -> (r: Self)
        ensures
            r.public_bytes() == self.public_bytes(),
            r.secret_bytes() == self.secret_bytes(),
    {
        KronKeypair { inner: self.inner.clone() }
    }
}

/// Display string plus the 32-byte ledger address it encodes.
#[derive(Debug, PartialEq, Eq)]
pub struct KronAddress {
    encoded: String,
    bytes: Address,
}

impl View for KronAddress {
    type V = Address;

    closed spec fn view(&self) -> Address {
        self.bytes
    }
}

impl KronAddress {
    /// The display text.
    pub closed spec fn text(&self) -> Seq<char> {
        self.encoded@
    }

    /// The display text is the canonical encoding of the address.
    pub open spec fn wf(&self) -> bool {
        self.text() == kron_text(self@@)
    }

    pub fn from_hash(bytes: Address) -> (r: Self)
        ensures
            r@ == bytes,
            r.wf(),
    {
        KronAddress { encoded: encode_kron(&bytes), bytes }
    }

    pub fn from_public_key(public_key: &LatticePublicKey) -> (r: Self)
        ensures
            r@ == address_of(public_key@),
            r.wf(),
    {
        Self::from_hash(public_key.address())
    }

    /// Parses a `kron1…` string, all-lower or all-upper. White space, newlines,
    /// and zero-width marks are stripped first, so a wrapped paste still parses.
    pub fn parse(s: &str) -> (r: Result<Self, Bech32Error>)
        ensures
            match r {
                Ok(a) => a.wf() && decoded(encode_utf8(without_fillers(s@))) == Ok::<
                    Seq<u8>,
                    Bech32Error,
                >(a@@),
                Err(e) => decoded(encode_utf8(without_fillers(s@))) == Err::<
                    Seq<u8>,
                    Bech32Error,
                >(e),
            },
    {
        let clean = normalize_bech32_input(s);
        match decode_kron(clean.as_str()) {
            Ok(bytes) => Ok(Self::from_hash(bytes)),
            Err(e) => Err(e),
        }
    }

    pub fn as_bytes(&self) -> (r: &Address)
        ensures
            *r == self@,
    {
        &self.bytes
    }

    pub fn as_str(&self) -> (r: &str)
        ensures
            r@ == self.text(),
    {
        self.encoded.as_str()
    }

    pub fn into_string(self) -> (r: String)
        ensures
            r@ == self.text(),
    {
        self.encoded
    }
}

impl Clone for KronAddress {
    fn clone(&self) -> (r: Self)
        ensures
            r@ == self@,
            r.text() == self.text(),
    {
        KronAddress { encoded: self.encoded.clone(), bytes: self.bytes }
    }
}

/// `OsRng::fill_bytes` on 32 bytes. Nothing is known of the bytes.
#[verifier::external_body]
pub(crate) fn os_random_seed() -> [u8; 32] {
    let mut seed = [0u8; 32];
    OsRng.fill_bytes(&mut seed);
    seed
}

/// Generates a wallet from the operating system's random source.
pub fn generate_kron_wallet() -> (r: KronKeypair)
    ensures
        r.matched(),
{
    KronKeypair::from_lattice(LatticeKeyPair::from_seed(os_random_seed()))
}

/// Generates a wallet from `rng`.
pub fn generate_kron_wallet_from_rng(rng: &mut StdRng) -> (r: KronKeypair)
    ensures
        r.matched(),
{
    KronKeypair::from_lattice(LatticeKeyPair::generate(rng))
}

/// Official display address. Always starts with `kron1`.
pub fn derive_kron_address(public_key: &LatticePublicKey) -> (r: String)
    ensures
        r@ == kron_text(address_of(public_key@)@),
{
    KronAddress::from_public_key(public_key).into_string()
}

/// Signs a transaction payload. With a usable key only the random source can
/// fail.
pub fn sign_transaction_natively(tx_payload: &[u8], private_key: &LatticePrivateKey) -> (r: Result<
    LatticeSignature,
    CryptoError,
>)
    ensures
        match r {
            Ok(sig) => {
                &&& secret_usable(private_key.secret_bytes())
                &&& sig@.len() == SIG_LEN
                &&& keys_match(private_key.public_bytes(), private_key.secret_bytes())
                    ==> signature_accepted(private_key.public_bytes(), tx_payload@, sig@)
            },
            Err(e) => e == (if secret_usable(private_key.secret_bytes()) {
                CryptoError::SigningAborted(1)
            } else {
                CryptoError::InvalidEncoding
            }),
        },
{
    private_key.secret.sign(tx_payload)
}

/// Whether a transfer's signature holds and its sender is the address of its key.
pub fn verify_transaction_signature(tx: &DagTransaction) -> (r: bool)
    ensures
        r == tx@.signature_holds(),
{
    if !tx.verify_signature() {
        return false;
    }
    let encoded = derive_kron_address(&tx.public_key);
    proof {
        let a = address_of(tx@.public_key);
        law_address_parse_round_trip(a);
        law_kron_round_trip(a@);
    }
    match KronAddress::parse(encoded.as_str()) {
        Ok(addr) => {
            proof {
                lemma_array_view_eq(addr@, tx@.sender);
            }
            same(addr.as_bytes(), &tx.sender) && starts_with_kron1(encoded.as_str())
        },
        Err(_) => false,
    }
}

fn starts_with_kron1(s: &str) -> (r: bool)
    ensures
        r == (s@.len() >= 5 && s@.take(5) == kron1_prefix()),
{
    let chars = chars_of(s);
    if chars.len() < 5 {
        return false;
    }
    let r = chars[0] == 'k' && chars[1] == 'r' && chars[2] == 'o' && chars[3] == 'n' && chars[4]
        == '1';
    proof {
        let h = s@.take(5);
        let p = kron1_prefix();
        assert(h[0] == s@[0] && h[1] == s@[1] && h[2] == s@[2] && h[3] == s@[3] && h[4] == s@[4]);
        if r {
            assert(h =~= p);
        }
    }
    r
}

/// A wallet that relays passively until mining is asked for.
pub struct KronWallet {
    keys: KronKeypair,
    miner_mode: bool,
}

impl KronWallet {
    /// The raw public key.
    pub closed spec fn public_bytes(&self) -> Seq<u8> {
        self.keys.public_bytes()
    }

    /// The raw secret key.
    pub closed spec fn secret_bytes(&self) -> Seq<u8> {
        self.keys.secret_bytes()
    }

    /// Whether the active miner loop was opted in to.
    pub closed spec fn mines(&self) -> bool {
        self.miner_mode
    }

    pub fn from_keypair(keys: KronKeypair) -> (r: Self)
        ensures
            r.public_bytes() == keys.public_bytes(),
            r.secret_bytes() == keys.secret_bytes(),
            !r.mines(),
    {
        KronWallet { keys, miner_mode: false }
    }

    pub fn generate() -> (r: Self)
        ensures
            secret_usable(r.secret_bytes()),
            keys_match(r.public_bytes(), r.secret_bytes()),
            !r.mines(),
    {
        Self::from_keypair(generate_kron_wallet())
    }

    pub fn generate_from_rng(rng: &mut StdRng) -> (r: Self)
        ensures
            secret_usable(r.secret_bytes()),
            keys_match(r.public_bytes(), r.secret_bytes()),
            !r.mines(),
    {
        Self::from_keypair(generate_kron_wallet_from_rng(rng))
    }

    pub fn address(&self) -> (r: KronAddress)
        ensures
            r@ == address_of(self.public_bytes()),
            r.wf(),
    {
        self.keys.address()
    }

    pub fn keypair(&self) -> (r: &KronKeypair)
        ensures
            r.public_bytes() == self.public_bytes(),
            r.secret_bytes() == self.secret_bytes(),
    {
        &self.keys
    }

    pub fn miner_mode(&self) -> (r: bool)
        ensures
            r == self.mines(),
    {
        self.miner_mode
    }

    /// Opts in to the active miner loop (phone-only).
    pub fn enable_miner_mode(&mut self)
        ensures
            final(self).mines(),
            final(self).public_bytes() == old(self).public_bytes(),
            final(self).secret_bytes() == old(self).secret_bytes(),
    {
        self.miner_mode = true;
    }

    /// Sleep/wake relay. Refuses a host that is no phone.
    pub fn start_wallet_relay_service(&self, mesh: &mut MeshInterface, host: &HostObservation) -> (r:
        Result<WalletRelaySession, DagError>)
        requires
            host.refusal() is None ==> old(mesh)@.stop,
        ensures
            match host.refusal() {
                Some(e) => {
                    &&& r == Err::<WalletRelaySession, DagError>(DagError::Shield(e))
                    &&& final(mesh)@ == old(mesh)@
                },
                None => match r {
                    Ok(session) => {
                        &&& session.mempool.wf()
                        &&& !session.mining_ran
                        &&& exists|signed: Seq<TxView>|
                            all_carried(
                                old(mesh)@.inbound,
                                signed,
                                self.public_bytes(),
                                self.secret_bytes(),
                            ) && #[trigger] cycle_result(
                                old(mesh)@,
                                Seq::empty(),
                                signed,
                                final(mesh)@,
                                session.mempool@,
                            )
                    },
                    Err(e) => {
                        &&& e == signing_error(self.secret_bytes())
                        &&& exists|pool: Seq<TxView>| #[trigger]
                            cycle_failed(
                                old(mesh)@,
                                Seq::empty(),
                                self.public_bytes(),
                                self.secret_bytes(),
                                final(mesh)@,
                                pool,
                            )
                    },
                },
            },
    {
        let r = start_wallet_relay_service(&self.keys, mesh, host);
        assert(self.public_bytes() == self.keys.public_bytes());
        assert(self.secret_bytes() == self.keys.secret_bytes());
        r
    }
}

/// Parsing the display text of an address gives that address back.
pub proof fn law_address_parse_round_trip(address: Address)
    ensures
        without_fillers(kron_text(address@)) == kron_text(address@),
        decoded(encode_utf8(without_fillers(kron_text(address@)))) == Ok::<Seq<u8>, Bech32Error>(
            address@,
        ),
{
    crate::kron::bech32::lemma_kron_text_has_no_filler(address@);
    law_kron_round_trip(address@);
}

} // verus!
