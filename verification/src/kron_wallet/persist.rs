//! The desktop wallet file.
//!
//! Version 2 holds the BIP39 entropy beside the keys that follow from it. A version
//! 1 file, or one without entropy, is set aside and replaced. Reading and writing
//! the file and its JSON is the caller's part.

use vstd::prelude::*;
use vstd::utf8::encode_utf8;

use crate::bytes::array32;
use crate::crypto::hash::{hex_decode, hex_encode, hex_text, law_hex_round_trip, unhexed, HexFault};
use crate::crypto::lattice::{blob, blob_length, law_envelope_round_trip, mldsa_keypair,
    mldsa_secret_ok, LatticeKeyPair, LatticePublicKey, LatticeSecretKey, PK_LEN, SCHEME_MLDSA44,
    SK_LEN};
use crate::kron::wallet::KronKeypair;
use crate::kron_wallet::mnemonic::RecoveryPhrase;
use crate::text::{chars_of, lemma_nothing_to_trim, text_of, trim, trimmed};

verus! {

/// The version in use.
pub const WALLET_VERSION: u32 = 2;

/// The fields of a wallet file.
pub struct WalletFile {
    pub version: u32,
    pub entropy_hex: Option<String>,
    pub public_hex: String,
    pub secret_hex: String,
    pub nonce: u64,
    pub mnemonic_backed_up: bool,
}

/// The fields as mathematical data.
#[verifier::ext_equal]
pub struct FileView {
    pub version: u32,
    pub entropy_hex: Option<Seq<char>>,
    pub public_hex: Seq<char>,
    pub secret_hex: Seq<char>,
    pub nonce: u64,
    pub mnemonic_backed_up: bool,
}

impl View for WalletFile {
    type V = FileView;

    open spec fn view(&self) -> FileView {
        FileView {
            version: self.version,
            entropy_hex: match self.entropy_hex {
                Some(h) => Some(h@),
                None => None,
            },
            public_hex: self.public_hex@,
            secret_hex: self.secret_hex@,
            nonce: self.nonce,
            mnemonic_backed_up: self.mnemonic_backed_up,
        }
    }
}

/// Why a wallet file cannot be opened.
#[derive(Clone, Copy, Debug, PartialEq, Eq, Structural)]
pub enum FileFault {
    UnsupportedVersion(u32),
    MissingEntropy,
    Hex(HexFault),
}

impl FileView {
    /// The entropy text, empty where there is none.
    pub open spec fn entropy_text(self) -> Seq<char> {
        match self.entropy_hex {
            Some(h) => h,
            None => Seq::empty(),
        }
    }

    /// The entropy of the file.
    pub open spec fn entropy(self) -> Result<Seq<u8>, FileFault> {
        let text = trimmed(self.entropy_text());
        if self.version != WALLET_VERSION {
            Err(FileFault::UnsupportedVersion(self.version))
        } else if text.len() == 0 {
            Err(FileFault::MissingEntropy)
        } else {
            match unhexed(encode_utf8(text)) {
                Err(e) => Err(FileFault::Hex(e)),
                Ok(b) => if b.len() != 32 {
                    Err(FileFault::MissingEntropy)
                } else {
                    Ok(b)
                },
            }
        }
    }

    /// Whether the stored keys are the ones that follow from the entropy.
    pub open spec fn keys_follow(self, entropy: Seq<u8>) -> bool {
        &&& stored_public(self.public_hex) == Some(mldsa_keypair(entropy).0)
        &&& stored_secret(self.secret_hex) == Some(mldsa_keypair(entropy).1)
    }

    /// A file that has to be set aside: version 1, or no entropy.
    pub open spec fn is_legacy(self) -> bool {
        self.version == 1 || self.entropy_text().len() == 0
    }
}

/// The raw public key that a hexadecimal text holds.
pub open spec fn stored_public(hex: Seq<char>) -> Option<Seq<u8>> {
    match unhexed(encode_utf8(trimmed(hex))) {
        Err(_) => None,
        Ok(b) => match blob_length(b, 0, PK_LEN as int) {
            Err(_) => None,
            Ok(_) => Some(b.subrange(5, 5 + PK_LEN as int)),
        },
    }
}

/// The raw secret key that a hexadecimal text holds.
pub open spec fn stored_secret(hex: Seq<char>) -> Option<Seq<u8>> {
    match unhexed(encode_utf8(trimmed(hex))) {
        Err(_) => None,
        Ok(b) => match blob_length(b, 0, SK_LEN as int) {
            Err(_) => None,
            Ok(_) => if mldsa_secret_ok(b.subrange(5, 5 + SK_LEN as int)) {
                Some(b.subrange(5, 5 + SK_LEN as int))
            } else {
                None
            },
        },
    }
}

fn decode_trimmed(hex: &str) -> (r: Result<Vec<u8>, HexFault>)
    ensures
        match r {
            Ok(v) => unhexed(encode_utf8(trimmed(hex@))) == Ok::<Seq<u8>, HexFault>(v@),
            Err(e) => unhexed(encode_utf8(trimmed(hex@))) == Err::<Seq<u8>, HexFault>(e),
        },
{
    let text = text_of(trim(chars_of(hex).as_slice()).as_slice());
    hex_decode(text.as_str().as_bytes())
}

fn public_stored(hex: &str) -> (r: Option<LatticePublicKey>)
    ensures
        match r {
            Some(k) => stored_public(hex@) == Some(k@),
            None => stored_public(hex@) is None,
        },
{
    match decode_trimmed(hex) {
        Err(_) => None,
        Ok(b) => match LatticePublicKey::from_bytes(b.as_slice()) {
            Ok(k) => Some(k),
            Err(_) => None,
        },
    }
}

fn secret_stored(hex: &str) -> (r: Option<LatticeSecretKey>)
    ensures
        match r {
            Some(k) => stored_secret(hex@) == Some(k@),
            None => stored_secret(hex@) is None,
        },
{
    match decode_trimmed(hex) {
        Err(_) => None,
        Ok(b) => match LatticeSecretKey::from_bytes(b.as_slice()) {
            Ok(k) => Some(k),
            Err(_) => None,
        },
    }
}

/// An opened wallet.
pub struct OpenedWallet {
    pub keypair: KronKeypair,
    pub nonce: u64,
    pub entropy: [u8; 32],
    pub backed_up: bool,
    /// The stored keys were not those of the entropy: the file is written again.
    pub rewrite: bool,
}

/// Opens a version 2 file. The keys are always those of the entropy.
pub fn open_file(file: &WalletFile) -> (r: Result<OpenedWallet, FileFault>)
    ensures
        match r {
            Ok(w) => {
                &&& file@.entropy() == Ok::<Seq<u8>, FileFault>(w.entropy@)
                &&& (w.keypair.public_bytes(), w.keypair.secret_bytes()) == mldsa_keypair(
                    w.entropy@,
                )
                &&& w.keypair.matched()
                &&& w.nonce == file@.nonce
                &&& w.backed_up == file@.mnemonic_backed_up
                &&& w.rewrite == !file@.keys_follow(w.entropy@)
            },
            Err(e) => file@.entropy() == Err::<Seq<u8>, FileFault>(e),
        },
{
    if file.version != WALLET_VERSION {
        return Err(FileFault::UnsupportedVersion(file.version));
    }
    let text = match &file.entropy_hex {
        Some(h) => trim(chars_of(h.as_str()).as_slice()),
        None => trim(Vec::new().as_slice()),
    };
    assert(text@ == trimmed(file@.entropy_text())) by {
        if file.entropy_hex is None {
            assert(file@.entropy_text() =~= Seq::<char>::empty());
        }
    }
    if text.len() == 0 {
        return Err(FileFault::MissingEntropy);
    }
    let bytes = match hex_decode(text_of(text.as_slice()).as_str().as_bytes()) {
        Ok(b) => b,
        Err(e) => {
            return Err(FileFault::Hex(e));
        },
    };
    if bytes.len() != 32 {
        return Err(FileFault::MissingEntropy);
    }
    let entropy = array32(bytes.as_slice(), 0);
    assert(entropy@ =~= bytes@);
    let derived = LatticeKeyPair::from_seed(entropy);
    let stored_ok = match (
        public_stored(file.public_hex.as_str()),
        secret_stored(file.secret_hex.as_str()),
    ) {
        (Some(pk), Some(sk)) => pk.same_as(&derived.public) && sk.same_as(&derived.secret),
        _ => false,
    };
    Ok(
        OpenedWallet {
            keypair: KronKeypair::from_lattice(derived),
            nonce: file.nonce,
            entropy,
            backed_up: file.mnemonic_backed_up,
            rewrite: !stored_ok,
        },
    )
}

/// Whether a file has to be set aside.
pub fn looks_like_legacy(file: &WalletFile) -> (r: bool)
    ensures
        r == file@.is_legacy(),
{
    file.version == 1 || match &file.entropy_hex {
        Some(h) => chars_of(h.as_str()).len() == 0,
        None => true,
    }
}

/// What is done with a wallet file that was read.
pub enum LoadPlan {
    /// Use it.
    Open(OpenedWallet),
    /// Set it aside and make a new wallet.
    Replace,
    /// Give up.
    Fail(FileFault),
}

/// Decides what is done with a wallet file.
pub fn plan_load(file: &WalletFile) -> (r: LoadPlan)
    ensures
        match file@.entropy() {
            Ok(s) => r matches LoadPlan::Open(w) && w.entropy@ == s && (
                w.keypair.public_bytes(),
                w.keypair.secret_bytes(),
            ) == mldsa_keypair(s) && w.nonce == file@.nonce && w.backed_up
                == file@.mnemonic_backed_up && w.rewrite == !file@.keys_follow(s),
            Err(e) => if e is MissingEntropy || file@.is_legacy() {
                r is Replace
            } else {
                r == LoadPlan::Fail(e)
            },
        },
{
    match open_file(file) {
        Ok(w) => LoadPlan::Open(w),
        Err(FileFault::MissingEntropy) => LoadPlan::Replace,
        Err(e) => {
            if looks_like_legacy(file) {
                LoadPlan::Replace
            } else {
                LoadPlan::Fail(e)
            }
        },
    }
}

/// The fields that are stored for a wallet.
pub open spec fn stored_fields(
    public: Seq<u8>,
    secret: Seq<u8>,
    nonce: u64,
    entropy: Seq<u8>,
    backed_up: bool,
) -> FileView {
    FileView {
        version: WALLET_VERSION,
        entropy_hex: Some(hex_text(entropy)),
        public_hex: hex_text(blob(SCHEME_MLDSA44, public)),
        secret_hex: hex_text(blob(SCHEME_MLDSA44, secret)),
        nonce,
        mnemonic_backed_up: backed_up,
    }
}

/// The file of a wallet.
pub fn wallet_file(keypair: &KronKeypair, nonce: u64, entropy: &[u8; 32], mnemonic_backed_up: bool) -> (r:
    WalletFile)
    ensures
        r@ == stored_fields(
            keypair.public_bytes(),
            keypair.secret_bytes(),
            nonce,
            entropy@,
            mnemonic_backed_up,
        ),
{
    WalletFile {
        version: WALLET_VERSION,
        entropy_hex: Some(hex_encode(entropy.as_slice())),
        public_hex: hex_encode(keypair.public_key().to_bytes().as_slice()),
        secret_hex: hex_encode(keypair.lattice().secret.to_bytes().as_slice()),
        nonce,
        mnemonic_backed_up,
    }
}

/// A new wallet, not backed up yet.
pub fn new_wallet() -> (r: OpenedWallet)
    ensures
        (r.keypair.public_bytes(), r.keypair.secret_bytes()) == mldsa_keypair(r.entropy@),
        r.keypair.matched(),
        r.nonce == 0,
        !r.backed_up,
        !r.rewrite,
{
    let phrase = RecoveryPhrase::generate();
    OpenedWallet {
        keypair: phrase.keypair(),
        nonce: 0,
        entropy: phrase.entropy(),
        backed_up: false,
        rewrite: false,
    }
}

proof fn lemma_hex_reads_back(data: Seq<u8>)
    requires
        data.len() > 0,
    ensures
        unhexed(encode_utf8(trimmed(hex_text(data)))) == Ok::<Seq<u8>, HexFault>(data),
        trimmed(hex_text(data)).len() > 0,
{
    law_hex_round_trip(data);
    lemma_nothing_to_trim(hex_text(data));
}

/// Opening the file that was stored for an entropy gives the same wallet, and finds
/// its keys in order.
pub proof fn law_wallet_file_round_trip(entropy: Seq<u8>, nonce: u64, backed_up: bool)
    requires
        entropy.len() == 32,
        mldsa_keypair(entropy).0.len() == PK_LEN,
        mldsa_keypair(entropy).1.len() == SK_LEN,
        mldsa_secret_ok(mldsa_keypair(entropy).1),
    ensures
        ({
            let (pk, sk) = mldsa_keypair(entropy);
            let file = stored_fields(pk, sk, nonce, entropy, backed_up);
            &&& file.entropy() == Ok::<Seq<u8>, FileFault>(entropy)
            &&& file.keys_follow(entropy)
            &&& file.nonce == nonce
            &&& file.mnemonic_backed_up == backed_up
            &&& !file.is_legacy()
        }),
{
    let (pk, sk) = mldsa_keypair(entropy);
    lemma_hex_reads_back(entropy);
    lemma_hex_reads_back(blob(SCHEME_MLDSA44, pk));
    lemma_hex_reads_back(blob(SCHEME_MLDSA44, sk));
    law_envelope_round_trip(pk);
    law_envelope_round_trip(sk);
}

} // verus!
