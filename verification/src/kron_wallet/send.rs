//! Sending from the desktop wallet, and the check of a written-down phrase.

use vstd::prelude::*;
use vstd::utf8::encode_utf8;

use crate::crypto::hash::{hex_encode, hex_hash, hex_text};
use crate::dag::engine::signing_error;
use crate::dag::error::DagError;
use crate::dag::tx::{array_of, assembled, lemma_array_of, DagTransaction, TxHash, TxView};
use crate::economics::FIXED_TRANSACTION_FEE;
use crate::kron::bech32::{decoded, without_fillers, Bech32Error};
use crate::kron::wallet::{KronAddress, KronKeypair};
use crate::kron_wallet::amount::{amount_text, format_kron_amount, parse_kron_amount, parsed_amount,
    ParseAmountError};
use crate::kron_wallet::explorer::ComposeHint;
use crate::kron_wallet::mnemonic::words_match;
use crate::text::{chars_of, decimal, decimal_text, lowered, owned, push_chars, push_text, text_of,
    text_views, trim, trimmed};
use crate::types::Address;

verus! {

/// Why nothing was sent.
#[derive(Clone, Copy, Debug, PartialEq, Eq)]
pub enum SendFault {
    Address(Bech32Error),
    Amount(ParseAmountError),
    NotPositive,
    Sign(DagError),
    BadSignature,
}

impl SendFault {
    pub open spec fn spec_message(&self) -> Seq<char> {
        match self {
            SendFault::Address(e) => "Invalid address: "@ + e.spec_message(),
            SendFault::Amount(e) => e.spec_message(),
            SendFault::NotPositive => "Amount must be positive"@,
            SendFault::Sign(e) => "Signing failed: "@ + e.spec_message(),
            SendFault::BadSignature => "Signature verification failed"@,
        }
    }

    /// The error as a line of text.
    pub fn message(&self) -> (r: String)
        ensures
            r@ == self.spec_message(),
    {
        match self {
            SendFault::Address(e) => {
                let mut out = owned("Invalid address: ");
                push_text(&mut out, e.message());
                out
            },
            SendFault::Amount(e) => owned(e.message()),
            SendFault::NotPositive => owned("Amount must be positive"),
            SendFault::Sign(e) => {
                let mut out = owned("Signing failed: ");
                push_text(&mut out, e.message().as_str());
                out
            },
            SendFault::BadSignature => owned("Signature verification failed"),
        }
    }
}

/// The recipient and amount that the form names.
pub open spec fn form_fields(to: Seq<char>, amount: Seq<char>) -> Result<(Address, u64), SendFault> {
    match decoded(encode_utf8(without_fillers(trimmed(to)))) {
        Err(e) => Err(SendFault::Address(e)),
        Ok(a) => match parsed_amount(amount) {
            Err(e) => Err(SendFault::Amount(e)),
            Ok(n) => if n == 0 {
                Err(SendFault::NotPositive)
            } else {
                Ok((array_of(a), n))
            },
        },
    }
}

/// The parents and nonce of a transfer: the explorer's hint, or genesis twice with
/// the wallet's own nonce.
pub open spec fn anchor(hint: Option<ComposeHint>, genesis: TxHash, own_nonce: u64) -> (
    TxHash,
    TxHash,
    u64,
) {
    match hint {
        Some(h) => (h.parent_1, h.parent_2, h.nonce),
        None => (genesis, genesis, own_nonce),
    }
}

/// What sending by the form gives: its first fault, or a signed transfer.
pub open spec fn send_outcome(
    wallet: &KronKeypair,
    to: Seq<char>,
    amount: Seq<char>,
    hint: Option<ComposeHint>,
    genesis: TxHash,
    own_nonce: u64,
    r: Result<DagTransaction, SendFault>,
) -> bool {
    match form_fields(to, amount) {
        Err(f) => r == Err::<DagTransaction, SendFault>(f),
        Ok((dest, n)) => match r {
            Ok(tx) => {
                let (p1, p2, nonce) = anchor(hint, genesis, own_nonce);
                &&& tx@ == assembled(
                    p1,
                    p2,
                    wallet.public_bytes(),
                    dest,
                    n,
                    FIXED_TRANSACTION_FEE,
                    nonce,
                    tx@.signature,
                )
                &&& tx@.signature_holds()
            },
            Err(f) => f == SendFault::Sign(signing_error(wallet.secret_bytes())) || (f
                == SendFault::BadSignature && !wallet.matched()),
        },
    }
}

/// A signed transfer from what the form says. The signature is checked before it is
/// handed out.
pub fn prepare_send(
    wallet: &KronKeypair,
    to: &str,
    amount: &str,
    hint: Option<ComposeHint>,
    genesis: TxHash,
    own_nonce: u64,
) -> (r: Result<DagTransaction, SendFault>)
    ensures
        send_outcome(wallet, to@, amount@, hint, genesis, own_nonce, r),
{
    let target = text_of(trim(chars_of(to).as_slice()).as_slice());
    let dest = match KronAddress::parse(target.as_str()) {
        Ok(a) => a,
        Err(e) => {
            return Err(SendFault::Address(e));
        },
    };
    proof {
        lemma_array_of(dest@);
    }
    let units: u64 = match parse_kron_amount(amount) {
        Ok(n) => n,
        Err(e) => {
            return Err(SendFault::Amount(e));
        },
    };
    if units == 0 {
        return Err(SendFault::NotPositive);
    }
    let (p1, p2, nonce) = match hint {
        Some(h) => (h.parent_1, h.parent_2, h.nonce),
        None => (genesis, genesis, own_nonce),
    };
    let tx = match DagTransaction::user_transfer(
        p1,
        p2,
        wallet,
        *dest.as_bytes(),
        units,
        nonce,
    ) {
        Ok(t) => t,
        Err(e) => {
            return Err(SendFault::Sign(e));
        },
    };
    if !tx.verify_signature() {
        return Err(SendFault::BadSignature);
    }
    Ok(tx)
}

/// What is shown of a transfer that the gateway took.
pub open spec fn receipt_text(gateway: Seq<char>, t: TxView) -> Seq<char> {
    "Broadcast to "@ + gateway + " (kron-mesh/1).\nRecipient: "@ + t.recipient_kron1
        + "\nAmount: "@ + amount_text(t.amount) + " KRON\nNative fee: "@ + amount_text(
        FIXED_TRANSACTION_FEE,
    ) + " KRON\nNonce: "@ + decimal_text(t.nonce as nat) + "\nDigest: "@ + hex_text(t.id@)
        + "\nHex: "@ + hex_text(t.canonical())
}

/// The receipt of a transfer that the gateway took.
pub fn receipt(gateway: &str, tx: &DagTransaction) -> (r: String)
    ensures
        r@ == receipt_text(gateway@, tx@),
{
    let mut out = owned("Broadcast to ");
    push_text(&mut out, gateway);
    push_text(&mut out, " (kron-mesh/1).\nRecipient: ");
    push_text(&mut out, tx.recipient_kron1.as_str());
    push_text(&mut out, "\nAmount: ");
    push_text(&mut out, format_kron_amount(tx.amount).as_str());
    push_text(&mut out, " KRON\nNative fee: ");
    push_text(&mut out, format_kron_amount(FIXED_TRANSACTION_FEE).as_str());
    push_text(&mut out, " KRON\nNonce: ");
    push_chars(&mut out, decimal(tx.nonce).as_slice());
    push_text(&mut out, "\nDigest: ");
    push_text(&mut out, hex_hash(&tx.id).as_str());
    push_text(&mut out, "\nHex: ");
    push_text(&mut out, hex_encode(tx.canonical_bytes().as_slice()).as_str());
    out
}

/// What is shown of a transfer that did not reach the gateway.
pub open spec fn unsent_text(gateway: Seq<char>, fault: Seq<char>, t: TxView) -> Seq<char> {
    "Signed but broadcast to "@ + gateway + " failed: "@ + fault
        + "\nStart kron-node on port 8000 (or set KRON_GATEWAY).\nDigest: "@ + hex_text(t.id@)
        + "\nHex: "@ + hex_text(t.canonical())
}

/// What is shown of a transfer that did not reach the gateway. It stays usable as
/// text.
pub fn unsent_receipt(gateway: &str, fault: &str, tx: &DagTransaction) -> (r: String)
    ensures
        r@ == unsent_text(gateway@, fault@, tx@),
{
    let mut out = owned("Signed but broadcast to ");
    push_text(&mut out, gateway);
    push_text(&mut out, " failed: ");
    push_text(&mut out, fault);
    push_text(&mut out, "\nStart kron-node on port 8000 (or set KRON_GATEWAY).\nDigest: ");
    push_text(&mut out, hex_hash(&tx.id).as_str());
    push_text(&mut out, "\nHex: ");
    push_text(&mut out, hex_encode(tx.canonical_bytes().as_slice()).as_str());
    out
}

/// Whether every typed word is the word at its place.
pub open spec fn quiz_passed(
    words: Seq<Seq<char>>,
    places: Seq<usize>,
    typed: Seq<Seq<char>>,
) -> bool {
    forall|i: int|
        #![trigger places[i]]
        0 <= i < places.len() && i < typed.len() ==> lowered(words[places[i] as int]) == lowered(
            trimmed(typed[i]),
        )
}

/// Checks the words that were typed against the phrase.
pub fn confirm_quiz(words: &Vec<String>, places: &Vec<usize>, typed: &Vec<String>) -> (r: bool)
    requires
        forall|i: int| 0 <= i < places@.len() ==> #[trigger] places@[i] < words@.len(),
    ensures
        r == quiz_passed(text_views(words@), places@, text_views(typed@)),
{
    let mut i: usize = 0;
    while i < places.len() && i < typed.len()
        invariant
            i <= places@.len(),
            i <= typed@.len(),
            forall|j: int| 0 <= j < places@.len() ==> #[trigger] places@[j] < words@.len(),
            forall|j: int|
                #![trigger places@[j]]
                0 <= j < i ==> lowered(text_views(words@)[places@[j] as int]) == lowered(
                    trimmed(text_views(typed@)[j]),
                ),
        decreases places@.len() - i,
    {
        let at: usize = places[i];
        assert(places@[i as int] < words@.len());
        assert(text_views(words@)[at as int] == words@[at as int]@);
        assert(text_views(typed@)[i as int] == typed@[i as int]@);
        if !words_match(words[at].as_str(), typed[i].as_str()) {
            assert(lowered(text_views(words@)[places@[i as int] as int]) != lowered(
                trimmed(text_views(typed@)[i as int]),
            ));
            return false;
        }
        i += 1;
    }
    true
}

} // verus!
