//! Errors from tip selection, attach, and ledger checks.

use vstd::prelude::*;

use crate::crypto::lattice::CryptoError;
use crate::crypto::mobile_only::ShieldError;
use crate::dag::tx::TxHash;
use crate::text::{chars_of, decimal, decimal_text, push_chars};

verus! {

#[derive(Clone, Copy, Debug, PartialEq, Eq)]
pub enum DagError {
    UnknownParent(TxHash),
    InvalidSignature,
    InsufficientBalance,
    DoubleSpend { nonce: u64 },
    DuplicateTx(TxHash),
    InvalidGenesis,
    InvalidFee,
    AddressMismatch,
    Overflow,
    InvalidRelayProof,
    Sign(CryptoError),
    Shield(ShieldError),
}

/// The bytes in decimal, separated by commas, in brackets.
pub open spec fn byte_list(s: Seq<u8>) -> Seq<char> {
    seq!['['] + byte_items(s) + seq![']']
}

pub open spec fn byte_items(s: Seq<u8>) -> Seq<char>
    decreases s.len(),
{
    if s.len() == 0 {
        Seq::empty()
    } else if s.len() == 1 {
        decimal_text(s[0] as nat)
    } else {
        byte_items(s.drop_last()) + ", "@ + decimal_text(s.last() as nat)
    }
}

pub(crate) fn push_byte_list(out: &mut String, s: &[u8])
    ensures
        final(out)@ == old(out)@ + byte_list(s@),
{
    let ghost start = out@;
    out.push('[');
    let ghost opened = out@;
    let mut i: usize = 0;
    assert(opened + byte_items(s@.take(0)) =~= opened);
    while i < s.len()
        invariant
            i <= s@.len(),
            out@ == opened + byte_items(s@.take(i as int)),
        decreases s@.len() - i,
    {
        proof {
            let t = s@.take(i + 1);
            assert(t.drop_last() =~= s@.take(i as int));
            if i == 0 {
                assert(byte_items(s@.take(0)) =~= Seq::<char>::empty());
            }
        }
        if i > 0 {
            push_chars(out, chars_of(", ").as_slice());
        }
        push_chars(out, decimal(s[i] as u64).as_slice());
        i += 1;
        assert(out@ =~= opened + byte_items(s@.take(i as int)));
    }
    assert(s@.take(i as int) =~= s@);
    out.push(']');
    assert(out@ =~= start + byte_list(s@));
}

impl CryptoError {
    pub open spec fn spec_message(&self) -> Seq<char> {
        match self {
            CryptoError::VerifyFailed => "ML-DSA signature verification failed"@,
            CryptoError::SigningAborted(n) => "signing aborted after "@ + decimal_text(*n as nat)
                + " attempts"@,
            CryptoError::InvalidEncoding => "malformed ML-DSA key or signature"@,
            CryptoError::ObsoleteScheme =>
                "rejected obsolete toy-LWE key or signature (need ML-DSA-44)"@,
        }
    }

    /// The error as a line of text.
    pub fn message(&self) -> (r: String)
        ensures
            r@ == self.spec_message(),
    {
        let mut out = String::new();
        match self {
            CryptoError::VerifyFailed => {
                push_chars(&mut out, chars_of("ML-DSA signature verification failed").as_slice());
            },
            CryptoError::SigningAborted(n) => {
                push_chars(&mut out, chars_of("signing aborted after ").as_slice());
                push_chars(&mut out, decimal(*n as u64).as_slice());
                push_chars(&mut out, chars_of(" attempts").as_slice());
            },
            CryptoError::InvalidEncoding => {
                push_chars(&mut out, chars_of("malformed ML-DSA key or signature").as_slice());
            },
            CryptoError::ObsoleteScheme => {
                push_chars(
                    &mut out,
                    chars_of(
                        "rejected obsolete toy-LWE key or signature (need ML-DSA-44)",
                    ).as_slice(),
                );
            },
        }
        assert(out@ =~= self.spec_message());
        out
    }
}

impl DagError {
    pub open spec fn spec_message(&self) -> Seq<char> {
        match self {
            DagError::UnknownParent(h) => "unknown parent "@ + byte_list(h@),
            DagError::InvalidSignature => "ML-DSA-44 signature is not valid for the sender"@,
            DagError::InsufficientBalance => "sender cannot cover amount + fee"@,
            DagError::DoubleSpend { nonce } => "double-spend: nonce "@ + decimal_text(*nonce as nat)
                + " already used or not next for sender"@,
            DagError::DuplicateTx(h) => "transaction "@ + byte_list(h@)
                + " is already in the DAG"@,
            DagError::InvalidGenesis => "genesis parents are only valid as the first vertex"@,
            DagError::InvalidFee => "user transfers must pay FIXED_TRANSACTION_FEE (1000)"@,
            DagError::AddressMismatch => "sender address does not match the public key"@,
            DagError::Overflow => "integer overflow on amount, fee, or balance"@,
            DagError::InvalidRelayProof => "relay carrier proof is not valid"@,
            DagError::Sign(e) => "lattice signing failed: "@ + e.spec_message(),
            DagError::Shield(e) => "phone-only shield: "@ + e.spec_message(),
        }
    }

    /// The error as a line of text.
    pub fn message(&self) -> (r: String)
        ensures
            r@ == self.spec_message(),
    {
        let mut out = String::new();
        match self {
            DagError::UnknownParent(h) => {
                push_chars(&mut out, chars_of("unknown parent ").as_slice());
                push_byte_list(&mut out, h.as_slice());
            },
            DagError::InvalidSignature => {
                push_chars(
                    &mut out,
                    chars_of("ML-DSA-44 signature is not valid for the sender").as_slice(),
                );
            },
            DagError::InsufficientBalance => {
                push_chars(&mut out, chars_of("sender cannot cover amount + fee").as_slice());
            },
            DagError::DoubleSpend { nonce } => {
                push_chars(&mut out, chars_of("double-spend: nonce ").as_slice());
                push_chars(&mut out, decimal(*nonce).as_slice());
                push_chars(
                    &mut out,
                    chars_of(" already used or not next for sender").as_slice(),
                );
            },
            DagError::DuplicateTx(h) => {
                push_chars(&mut out, chars_of("transaction ").as_slice());
                push_byte_list(&mut out, h.as_slice());
                push_chars(&mut out, chars_of(" is already in the DAG").as_slice());
            },
            DagError::InvalidGenesis => {
                push_chars(
                    &mut out,
                    chars_of("genesis parents are only valid as the first vertex").as_slice(),
                );
            },
            DagError::InvalidFee => {
                push_chars(
                    &mut out,
                    chars_of("user transfers must pay FIXED_TRANSACTION_FEE (1000)").as_slice(),
                );
            },
            DagError::AddressMismatch => {
                push_chars(
                    &mut out,
                    chars_of("sender address does not match the public key").as_slice(),
                );
            },
            DagError::Overflow => {
                push_chars(
                    &mut out,
                    chars_of("integer overflow on amount, fee, or balance").as_slice(),
                );
            },
            DagError::InvalidRelayProof => {
                push_chars(&mut out, chars_of("relay carrier proof is not valid").as_slice());
            },
            DagError::Sign(e) => {
                push_chars(&mut out, chars_of("lattice signing failed: ").as_slice());
                push_chars(&mut out, chars_of(e.message().as_str()).as_slice());
            },
            DagError::Shield(e) => {
                push_chars(&mut out, chars_of("phone-only shield: ").as_slice());
                push_chars(&mut out, chars_of(e.message()).as_slice());
            },
        }
        assert(out@ =~= self.spec_message());
        out
    }
}

} // verus!
