//! Network errors. Fail closed: a malformed frame is treated as a bot.

use vstd::prelude::*;

use crate::anti_bot::attestation::SecurityError;
use crate::crypto::lattice::CryptoError;
use crate::dag::error::DagError;
use crate::text::push_text;

verus! {

#[derive(Clone, Copy, Debug, PartialEq, Eq)]
pub enum NetworkError {
    /// The stream ended or failed.
    Io,
    BadFrame,
    Handshake(&'static str),
    AntiBot(SecurityError),
    Crypto(CryptoError),
    UnauthenticatedDatagram,
    RoutingDenied,
    HashMismatch,
    Dag(DagError),
}

impl NetworkError {
    /// Errors after which the socket is closed.
    pub fn is_fatal_socket(&self) -> (r: bool)
        ensures
            r == (self is Handshake || self is AntiBot || self is BadFrame
                || self is UnauthenticatedDatagram),
    {
        match self {
            NetworkError::Handshake(_) => true,
            NetworkError::AntiBot(_) => true,
            NetworkError::BadFrame => true,
            NetworkError::UnauthenticatedDatagram => true,
            _ => false,
        }
    }

    pub open spec fn spec_message(&self) -> Seq<char> {
        match self {
            NetworkError::Io => "i/o: stream ended or failed"@,
            NetworkError::BadFrame => "peer sent an invalid or oversized frame"@,
            NetworkError::Handshake(why) => "handshake rejected: "@ + why@,
            NetworkError::AntiBot(e) => "anti-bot: "@ + e.spec_message(),
            NetworkError::Crypto(e) => "lattice crypto: "@ + e.spec_message(),
            NetworkError::UnauthenticatedDatagram =>
                "unknown peer (no live TCP session) — UDP inventory dropped"@,
            NetworkError::RoutingDenied =>
                "routing table refused the contact (eclipse / subnet cap)"@,
            NetworkError::HashMismatch =>
                "payload hash does not match the advertised message id"@,
            NetworkError::Dag(e) => "dag: "@ + e.spec_message(),
        }
    }

    /// The error as a line of text.
    pub fn message(&self) -> (r: String)
        ensures
            r@ == self.spec_message(),
    {
        let mut out = String::new();
        match self {
            NetworkError::Io => {
                push_text(&mut out, "i/o: stream ended or failed");
            },
            NetworkError::BadFrame => {
                push_text(&mut out, "peer sent an invalid or oversized frame");
            },
            NetworkError::Handshake(why) => {
                push_text(&mut out, "handshake rejected: ");
                push_text(&mut out, why);
            },
            NetworkError::AntiBot(e) => {
                push_text(&mut out, "anti-bot: ");
                push_text(&mut out, e.message());
            },
            NetworkError::Crypto(e) => {
                push_text(&mut out, "lattice crypto: ");
                push_text(&mut out, e.message().as_str());
            },
            NetworkError::UnauthenticatedDatagram => {
                push_text(
                    &mut out,
                    "unknown peer (no live TCP session) — UDP inventory dropped",
                );
            },
            NetworkError::RoutingDenied => {
                push_text(&mut out, "routing table refused the contact (eclipse / subnet cap)");
            },
            NetworkError::HashMismatch => {
                push_text(&mut out, "payload hash does not match the advertised message id");
            },
            NetworkError::Dag(e) => {
                push_text(&mut out, "dag: ");
                push_text(&mut out, e.message().as_str());
            },
        }
        assert(out@ =~= self.spec_message());
        out
    }
}

} // verus!
