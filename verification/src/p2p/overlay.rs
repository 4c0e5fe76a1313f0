//! Stable overlay identity: a Unique Local IPv6 (`fd00::/8`) derived from the
//! node's ML-DSA public key. It is not a globally routed address.

use vstd::prelude::*;

use crate::crypto::hash::{hex_encode, hex_text};
use crate::crypto::lattice::{address_of, LatticePublicKey};
use crate::text::{chars_of, push_text, text_of};
use crate::types::Address;

verus! {

/// 16-byte mesh overlay id, shown as an IPv6 ULA (`fdxx:…`) or `kron://…`.
#[derive(Clone, Copy, Debug, PartialEq, Eq, Hash)]
pub struct NodeOverlayId {
    bytes: [u8; 16],
}

impl View for NodeOverlayId {
    type V = Seq<u8>;

    closed spec fn view(&self) -> Seq<u8> {
        self.bytes@
    }
}

/// `fd` and the first fifteen bytes of the address.
pub open spec fn overlay_of(addr: Address) -> Seq<u8> {
    seq![0xfdu8] + addr@.take(15)
}

/// Uncompressed IPv6 text: a colon after every four digits.
pub open spec fn ula_text(id: Seq<u8>) -> Seq<char> {
    Seq::new(
        39,
        |i: int|
            if i % 5 == 4 {
                ':'
            } else {
                hex_text(id)[i - i / 5]
            },
    )
}

impl NodeOverlayId {
    /// `fd` and the first 15 bytes of the SHA-256 of the versioned public key.
    pub fn from_pubkey(pk: &LatticePublicKey) -> (r: Self)
        ensures
            r@ == overlay_of(address_of(pk@)),
    {
        Self::from_address(&pk.address())
    }

    /// Same derivation from the 32-byte ledger address.
    pub fn from_address(addr: &Address) -> (r: Self)
        ensures
            r@ == overlay_of(*addr),
    {
        let mut bytes = [0u8; 16];
        bytes[0] = 0xfd;
        let mut i: usize = 1;
        while i < 16
            invariant
                1 <= i <= 16,
                bytes@[0] == 0xfd,
                forall|j: int| 1 <= j < i ==> bytes@[j] == addr@[j - 1],
            decreases 16 - i,
        {
            bytes[i] = addr[i - 1];
            i += 1;
        }
        assert(bytes@ =~= overlay_of(*addr));
        NodeOverlayId { bytes }
    }

    pub fn from_bytes(bytes: [u8; 16]) -> (r: Self)
        ensures
            r@ == bytes@,
    {
        NodeOverlayId { bytes }
    }

    pub fn as_bytes(&self) -> (r: &[u8; 16])
        ensures
            r@ == self@,
    {
        &self.bytes
    }

    /// Uncompressed ULA text (`fd12:3456:…`). Not a public IP.
    pub fn to_ula(&self) -> (r: String)
        ensures
            r@ == ula_text(self@),
    {
        let digits = chars_of(hex_encode(self.bytes.as_slice()).as_str());
        let mut out: Vec<char> = Vec::new();
        let mut i: usize = 0;
        while i < 39
            invariant
                i <= 39,
                digits@ == hex_text(self@),
                self@.len() == 16,
                out@ == ula_text(self@).take(i as int),
            decreases 39 - i,
        {
            if i % 5 == 4 {
                out.push(':');
            } else {
                out.push(digits[i - i / 5]);
            }
            i += 1;
            assert(out@ =~= ula_text(self@).take(i as int));
        }
        assert(out@ =~= ula_text(self@));
        text_of(out.as_slice())
    }

    /// `kron://` and the hexadecimal text of the id.
    pub fn to_kron_uri(&self) -> (r: String)
        ensures
            r@ == "kron://"@ + hex_text(self@),
    {
        let mut out = String::new();
        push_text(&mut out, "kron://");
        push_text(&mut out, hex_encode(self.bytes.as_slice()).as_str());
        assert(out@ =~= "kron://"@ + hex_text(self@));
        out
    }

    /// `kron://kron1…` display form (wallet address, not a routable host).
    pub fn kron_uri_with_bech32(kron1: &str) -> (r: String)
        ensures
            r@ == "kron://"@ + kron1@,
    {
        let mut out = String::new();
        push_text(&mut out, "kron://");
        push_text(&mut out, kron1);
        assert(out@ =~= "kron://"@ + kron1@);
        out
    }
}

/// Every derived id lies in `fd00::/8`, and two addresses share one only where
/// their first fifteen bytes agree.
pub proof fn law_overlay_identity(a: Address, b: Address)
    ensures
        overlay_of(a).len() == 16,
        overlay_of(a)[0] == 0xfd,
        overlay_of(a) == overlay_of(b) ==> a@.take(15) == b@.take(15),
{
    if overlay_of(a) == overlay_of(b) {
        assert(overlay_of(a).skip(1) =~= a@.take(15));
        assert(overlay_of(b).skip(1) =~= b@.take(15));
    }
}

/// The text of an id is its 32 digits in groups of four, with a colon between two groups.
pub proof fn law_overlay_text(id: Seq<u8>, group: int, digit: int)
    requires
        id.len() == 16,
        0 <= group < 8,
        0 <= digit < 4,
    ensures
        ula_text(id).len() == 39,
        ula_text(id)[5 * group + digit] == hex_text(id)[4 * group + digit],
        group < 7 ==> ula_text(id)[5 * group + 4] == ':',
{
    let i = 5 * group + digit;
    assert(i / 5 == group && i % 5 == digit);
    assert((5 * group + 4) % 5 == 4);
}

} // verus!
