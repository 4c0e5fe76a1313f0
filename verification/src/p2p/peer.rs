//! Peer identity and connection state.

use vstd::prelude::*;

use crate::anti_bot::attestation::DeviceScore;
use crate::anti_bot::profile::DeviceClass;
use crate::anti_bot::reputation::{ipv4_to_slash24, subnet_of};
use crate::crypto::lattice::LatticePublicKey;
use crate::p2p::overlay::NodeOverlayId;
use crate::types::Address;

verus! {

/// A gateway (PC) stays in a separate overlay from phones.
#[derive(Clone, Copy, Debug, PartialEq, Eq, Structural)]
pub enum PeerRole {
    CoreValidator,
    EdgeMiner,
}

impl PeerRole {
    /// The wire number of the role.
    pub open spec fn code(self) -> u8 {
        match self {
            PeerRole::CoreValidator => 0,
            PeerRole::EdgeMiner => 1,
        }
    }

    /// The role with wire number `v`.
    pub open spec fn decoded(v: u8) -> Option<PeerRole> {
        if v == 0 {
            Some(PeerRole::CoreValidator)
        } else if v == 1 {
            Some(PeerRole::EdgeMiner)
        } else {
            None
        }
    }

    pub fn to_u8(self) -> (r: u8)
        ensures
            r == self.code(),
    {
        match self {
            PeerRole::CoreValidator => 0,
            PeerRole::EdgeMiner => 1,
        }
    }

    pub fn from_u8(v: u8) -> (r: Option<Self>)
        ensures
            r == Self::decoded(v),
    {
        match v {
            0 => Some(PeerRole::CoreValidator),
            1 => Some(PeerRole::EdgeMiner),
            _ => None,
        }
    }

    pub fn from_class(class: DeviceClass) -> (r: Self)
        ensures
            r == (if class == DeviceClass::PersonalComputer {
                PeerRole::CoreValidator
            } else {
                PeerRole::EdgeMiner
            }),
    {
        match class {
            DeviceClass::PersonalComputer => PeerRole::CoreValidator,
            DeviceClass::IotSensor | DeviceClass::LegacyMobile => PeerRole::EdgeMiner,
        }
    }
}

#[derive(Clone, Copy, Debug, PartialEq, Eq, Structural)]
pub enum ConnectionState {
    Handshaking,
    Live,
    Quarantined,
    Dead,
}

/// Socket address of a peer.
#[derive(Clone, Copy, Debug, PartialEq, Eq)]
pub enum PeerAddr {
    V4 { ip: [u8; 4], port: u16 },
    V6 { ip6: [u8; 16], port: u16 },
}

impl PeerAddr {
    /// The IPv4 address, where it is one.
    pub open spec fn v4(self) -> Option<[u8; 4]> {
        match self {
            PeerAddr::V4 { ip, .. } => Some(ip),
            PeerAddr::V6 { .. } => None,
        }
    }

    pub open spec fn port_number(self) -> u16 {
        match self {
            PeerAddr::V4 { port, .. } => port,
            PeerAddr::V6 { port, .. } => port,
        }
    }

    /// An address of the host itself: `127.0.0.0/8`, or `::1`.
    pub open spec fn loopback(self) -> bool {
        match self {
            PeerAddr::V4 { ip, .. } => ip@[0] == 127,
            PeerAddr::V6 { ip6, .. } => is_localhost6(ip6@),
        }
    }

    pub fn port(self) -> (r: u16)
        ensures
            r == self.port_number(),
    {
        match self {
            PeerAddr::V4 { port, .. } => port,
            PeerAddr::V6 { port, .. } => port,
        }
    }
}

/// Live (or recently seen) overlay contact.
#[derive(Debug)]
pub struct Peer {
    pub id: Address,
    /// Mesh ID (ULA). Routing looks up this, not the LAN address.
    pub overlay_id: NodeOverlayId,
    pub public_key: LatticePublicKey,
    pub addr: PeerAddr,
    pub role: PeerRole,
    pub class: DeviceClass,
    pub reputation: i32,
    pub state: ConnectionState,
    /// Milliseconds on the caller's clock.
    pub last_seen: u64,
}

/// A contact as mathematical data.
#[verifier::ext_equal]
pub struct PeerView {
    pub id: Address,
    pub overlay_id: Seq<u8>,
    pub public_key: Seq<u8>,
    pub addr: PeerAddr,
    pub role: PeerRole,
    pub class: DeviceClass,
    pub reputation: i32,
    pub state: ConnectionState,
    pub last_seen: u64,
}

impl View for Peer {
    type V = PeerView;

    open spec fn view(&self) -> PeerView {
        PeerView {
            id: self.id,
            overlay_id: self.overlay_id@,
            public_key: self.public_key@,
            addr: self.addr,
            role: self.role,
            class: self.class,
            reputation: self.reputation,
            state: self.state,
            last_seen: self.last_seen,
        }
    }
}

impl Clone for Peer {
    fn clone(&self) -> (r: Self)
        ensures
            r@ == self@,
    {
        Peer {
            id: self.id,
            overlay_id: self.overlay_id,
            public_key: self.public_key.clone(),
            addr: self.addr,
            role: self.role,
            class: self.class,
            reputation: self.reputation,
            state: self.state,
            last_seen: self.last_seen,
        }
    }
}

/// What the handshake hands back after the key and attestation checks.
#[derive(Debug)]
pub struct PeerInfo {
    pub peer: Peer,
    pub score: DeviceScore,
}

pub fn ipv4_octets(addr: PeerAddr) -> (r: Option<[u8; 4]>)
    ensures
        r == addr.v4(),
{
    match addr {
        PeerAddr::V4 { ip, .. } => Some(ip),
        PeerAddr::V6 { .. } => None,
    }
}

/// The /24 of an IPv4 address.
pub fn slash24(ip: [u8; 4]) -> (r: u32)
    ensures
        r == subnet_of(ip),
{
    ipv4_to_slash24(ip)
}

pub fn is_loopback(addr: PeerAddr) -> (r: bool)
    ensures
        r == addr.loopback(),
{
    match addr {
        PeerAddr::V4 { ip, .. } => ip[0] == 127,
        PeerAddr::V6 { ip6, .. } => localhost6(&ip6),
    }
}

/// The IPv6 address `::1`.
pub open spec fn is_localhost6(ip: Seq<u8>) -> bool {
    &&& ip[15] == 1
    &&& forall|i: int| 0 <= i < 15 ==> ip[i] == 0
}

fn localhost6(ip: &[u8; 16]) -> (r: bool)
    ensures
        r == is_localhost6(ip@),
{
    let mut i: usize = 0;
    while i < 15
        invariant
            i <= 15,
            forall|j: int| 0 <= j < i ==> ip@[j] == 0,
        decreases 15 - i,
    {
        if ip[i] != 0 {
            return false;
        }
        i += 1;
    }
    ip[15] == 1
}

/// The wire number identifies the role.
pub proof fn law_role_round_trip(role: PeerRole)
    ensures
        PeerRole::decoded(role.code()) == Some(role),
{
}

} // verus!
