//! LAN beacons, so that phones on one Wi-Fi find each other without typing an
//! address, and the decisions around dialling a hub. Sockets, clocks and threads are
//! the caller's part.

use vstd::prelude::*;
use vstd::utf8::encode_utf8;

use crate::bytes::{append, get_u16, le_bytes, le_value, lemma_le_bytes_len, lemma_le_value_of_bytes,
    lemma_pow256_values, put_u16, same, slices_equal};
use crate::listen::{is_loopback_v4, is_usable, is_usable_lan_ipv4};
use crate::p2p::error::NetworkError;
use crate::p2p::overlay::NodeOverlayId;
use crate::p2p::peer::PeerAddr;
use crate::p2p::routing::same_overlay;
use crate::text::{decimal, decimal_text, fit, fitted, lemma_fitted, lemma_text_round_trip, owned,
    push_chars, push_text, text_from, text_from_bytes};

verus! {

/// Beacon magic (`KRD1`).
pub const DISCOVERY_MAGIC: [u8; 4] = [0x4b, 0x52, 0x44, 0x31];

pub const DISCOVERY_VERSION: u8 = 1;

/// Most bytes of the name in a beacon.
pub const MAX_KRON1_PREFIX: usize = 80;

/// Bytes of a beacon before the name.
pub const BEACON_HEAD: usize = 24;

/// Milliseconds between announcements.
pub const ANNOUNCE_EVERY_MS: u64 = 3_000;

/// Milliseconds between dials of a hub.
pub const HUB_RETRY_MS: u64 = 8_000;

/// UDP port of the beacons: the P2P port and one.
pub fn beacon_port(p2p_port: u16) -> (r: u16)
    ensures
        r == (if p2p_port == u16::MAX {
            u16::MAX as int
        } else {
            p2p_port + 1
        }),
{
    p2p_port.saturating_add(1)
}

/// One announcement: overlay id, TCP port, and a `kron1` prefix for logs.
#[derive(Debug, PartialEq, Eq)]
pub struct LanBeacon {
    pub overlay_id: NodeOverlayId,
    pub p2p_port: u16,
    pub kron1_prefix: String,
}

/// A beacon as mathematical data.
#[verifier::ext_equal]
pub struct BeaconView {
    pub overlay_id: Seq<u8>,
    pub p2p_port: u16,
    pub kron1_prefix: Seq<char>,
}

impl View for LanBeacon {
    type V = BeaconView;

    open spec fn view(&self) -> BeaconView {
        BeaconView {
            overlay_id: self.overlay_id@,
            p2p_port: self.p2p_port,
            kron1_prefix: self.kron1_prefix@,
        }
    }
}

impl Clone for LanBeacon {
    fn clone(&self) -> (r: Self)
        ensures
            r@ == self@,
    {
        LanBeacon {
            overlay_id: self.overlay_id,
            p2p_port: self.p2p_port,
            kron1_prefix: owned(self.kron1_prefix.as_str()),
        }
    }
}

/// A peer learned from a beacon. The host is the datagram's source.
#[derive(Debug)]
pub struct DiscoveredPeer {
    pub overlay_id: NodeOverlayId,
    pub p2p_addr: PeerAddr,
    pub kron1_prefix: String,
}

/// The beacon on the wire: magic, version, overlay id, port, length of the name and
/// the name. A name that is too long is cut at a character.
pub open spec fn beacon_bytes(b: BeaconView) -> Seq<u8> {
    let name = encode_utf8(fitted(b.kron1_prefix, MAX_KRON1_PREFIX as int));
    DISCOVERY_MAGIC@ + seq![DISCOVERY_VERSION] + b.overlay_id + le_bytes(b.p2p_port as nat, 2)
        + seq![name.len() as u8] + name
}

/// The beacon that bytes spell.
pub open spec fn parsed_beacon(b: Seq<u8>) -> Option<BeaconView> {
    if b.len() >= BEACON_HEAD && b.take(4) == DISCOVERY_MAGIC@ && b[4] == DISCOVERY_VERSION
        && b.len() == BEACON_HEAD + b[23] && b[23] <= MAX_KRON1_PREFIX {
        Some(
            BeaconView {
                overlay_id: b.subrange(5, 21),
                p2p_port: le_value(b.subrange(21, 23)) as u16,
                kron1_prefix: text_from(b.skip(BEACON_HEAD as int)),
            },
        )
    } else {
        None
    }
}

pub fn encode_beacon(b: &LanBeacon) -> (r: Vec<u8>)
    ensures
        r@ == beacon_bytes(b@),
{
    let prefix = fit(b.kron1_prefix.as_str(), MAX_KRON1_PREFIX);
    let name = prefix.as_str().as_bytes();
    let mut out: Vec<u8> = Vec::new();
    append(&mut out, DISCOVERY_MAGIC.as_slice());
    out.push(DISCOVERY_VERSION);
    append(&mut out, b.overlay_id.as_bytes().as_slice());
    put_u16(&mut out, b.p2p_port);
    out.push(name.len() as u8);
    append(&mut out, name);
    assert(out@ =~= beacon_bytes(b@));
    out
}

pub fn decode_beacon(bytes: &[u8]) -> (r: Option<LanBeacon>)
    ensures
        match r {
            Some(b) => parsed_beacon(bytes@) == Some(b@),
            None => parsed_beacon(bytes@) is None,
        },
{
    if bytes.len() < BEACON_HEAD {
        return None;
    }
    assert(bytes@.subrange(0, 4) =~= bytes@.take(4));
    if !slices_equal(vstd::slice::slice_subrange(bytes, 0, 4), DISCOVERY_MAGIC.as_slice())
        || bytes[4] != DISCOVERY_VERSION {
        return None;
    }
    let mut overlay = [0u8; 16];
    let mut i: usize = 0;
    while i < 16
        invariant
            i <= 16,
            bytes.len() >= BEACON_HEAD,
            forall|j: int| 0 <= j < i ==> overlay@[j] == bytes@[5 + j],
        decreases 16 - i,
    {
        overlay[i] = bytes[5 + i];
        i += 1;
    }
    assert(overlay@ =~= bytes@.subrange(5, 21));
    let p2p_port: u16 = get_u16(bytes, 21);
    let n: usize = bytes[23] as usize;
    if bytes.len() != BEACON_HEAD + n || n > MAX_KRON1_PREFIX {
        return None;
    }
    assert(bytes@.subrange(24, 24 + n as int) =~= bytes@.skip(24));
    let kron1_prefix = text_from_bytes(vstd::slice::slice_subrange(bytes, 24, 24 + n));
    Some(LanBeacon { overlay_id: NodeOverlayId::from_bytes(overlay), p2p_port, kron1_prefix })
}

/// The limited broadcast address.
pub open spec fn everyone() -> Seq<u8> {
    seq![255, 255, 255, 255]
}

/// Where a beacon is sent: to everyone, and to the broadcast address of the host's
/// /24 where that is another one.
pub fn broadcast_targets(beacon: u16, lan: Option<[u8; 4]>) -> (r: Vec<PeerAddr>)
    ensures
        r@.len() >= 1,
        r@[0] matches PeerAddr::V4 { ip, port } && ip@ == everyone() && port == beacon,
        match lan {
            Some(ip) => {
                let net = seq![ip@[0], ip@[1], ip@[2], 255u8];
                if net == everyone() {
                    r@.len() == 1
                } else {
                    r@.len() == 2 && (r@[1] matches PeerAddr::V4 { ip: o, port } && o@ == net
                        && port == beacon)
                }
            },
            None => r@.len() == 1,
        },
{
    let mut out: Vec<PeerAddr> = Vec::new();
    let all: [u8; 4] = [255, 255, 255, 255];
    assert(all@ =~= everyone());
    out.push(PeerAddr::V4 { ip: all, port: beacon });
    if let Some(ip) = lan {
        let net: [u8; 4] = [ip[0], ip[1], ip[2], 255];
        assert(net@ =~= seq![ip@[0], ip@[1], ip@[2], 255u8]);
        if !same(&net, &all) {
            proof {
                if net@ == all@ {
                    crate::bytes::lemma_array_view_eq(net, all);
                }
            }
            out.push(PeerAddr::V4 { ip: net, port: beacon });
        }
    }
    out
}

pub struct DiscoveryConfig {
    pub overlay: NodeOverlayId,
    pub kron1: String,
    pub p2p_port: u16,
    pub lan: Option<[u8; 4]>,
}

/// The address to dial for a beacon: none for the node's own, and none where the
/// source is no usable LAN address and not this host.
pub open spec fn discovered(beacon: BeaconView, from: PeerAddr, local: Seq<u8>) -> Option<PeerAddr> {
    if beacon.overlay_id == local {
        None
    } else {
        match from {
            PeerAddr::V4 { ip, .. } => if is_usable(ip) || is_loopback_v4(ip) {
                Some(PeerAddr::V4 { ip, port: beacon.p2p_port })
            } else {
                None
            },
            PeerAddr::V6 { .. } => None,
        }
    }
}

/// The peer behind a beacon.
pub fn discovered_from(beacon: LanBeacon, from: PeerAddr, local: NodeOverlayId) -> (r: Option<
    DiscoveredPeer,
>)
    ensures
        match r {
            Some(p) => {
                &&& discovered(beacon@, from, local@) == Some(p.p2p_addr)
                &&& p.overlay_id@ == beacon@.overlay_id
                &&& p.kron1_prefix@ == beacon@.kron1_prefix
            },
            None => discovered(beacon@, from, local@) is None,
        },
{
    if same_overlay(&beacon.overlay_id, &local) {
        return None;
    }
    match from {
        PeerAddr::V4 { ip, .. } => {
            if is_usable_lan_ipv4(ip) || ip[0] == 127 {
                Some(
                    DiscoveredPeer {
                        overlay_id: beacon.overlay_id,
                        p2p_addr: PeerAddr::V4 { ip, port: beacon.p2p_port },
                        kron1_prefix: beacon.kron1_prefix,
                    },
                )
            } else {
                None
            }
        },
        PeerAddr::V6 { .. } => None,
    }
}

/// Which overlays a node has seen on the LAN.
pub struct LanDiscovery {
    overlay: NodeOverlayId,
    seen: Vec<NodeOverlayId>,
}

/// The overlay ids of a list.
pub open spec fn overlay_views(v: Seq<NodeOverlayId>) -> Seq<Seq<u8>> {
    v.map_values(|o: NodeOverlayId| o@)
}

/// The node's own id, and those it has seen in the order of their first beacons.
#[verifier::ext_equal]
pub struct DiscoveryView {
    pub overlay: Seq<u8>,
    pub seen: Seq<Seq<u8>>,
}

impl View for LanDiscovery {
    type V = DiscoveryView;

    closed spec fn view(&self) -> DiscoveryView {
        DiscoveryView { overlay: self.overlay@, seen: overlay_views(self.seen@) }
    }
}

impl DiscoveryView {
    /// A beacon arrives: what is seen after it, and whether its sender is dialled. A
    /// sender is dialled for its first beacon alone, and not where the node is
    /// connected to it.
    pub open spec fn heard(self, beacon: BeaconView, from: PeerAddr, connected: bool) -> (
        DiscoveryView,
        bool,
    ) {
        if discovered(beacon, from, self.overlay) is None || self.seen.contains(beacon.overlay_id) {
            (self, false)
        } else {
            (DiscoveryView { seen: self.seen.push(beacon.overlay_id), ..self }, !connected)
        }
    }
}

impl LanDiscovery {
    /// A node that has seen nobody but itself.
    pub fn new(overlay: NodeOverlayId) -> (r: Self)
        ensures
            r@ == (DiscoveryView { overlay: overlay@, seen: seq![overlay@] }),
    {
        let mut seen: Vec<NodeOverlayId> = Vec::new();
        seen.push(overlay);
        assert(overlay_views(seen@) =~= seq![overlay@]);
        LanDiscovery { overlay, seen }
    }

    /// Whether it is time to announce again.
    pub fn announce_due(&self, since_last_ms: u64) -> (r: bool)
        ensures
            r == (since_last_ms >= ANNOUNCE_EVERY_MS),
    {
        since_last_ms >= ANNOUNCE_EVERY_MS
    }

    fn has_seen(&self, id: &NodeOverlayId) -> (r: bool)
        ensures
            r == self@.seen.contains(id@),
    {
        let ghost v = overlay_views(self.seen@);
        let mut i: usize = 0;
        while i < self.seen.len()
            invariant
                i <= self.seen@.len(),
                v == overlay_views(self.seen@),
                forall|j: int| 0 <= j < i ==> v[j] != id@,
            decreases self.seen@.len() - i,
        {
            assert(v[i as int] == self.seen@[i as int]@);
            if same_overlay(&self.seen[i], id) {
                return true;
            }
            i += 1;
        }
        false
    }

    /// A beacon arrived. Gives the peer to dial, where there is one to dial.
    pub fn on_beacon(&mut self, beacon: LanBeacon, from: PeerAddr, connected: bool) -> (r: Option<
        DiscoveredPeer,
    >)
        ensures
            final(self)@ == old(self)@.heard(beacon@, from, connected).0,
            r is Some == old(self)@.heard(beacon@, from, connected).1,
            r matches Some(p) ==> {
                &&& discovered(beacon@, from, old(self)@.overlay) == Some(p.p2p_addr)
                &&& p.overlay_id@ == beacon@.overlay_id
                &&& p.kron1_prefix@ == beacon@.kron1_prefix
            },
    {
        let ghost start = self@;
        match discovered_from(beacon, from, self.overlay) {
            Some(peer) => {
                if self.has_seen(&peer.overlay_id) {
                    return None;
                }
                self.seen.push(peer.overlay_id);
                assert(overlay_views(self.seen@) =~= start.seen.push(peer.overlay_id@));
                if connected {
                    None
                } else {
                    Some(peer)
                }
            },
            None => None,
        }
    }
}

/// Why a dial failed.
#[derive(Debug)]
pub enum DialFault {
    TimedOut,
    ConnectionRefused,
    /// Another failure of the system, in its words.
    System(String),
    Network(NetworkError),
}

/// The line for a hub that could not be reached.
pub open spec fn dial_text(addr: Seq<char>, fault: DialFault) -> Seq<char> {
    match fault {
        DialFault::TimedOut => "hub "@ + addr + " timed out (VPS down or not accepting)"@,
        DialFault::ConnectionRefused => "hub "@ + addr
            + " connection refused (VPS down or viewer not accepting)"@,
        DialFault::System(e) => "hub "@ + addr + " failed: "@ + e@,
        DialFault::Network(e) => "hub "@ + addr + " failed: "@ + e.spec_message(),
    }
}

/// The line for a refused or timed-out dial of the hub at `addr`.
pub fn format_hub_connect_error(addr: &str, fault: &DialFault) -> (r: String)
    ensures
        r@ == dial_text(addr@, *fault),
{
    let mut out = String::new();
    push_text(&mut out, "hub ");
    push_text(&mut out, addr);
    match fault {
        DialFault::TimedOut => {
            push_text(&mut out, " timed out (VPS down or not accepting)");
        },
        DialFault::ConnectionRefused => {
            push_text(&mut out, " connection refused (VPS down or viewer not accepting)");
        },
        DialFault::System(e) => {
            push_text(&mut out, " failed: ");
            push_text(&mut out, e.as_str());
        },
        DialFault::Network(e) => {
            push_text(&mut out, " failed: ");
            push_text(&mut out, e.message().as_str());
        },
    }
    assert(out@ =~= dial_text(addr@, *fault));
    out
}

/// A hub that is dialled again and again. It is announced once per connection.
#[derive(Clone, Copy, Debug, PartialEq, Eq)]
pub struct HubDial {
    pub announced: bool,
}

/// What to do after a dial.
#[derive(Debug)]
pub struct DialReport {
    pub line: Option<String>,
    pub is_error: bool,
    /// Whether the gossip session to the hub is opened too.
    pub connect: bool,
}

impl HubDial {
    pub fn new() -> (r: Self)
        ensures
            !r.announced,
    {
        HubDial { announced: false }
    }

    /// The line before a dial.
    pub fn attempt_line(&self, addr: &str) -> (r: Option<String>)
        ensures
            r is Some == !self.announced,
            r matches Some(line) ==> line@ == "connecting to hub "@ + addr@ + " ..."@,
    {
        if self.announced {
            return None;
        }
        let mut out = String::new();
        push_text(&mut out, "connecting to hub ");
        push_text(&mut out, addr);
        push_text(&mut out, " ...");
        assert(out@ =~= "connecting to hub "@ + addr@ + " ..."@);
        Some(out)
    }

    /// A dial ended. The first success after a failure is announced and opens the
    /// gossip session; a failure is reported each time.
    pub fn on_result(&mut self, addr: &str, fault: &Option<DialFault>) -> (r: DialReport)
        ensures
            final(self).announced == (fault is None),
            r.connect == (fault is None && !old(self).announced),
            r.is_error == (fault is Some),
            match *fault {
                None => {
                    &&& r.line is Some == !old(self).announced
                    &&& r.line matches Some(line) ==> line@ == "connected to hub"@
                },
                Some(f) => r.line matches Some(line) && line@ == dial_text(addr@, f),
            },
    {
        match fault {
            None => {
                let first = !self.announced;
                self.announced = true;
                let line = if first {
                    Some(owned("connected to hub"))
                } else {
                    None
                };
                DialReport { line, is_error: false, connect: first }
            },
            Some(f) => {
                self.announced = false;
                DialReport {
                    line: Some(format_hub_connect_error(addr, f)),
                    is_error: true,
                    connect: false,
                }
            },
        }
    }
}

/// The line for a mesh synchronisation that changed the number of stored vertices.
pub fn sync_line(last: usize, now: usize) -> (r: Option<String>)
    ensures
        r is Some == (last != now),
        r matches Some(line) ==> line@ == "mesh sync vertices="@ + decimal_text(now as nat),
{
    if last == now {
        return None;
    }
    let mut out = String::new();
    push_text(&mut out, "mesh sync vertices=");
    push_chars(&mut out, decimal(now as u64).as_slice());
    assert(out@ =~= "mesh sync vertices="@ + decimal_text(now as nat));
    Some(out)
}

/// A beacon is read as it was sent, where its name fits.
pub proof fn law_beacon_round_trip(b: BeaconView)
    requires
        b.overlay_id.len() == 16,
        encode_utf8(b.kron1_prefix).len() <= MAX_KRON1_PREFIX,
    ensures
        parsed_beacon(beacon_bytes(b)) == Some(b),
{
    lemma_fitted(b.kron1_prefix, MAX_KRON1_PREFIX as int);
    let name = encode_utf8(b.kron1_prefix);
    lemma_text_round_trip(b.kron1_prefix);
    lemma_le_bytes_len(b.p2p_port as nat, 2);
    lemma_pow256_values();
    lemma_le_value_of_bytes(b.p2p_port as nat, 2);
    let w = beacon_bytes(b);
    assert(w.take(4) =~= DISCOVERY_MAGIC@);
    assert(w.subrange(5, 21) =~= b.overlay_id);
    assert(w.subrange(21, 23) =~= le_bytes(b.p2p_port as nat, 2));
    assert(w.skip(24) =~= name);
}

/// A node does not discover itself, whatever address its beacon comes from.
pub proof fn law_own_beacon_is_ignored(d: DiscoveryView, b: BeaconView, from: PeerAddr, connected: bool)
    requires
        b.overlay_id == d.overlay,
    ensures
        d.heard(b, from, connected) == (d, false),
{
}

/// A sender is dialled once: a second beacon with its id changes nothing.
pub proof fn law_peer_is_dialled_once(
    d: DiscoveryView,
    b: BeaconView,
    from: PeerAddr,
    connected: bool,
    later: BeaconView,
    from_later: PeerAddr,
    connected_later: bool,
)
    requires
        d.heard(b, from, connected).1,
        later.overlay_id == b.overlay_id,
    ensures
        !d.heard(b, from, connected).0.heard(later, from_later, connected_later).1,
{
    let e = d.heard(b, from, connected).0;
    assert(e.seen[d.seen.len() as int] == b.overlay_id);
}

/// Nodes on one LAN find each other: the first beacon of a stranger from a usable
/// address, as it comes off the wire, makes the node dial that address at the
/// announced port.
pub proof fn law_stranger_is_dialled(d: DiscoveryView, b: BeaconView, ip: [u8; 4], from_port: u16)
    requires
        b.overlay_id.len() == 16,
        encode_utf8(b.kron1_prefix).len() <= MAX_KRON1_PREFIX,
        b.overlay_id != d.overlay,
        !d.seen.contains(b.overlay_id),
        is_usable(ip),
    ensures
        parsed_beacon(beacon_bytes(b)) == Some(b),
        d.heard(b, PeerAddr::V4 { ip, port: from_port }, false).1,
        discovered(b, PeerAddr::V4 { ip, port: from_port }, d.overlay) == Some(
            PeerAddr::V4 { ip, port: b.p2p_port },
        ),
{
    law_beacon_round_trip(b);
}

} // verus!
