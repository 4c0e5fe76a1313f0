//! P2P overlay: Kademlia-style routing, lattice handshake, encrypted sessions, Have/Need
//! gossip of vertices, and the mesh protocol between hubs.

pub mod admission;
pub mod discovery;
pub mod error;
pub mod frame;
pub mod gossip;
pub mod handshake;
pub mod hub;
pub mod mesh;
pub mod node;
pub mod noise;
pub mod overlay;
pub mod peer;
pub mod routing;
pub mod session;
pub mod spread;
pub mod tunnel;
pub mod wire;

pub use discovery::{
    beacon_port, decode_beacon, encode_beacon, format_hub_connect_error, DiscoveredPeer,
    DiscoveryConfig, LanBeacon,
};
pub use error::NetworkError;
pub use gossip::{accept_udp_inventory, GossipEngine, GossipInventory};
pub use handshake::HandshakeConfig;
pub use hub::HubState;
pub use mesh::{default_gateway_addr, MeshRole, MeshWireMessage, PROTOCOL_KRON_MESH};
pub use node::P2pNode;
pub use overlay::NodeOverlayId;
pub use peer::{Peer, PeerInfo, PeerRole};
pub use routing::RoutingTable;
pub use session::{serve_mesh_session, IsolatedDag, MeshGraph};
pub use wire::{encode_mesh, message_id};
