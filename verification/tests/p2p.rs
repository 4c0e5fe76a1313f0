use kron_mesh::anti_bot::profile::DeviceClass;
use kron_mesh::crypto::lattice::LatticeKeyPair;
use kron_mesh::dag::reconciliation::{SyncInventory, MAX_INVENTORY_HASHES};
use kron_mesh::dag::wallet_relay::relay_intercept_and_sign;
use kron_mesh::dag::{DagTransaction, KronDAG};
use kron_mesh::kron::bootstrap::{default_bootstrap_addr, PeerTarget};
use kron_mesh::kron::{generate_kron_wallet_from_rng, KronKeypair};
use kron_mesh::p2p::discovery::{
    beacon_port, broadcast_targets, decode_beacon, discovered_from, encode_beacon,
    format_hub_connect_error, sync_line, DialFault, HubDial, LanBeacon, LanDiscovery,
    ANNOUNCE_EVERY_MS,
};
use kron_mesh::p2p::frame::{
    read_frame, read_header, write_frame, KIND_ACK, KIND_AUTH, KIND_CHALLENGE, KIND_HELLO,
    KIND_INV, KIND_PAYLOAD, KIND_PING, KIND_PONG, KIND_REJECT, KIND_WANT, MAX_FRAME,
};
use kron_mesh::p2p::gossip::{
    accept_udp_inventory, GossipEngine, GossipInventory, GossipPayload, GossipWant,
};
use kron_mesh::p2p::handshake::{
    decode_hello, encode_hello, handshake_transcript, initiator_on_ack, initiator_on_challenge,
    initiator_start, reject_socket, responder_challenge, responder_finish, responder_on_auth,
    responder_on_hello, verify_attestation, HandshakeConfig,
};
use kron_mesh::p2p::hub::{HubState, StoreWrite};
use kron_mesh::p2p::mesh::{
    decode_wire, default_gateway_addr, encode_wire, is_mesh_magic, read_mesh_frame,
    write_mesh_frame, MeshRole, MeshWireMessage, MESH_MAGIC, MK_DAG_TX, MK_HELLO, MK_PING,
    MK_SYNC_INV, PROTOCOL_KRON_MESH,
};
use kron_mesh::p2p::node::P2pNode;
use kron_mesh::p2p::noise::{
    frame_of_chunks, padded32, parse_plain, plain_chunks, read_chunk_count, read_raw_len,
    write_raw, NoiseHandshake, NoiseSession, MAX_CHUNKS, NOISE_PLAIN_CHUNK,
};
use kron_mesh::p2p::overlay::NodeOverlayId;
use kron_mesh::p2p::peer::{
    ipv4_octets, is_loopback, slash24, ConnectionState, Peer, PeerAddr, PeerRole,
};
use kron_mesh::p2p::routing::{RoutingTable, MAX_PER_SLASH24};
use kron_mesh::p2p::session::{
    expect_done, expect_hello, hello, serve_mesh_session, IsolatedDag, MeshGraph, MeshServer,
    SyncSession,
};
use kron_mesh::p2p::wire::{decode_mesh, encode_mesh, message_id, message_id_bytes};
use kron_mesh::p2p::NetworkError;
use kron_mesh::persist::DagStore;
use kron_mesh::types::message::MeshMessage;
use rand::rngs::StdRng;
use rand::SeedableRng;

fn overlay(seed: u64) -> NodeOverlayId {
    let mut rng = StdRng::seed_from_u64(seed);
    NodeOverlayId::from_pubkey(&LatticeKeyPair::generate(&mut rng).public)
}

fn id_of(w: &KronKeypair) -> [u8; 32] {
    *w.address().as_bytes()
}

fn peer_at(rng_seed: u64, ip: [u8; 4], role: PeerRole) -> Peer {
    let mut rng = StdRng::seed_from_u64(rng_seed);
    let keys = LatticeKeyPair::generate(&mut rng);
    Peer {
        id: keys.public.address(),
        overlay_id: NodeOverlayId::from_pubkey(&keys.public),
        public_key: keys.public,
        addr: PeerAddr::V4 { ip, port: 9000 },
        role,
        class: DeviceClass::IotSensor,
        reputation: 100,
        state: ConnectionState::Live,
        last_seen: 0,
    }
}

fn some_vertex(seed: u64, amount: u64) -> (KronDAG, MeshMessage) {
    let mut rng = StdRng::seed_from_u64(seed);
    let mut dag = KronDAG::with_genesis().unwrap();
    let a = generate_kron_wallet_from_rng(&mut rng);
    let b = generate_kron_wallet_from_rng(&mut rng);
    dag.credit_account(id_of(&a), 1_000_000);
    let tx = dag.compose_and_sign_with_rng(&a, id_of(&b), amount, &mut rng).unwrap();
    (dag, MeshMessage::Vertex(tx))
}

fn noise_pair() -> (NoiseSession, NoiseSession) {
    let mut a = NoiseHandshake::begin(true).ok().unwrap();
    let mut b = NoiseHandshake::begin(false).ok().unwrap();
    let m1 = a.open().unwrap();
    let m2 = b.on_message(&m1).unwrap().unwrap();
    let m3 = a.on_message(&m2).unwrap().unwrap();
    assert!(b.on_message(&m3).unwrap().is_none());
    (a.finish().ok().unwrap(), b.finish().ok().unwrap())
}

fn pass(from: &mut NoiseSession, to: &mut NoiseSession, kind: u8, payload: &[u8]) -> (u8, Vec<u8>) {
    let mut parts = from.write_frame(kind, payload).unwrap();
    let head = parts.remove(0);
    assert_eq!(read_chunk_count(&head).unwrap(), parts.len());
    to.read_frame(&parts).unwrap()
}

#[test]
fn beacon_roundtrip() {
    let id = overlay(7);
    let b = LanBeacon { overlay_id: id, p2p_port: 8000, kron1_prefix: "kron1qqqqqqqqqq".into() };
    let back = decode_beacon(&encode_beacon(&b)).unwrap();
    assert_eq!(back, b);
}

#[test]
fn loopback_unicast_beacon_is_not_self() {
    let a = overlay(11);
    let b = overlay(12);
    assert_ne!(a, b);
    let beacon = LanBeacon { overlay_id: a, p2p_port: 8000, kron1_prefix: "kron1alice".into() };
    let from = PeerAddr::V4 { ip: [127, 0, 0, 1], port: 40_000 };
    let remote = decode_beacon(&encode_beacon(&beacon)).unwrap();
    assert_eq!(remote.overlay_id, a);
    let peer = discovered_from(remote, from, b).expect("B accepts A");
    assert_eq!(peer.overlay_id, a);
    assert_eq!(peer.p2p_addr.port(), 8000);
    assert!(discovered_from(
        LanBeacon { overlay_id: b, p2p_port: 8000, kron1_prefix: "self".into() },
        from,
        b
    )
    .is_none());
}

#[test]
fn beacon_port_is_p2p_plus_one() {
    assert_eq!(beacon_port(8000), 8001);
}

#[test]
fn discovery_dials_a_peer_once() {
    let me = overlay(21);
    let other = overlay(22);
    let mut lan = LanDiscovery::new(me);
    assert!(lan.announce_due(ANNOUNCE_EVERY_MS));
    assert!(!lan.announce_due(ANNOUNCE_EVERY_MS - 1));
    let from = PeerAddr::V4 { ip: [192, 168, 1, 9], port: 8001 };
    let beacon = LanBeacon { overlay_id: other, p2p_port: 8000, kron1_prefix: "kron1x".into() };
    let known =
        LanBeacon { overlay_id: overlay(23), p2p_port: 8000, kron1_prefix: "kron1y".into() };
    assert!(lan.on_beacon(known, from, true).is_none());
    let first = lan.on_beacon(beacon.clone(), from, false).unwrap();
    assert_eq!(first.p2p_addr, PeerAddr::V4 { ip: [192, 168, 1, 9], port: 8000 });
    assert!(lan.on_beacon(beacon, from, false).is_none());
    let mine = LanBeacon { overlay_id: me, p2p_port: 8000, kron1_prefix: "me".into() };
    assert!(lan.on_beacon(mine, from, false).is_none());
    let targets = broadcast_targets(8001, Some([192, 168, 1, 42]));
    assert!(targets.contains(&PeerAddr::V4 { ip: [255, 255, 255, 255], port: 8001 }));
    assert!(targets.contains(&PeerAddr::V4 { ip: [192, 168, 1, 255], port: 8001 }));
    assert!(decode_beacon(&[0u8; 30]).is_none());
    assert!(decode_beacon(&[]).is_none());
}

#[test]
fn hub_dial_reports_in_plain_words() {
    let mut dial = HubDial::new();
    assert!(dial.attempt_line("1.2.3.4:8000").unwrap().contains("1.2.3.4:8000"));
    let report = dial.on_result("1.2.3.4:8000", &Some(DialFault::TimedOut));
    assert!(report.is_error);
    assert!(!report.connect);
    let line = format_hub_connect_error("1.2.3.4:8000", &DialFault::ConnectionRefused);
    assert!(line.contains("1.2.3.4:8000"));
    assert!(format_hub_connect_error("x", &DialFault::System("no route".into()))
        .contains("no route"));
    let up = dial.on_result("1.2.3.4:8000", &None);
    assert!(up.connect);
    assert!(!up.is_error);
    assert_eq!(sync_line(4, 4), None);
    assert!(sync_line(4, 9).unwrap().contains('9'));
}

#[test]
fn inventory_is_much_smaller_than_payload() {
    let (_, msg) = some_vertex(5, 9);
    let mut g = GossipEngine::for_role(PeerRole::EdgeMiner);
    let inv = g.announce(&msg);
    let body = encode_mesh(&msg);
    assert!(inv.byte_len() * 10 < body.len() || inv.byte_len() <= 34);
    assert!(body.len() > 200);
    let want = GossipEngine::for_role(PeerRole::CoreValidator).on_inventory(&inv);
    assert_eq!(want.ids.len(), 1);
}

#[test]
fn gossip_exchange_delivers_once() {
    let (_, msg) = some_vertex(55, 9);
    let mut a = GossipEngine::for_role(PeerRole::EdgeMiner);
    let mut b = GossipEngine::for_role(PeerRole::CoreValidator);
    let inv = GossipInventory::decode(&a.announce(&msg).encode()).unwrap();
    let want = GossipWant::decode(&b.on_inventory(&inv).encode()).unwrap();
    let mut payloads = a.on_want(&want);
    assert_eq!(payloads.len(), 1);
    let sent = GossipPayload::decode(&payloads.remove(0).encode()).unwrap();
    let copy = GossipPayload { id: sent.id, body: sent.body.clone() };
    let forged = GossipPayload { id: [1u8; 32], body: sent.body.clone() };
    assert_eq!(b.on_payload(forged).unwrap_err(), NetworkError::HashMismatch);
    assert!(b.on_payload(sent).unwrap().is_some());
    assert!(b.on_payload(copy).unwrap().is_none());
    let id = message_id(&msg);
    assert!(b.contains(&id));
    assert_eq!(message_id(&b.get(&id).unwrap()), id);
    assert!(b.on_inventory(&inv).ids.is_empty());
    assert!(accept_udp_inventory(true, &inv.encode()).is_ok());
    assert_eq!(
        accept_udp_inventory(false, &inv.encode()).unwrap_err(),
        NetworkError::UnauthenticatedDatagram
    );
    assert!(GossipInventory::decode(&[9]).is_err());
}

#[test]
fn hello_ping_protocol_is_kron_mesh_1() {
    let msg =
        MeshWireMessage::Hello { protocol: PROTOCOL_KRON_MESH.to_string(), role: MeshRole::Hub };
    let (kind, bytes) = encode_wire(&msg);
    let back = decode_wire(kind, &bytes).unwrap();
    match back {
        MeshWireMessage::Hello { protocol, role } => {
            assert_eq!(protocol, "kron-mesh/1");
            assert_eq!(role, MeshRole::Hub);
        }
        _ => panic!("hello"),
    }
    let (k, p) = encode_wire(&MeshWireMessage::Ping);
    assert_eq!(k, MK_PING);
    assert_eq!(p, b"kron-mesh/1");
}

#[test]
fn wire_messages_come_back() {
    let ids = vec![[3u8; 32], [4u8; 32]];
    let inv = SyncInventory { tips: ids.clone(), recent: vec![[5u8; 32]], peer_id: Some([6u8; 32]) };
    let (kind, bytes) = encode_wire(&MeshWireMessage::SyncInventory(inv.clone()));
    assert_eq!(kind, MK_SYNC_INV);
    match decode_wire(kind, &bytes).unwrap() {
        MeshWireMessage::SyncInventory(back) => assert_eq!(back, inv),
        _ => panic!("inventory"),
    }
    let (kind, bytes) = encode_wire(&MeshWireMessage::Have { ids: ids.clone() });
    match decode_wire(kind, &bytes).unwrap() {
        MeshWireMessage::Have { ids: back } => assert_eq!(back, ids),
        _ => panic!("have"),
    }
    let (_, msg) = some_vertex(66, 2);
    let MeshMessage::Vertex(tx) = msg;
    let (kind, bytes) = encode_wire(&MeshWireMessage::DagTransaction(tx.clone()));
    assert_eq!(kind, MK_DAG_TX);
    match decode_wire(kind, &bytes).unwrap() {
        MeshWireMessage::DagTransaction(back) => assert_eq!(back, tx),
        _ => panic!("vertex"),
    }
    assert_eq!(decode_wire(200, &[]).unwrap_err(), NetworkError::BadFrame);
    assert_eq!(decode_wire(MK_HELLO, &[9]).unwrap_err(), NetworkError::BadFrame);
    let many = SyncInventory {
        tips: vec![[1u8; 32]; MAX_INVENTORY_HASHES + 1],
        recent: Vec::new(),
        peer_id: None,
    };
    let (kind, bytes) = encode_wire(&MeshWireMessage::SyncInventory(many));
    assert!(decode_wire(kind, &bytes).is_err());
}

#[test]
fn mesh_frames_carry_their_length() {
    let mut out = Vec::new();
    write_mesh_frame(&mut out, MK_PING, b"hello").unwrap();
    assert!(is_mesh_magic(&[out[0], out[1], out[2], out[3]]));
    assert_eq!(&out[..4], &MESH_MAGIC);
    assert_eq!(read_mesh_frame(&out).unwrap(), (MK_PING, b"hello".to_vec()));
    out[0] ^= 1;
    assert!(read_mesh_frame(&out).is_err());

    let mut plain = Vec::new();
    write_frame(&mut plain, KIND_PING, b"abc").unwrap();
    assert_eq!(read_frame(&plain).unwrap(), (KIND_PING, b"abc".to_vec()));
    assert_eq!(read_header(&plain[..10]).unwrap(), (KIND_PING, 3));
    let big = vec![0u8; MAX_FRAME as usize + 1];
    assert!(write_frame(&mut plain, KIND_PING, &big).is_err());
}

#[test]
fn gateways_are_read_from_the_setting() {
    assert_eq!(default_gateway_addr(Some("10.1.2.3:9")), PeerTarget::V4 { ip: [10, 1, 2, 3], port: 9 });
    let home = default_gateway_addr(None);
    assert_eq!(home, default_gateway_addr(Some("")));
    assert_ne!(home, PeerTarget::V4 { ip: [10, 1, 2, 3], port: 9 });
    assert_eq!(default_bootstrap_addr().text(), "144.91.105.244:8000");
}

#[test]
fn two_isolated_dags_sync_over_loopback() {
    let mut rng = StdRng::seed_from_u64(0x4D45_5348_5731);
    let alice = generate_kron_wallet_from_rng(&mut rng);
    let bob = generate_kron_wallet_from_rng(&mut rng);

    let mut dag_a = KronDAG::with_genesis().unwrap();
    dag_a.credit_account(id_of(&alice), 1_000_000);
    let tx = dag_a.compose_and_sign_with_rng(&alice, id_of(&bob), 7_000, &mut rng).unwrap();
    dag_a.attach_and_verify_tx(tx.clone()).unwrap();

    let dag_b = KronDAG::with_genesis().unwrap();
    assert_ne!(
        dag_a.vertex_set(),
        dag_b.vertex_set(),
        "peers must not share a graph before the wire exchange"
    );

    let mut graph_a = IsolatedDag::new(dag_a);
    let mut graph_b = IsolatedDag::new(dag_b);

    // Every message crosses as bytes, in the order it was sent.
    let mut server = MeshServer::Greeting;
    let (next, greeting) =
        serve_mesh_session(server, &mut graph_b, over_the_wire(&hello(MeshRole::Test)));
    server = next;
    assert_eq!(expect_hello(&greeting.unwrap()[0]).unwrap(), MeshRole::Hub);
    let (mut client, mut to_b) = SyncSession::start(true);
    let mut to_a: Vec<MeshWireMessage> = Vec::new();
    for _ in 0..64 {
        if !to_b.is_empty() {
            let msg = over_the_wire(&to_b.remove(0));
            let (next, out) = serve_mesh_session(server, &mut graph_b, msg);
            server = next;
            to_a.extend(out.unwrap());
        } else if !to_a.is_empty() && !client.is_finished() {
            let msg = over_the_wire(&to_a.remove(0));
            to_b.extend(client.on_message(&mut graph_a, msg).unwrap());
        } else {
            break;
        }
    }
    assert!(client.is_finished());

    assert_eq!(
        graph_a.vertex_set(),
        graph_b.vertex_set(),
        "after sync both isolated DAGs must store the same vertices"
    );
    assert!(graph_b.contains(&tx.id));
}

fn over_the_wire(msg: &MeshWireMessage) -> MeshWireMessage {
    let (kind, payload) = encode_wire(msg);
    let mut stream = Vec::new();
    write_mesh_frame(&mut stream, kind, &payload).unwrap();
    let (k, p) = read_mesh_frame(&stream).unwrap();
    decode_wire(k, &p).unwrap()
}

#[test]
fn wallets_submit_one_vertex() {
    let (dag, msg) = some_vertex(77, 4);
    let MeshMessage::Vertex(tx) = msg;
    let mut hub = HubState::new(dag);
    hub.set_store(DagStore::open(String::from("data")));
    let (server, out) =
        serve_mesh_session(MeshServer::Greeting, &mut hub, hello(MeshRole::Wallet));
    assert_eq!(out.unwrap().len(), 1);
    let (_, done) =
        serve_mesh_session(server, &mut hub, MeshWireMessage::DagTransaction(tx.clone()));
    let answers = done.unwrap();
    assert!(expect_done(&answers[0]).is_ok());
    assert!(expect_done(&MeshWireMessage::Ping).is_err());
    assert!(hub.contains(&tx.id));
    let writes = hub.take_writes();
    assert!(matches!(writes[0], StoreWrite::Log(_)));
    assert!(hub.take_writes().is_empty());
    assert!(hub.explorer_api().get_transaction_by_hash(tx.id).is_some());
    assert!(!hub.ingest(tx).unwrap());
    assert!(hub.take_writes().is_empty());

    let wrong = MeshWireMessage::Hello { protocol: String::from("other/1"), role: MeshRole::Hub };
    let (_, refused) = serve_mesh_session(MeshServer::Greeting, &mut hub, wrong);
    assert!(refused.is_err());
}

#[test]
fn silence_ends_only_the_body_exchange() {
    let (mut s, _) = SyncSession::start(true);
    assert!(s.on_timeout().is_err());
    assert!(s.is_finished());
}

#[test]
fn lattice_handshake_over_localhost_tcp() {
    let mut rng = StdRng::seed_from_u64(77);
    let server_keys = LatticeKeyPair::generate(&mut rng);
    let client_keys = LatticeKeyPair::generate(&mut rng);
    let server_hs = HandshakeConfig::honest(
        server_keys,
        PeerRole::CoreValidator,
        DeviceClass::PersonalComputer,
        false,
    );
    let client_hs = HandshakeConfig::honest(
        client_keys,
        PeerRole::EdgeMiner,
        DeviceClass::LegacyMobile,
        true,
    );
    let addr = PeerAddr::V4 { ip: [127, 0, 0, 1], port: 4000 };
    let (mut c, mut s) = noise_pair();
    assert_eq!(c.handshake_hash(), s.handshake_hash());

    let (client_nonce, hello_payload) = initiator_start(&client_hs);
    let (k, p) = pass(&mut c, &mut s, KIND_HELLO, &hello_payload);
    let greeting = responder_on_hello(&server_hs, k, &p).unwrap();
    let (server_nonce, challenge) = responder_challenge(&server_hs);
    let (k, p) = pass(&mut s, &mut c, KIND_CHALLENGE, &challenge);
    let (pending, auth) =
        initiator_on_challenge(&client_hs, &client_nonce, &c.handshake_hash(), k, &p).unwrap();
    let (k, p) = pass(&mut c, &mut s, KIND_AUTH, &auth);
    let ack = responder_on_auth(&server_hs, &greeting, &server_nonce, &s.handshake_hash(), k, &p)
        .unwrap();
    let (k, p) = pass(&mut s, &mut c, KIND_ACK, &ack);
    let info = initiator_on_ack(pending, k, &p, addr, 5).unwrap();
    assert_eq!(info.peer.role, PeerRole::CoreValidator);
    assert!(info.score.is_strong());
    let seen = responder_finish(greeting, addr, 5).unwrap();
    assert_eq!(seen.peer.id, client_hs.peer_id());
    assert_eq!(seen.peer.overlay_id, client_hs.overlay_id());
}

#[test]
fn handshakes_are_refused_with_a_reason() {
    let mut rng = StdRng::seed_from_u64(78);
    let server =
        HandshakeConfig::honest(
            LatticeKeyPair::generate(&mut rng),
            PeerRole::CoreValidator,
            DeviceClass::PersonalComputer,
            false,
        );
    let client = HandshakeConfig::honest(
        LatticeKeyPair::generate(&mut rng),
        PeerRole::EdgeMiner,
        DeviceClass::LegacyMobile,
        true,
    );
    let (nonce, payload) = initiator_start(&client);
    assert!(responder_on_hello(&server, KIND_PING, &payload).is_err());
    let hello_msg = decode_hello(&encode_hello(&client, &nonce)).unwrap();
    assert_eq!(hello_msg.nonce, nonce);
    let (server_nonce, challenge) = responder_challenge(&server);
    let hash_c = [1u8; 32];
    let (pending, auth) =
        initiator_on_challenge(&client, &nonce, &hash_c, KIND_CHALLENGE, &challenge).unwrap();
    // The two ends saw different tunnels: the signature does not hold.
    let refused =
        responder_on_auth(&server, &hello_msg, &server_nonce, &[2u8; 32], KIND_AUTH, &auth);
    assert!(refused.is_err());
    let addr = PeerAddr::V4 { ip: [127, 0, 0, 1], port: 1 };
    assert!(initiator_on_ack(pending, KIND_REJECT, &[1], addr, 0).is_err());
    assert!(verify_attestation(&client.attestation, &client.keys.public, 0).is_ok());
    assert!(verify_attestation(&client.attestation, &server.keys.public, 0).is_err());
    let banned = PeerAddr::V4 { ip: [66, 66, 66, 66], port: 1 };
    let mut strict = client.clone();
    strict.banned_ipv4.push([66, 66, 66, 66]);
    assert!(reject_socket(banned, &strict).is_err());
    assert!(reject_socket(addr, &strict).is_ok());
    assert_ne!(
        handshake_transcript(&nonce, &server_nonce, &[0; 32], &[1; 32], &hash_c),
        handshake_transcript(&nonce, &server_nonce, &[1; 32], &[0; 32], &hash_c)
    );
}

#[test]
fn tunnel_frames_are_opened_by_the_other_end_alone() {
    let (mut a, mut b) = noise_pair();
    let big = vec![7u8; NOISE_PLAIN_CHUNK * 2 + 5];
    assert_eq!(pass(&mut a, &mut b, KIND_PAYLOAD, &big), (KIND_PAYLOAD, big));
    let mut parts = a.write_frame(KIND_PING, b"x").unwrap();
    parts.remove(0);
    parts[0][0] ^= 1;
    assert!(b.read_frame(&parts).is_err());
    let (mut c, _) = noise_pair();
    let mut stray = c.write_frame(KIND_PING, b"y").unwrap();
    stray.remove(0);
    assert!(b.read_frame(&stray).is_err());
    assert!(read_chunk_count(&[]).is_err());
    assert_eq!(MAX_CHUNKS, 16);
    let mut raw = Vec::new();
    write_raw(&mut raw, b"abc").unwrap();
    assert_eq!(read_raw_len(&raw[..4]).unwrap(), 3);
    assert!(parse_plain(&[1]).is_err());
    assert_eq!(padded32(&[9u8; 32]), [9u8; 32]);
    let mut early = NoiseHandshake::begin(false).ok().unwrap();
    assert!(early.on_message(&[0u8; 3]).is_err());
}

#[test]
fn have_need_gossips_vertex_between_two_nodes() {
    let mut rng = StdRng::seed_from_u64(88);
    let core = HandshakeConfig::honest(
        LatticeKeyPair::generate(&mut rng),
        PeerRole::CoreValidator,
        DeviceClass::PersonalComputer,
        false,
    );
    let edge = HandshakeConfig::honest(
        LatticeKeyPair::generate(&mut rng),
        PeerRole::EdgeMiner,
        DeviceClass::LegacyMobile,
        false,
    );
    let mut n1 = P2pNode::new(&core);
    let mut n2 = P2pNode::new(&edge);
    let addr = PeerAddr::V4 { ip: [127, 0, 0, 1], port: 8000 };
    let (_, core_greets) = initiator_start(&core);
    let (_, edge_greets) = initiator_start(&edge);
    let core_info = responder_finish(decode_hello(&core_greets).unwrap(), addr, 0).unwrap();
    let edge_info = responder_finish(decode_hello(&edge_greets).unwrap(), addr, 0).unwrap();
    n2.connect(core_info.peer, 0, true).unwrap();
    n1.connect(edge_info.peer, 0, false).unwrap();
    assert!(n1.peer_count() >= 1 || n2.peer_count() >= 1);

    let mut dag = KronDAG::with_genesis().unwrap();
    let wallet = generate_kron_wallet_from_rng(&mut rng);
    let dest = generate_kron_wallet_from_rng(&mut rng);
    dag.credit_account(id_of(&wallet), 1_000_000);
    let tx = dag.compose_and_sign_with_rng(&wallet, id_of(&dest), 11, &mut rng).unwrap();
    let (id, inventory, targets) = n2.broadcast(&MeshMessage::Vertex(tx));
    assert_eq!(targets, vec![core.peer_id()]);
    let asks = n1.on_frame(&edge.peer_id(), KIND_INV, &inventory.encode());
    assert_eq!(asks.frames.len(), 1);
    assert_eq!(asks.frames[0].0, KIND_WANT);
    let gives = n2.on_frame(&core.peer_id(), asks.frames[0].0, &asks.frames[0].1);
    assert_eq!(gives.frames[0].0, KIND_PAYLOAD);
    let taken = n1.on_frame(&edge.peer_id(), gives.frames[0].0, &gives.frames[0].1);
    assert!(taken.frames.is_empty());
    assert!(n1.has(&id), "gateway should fetch the DAG vertex by Have/Need");
    let delivered = n1.take_delivered_from();
    assert_eq!(delivered.len(), 1);
    assert_eq!(delivered[0].0, edge.peer_id());
    assert!(n1.take_delivered().is_empty());
    let pong = n1.on_frame(&edge.peer_id(), KIND_PING, &[]);
    assert_eq!(pong.frames[0].0, KIND_PONG);
    assert!(n1.has_overlay(&edge.overlay_id()));
    assert_eq!(n1.live_peers().len(), 1);
    assert_eq!(n1.local_id(), core.peer_id());
    assert_eq!(n1.role(), PeerRole::CoreValidator);
    n1.disconnect(&edge.peer_id());
    let (_, more) = some_vertex(89, 1);
    assert!(n1.broadcast(&more).2.is_empty());
}

#[test]
fn different_keys_yield_different_overlay_ids() {
    let mut rng = StdRng::seed_from_u64(0x4D45_5348);
    let a = LatticeKeyPair::generate(&mut rng);
    let b = LatticeKeyPair::generate(&mut rng);
    let id_a = NodeOverlayId::from_pubkey(&a.public);
    let id_b = NodeOverlayId::from_pubkey(&b.public);
    assert_ne!(id_a, id_b);
    assert_ne!(id_a.to_ula(), id_b.to_ula());
}

#[test]
fn same_key_is_stable_ula_and_matches_address_derivation() {
    let mut rng = StdRng::seed_from_u64(0x4D45_5349);
    let keys = LatticeKeyPair::generate(&mut rng);
    let once = NodeOverlayId::from_pubkey(&keys.public);
    let again = NodeOverlayId::from_pubkey(&keys.public);
    assert_eq!(once, again);
    assert_eq!(once, NodeOverlayId::from_address(&keys.public.address()));
    assert!(once.to_ula().starts_with("fd"), "{}", once.to_ula());
    assert_eq!(once.as_bytes()[0], 0xfd);
    assert!(once.to_kron_uri().starts_with("kron://"));
    assert_eq!(once.to_ula().matches(':').count(), 7);
}

#[test]
fn slash24_cannot_eclipse_a_bucket() {
    let local = [0xAAu8; 32];
    let mut table = RoutingTable::new(local, PeerRole::EdgeMiner);
    let mut ok = 0;
    for i in 0..12u8 {
        let p = peer_at(10 + i as u64, [86, 10, 10, i + 1], PeerRole::EdgeMiner);
        if table.insert(p, 0).is_ok() {
            ok += 1;
        }
    }
    assert!(ok <= MAX_PER_SLASH24);
}

#[test]
fn edge_keeps_core_anchors() {
    let local = [0x11u8; 32];
    let mut table = RoutingTable::new(local, PeerRole::EdgeMiner);
    for i in 0..4u8 {
        let p = peer_at(100 + i as u64, [86, 1, i, 1], PeerRole::CoreValidator);
        table.insert(p, 0).unwrap();
    }
    assert_eq!(table.core_count(), 4);
    let closest = table.closest(&[0xFFu8; 32], 8);
    assert!(closest.iter().any(|p| p.role == PeerRole::CoreValidator));
}

#[test]
fn lookup_is_by_overlay_id_not_lan_ip() {
    let local = [0x22u8; 32];
    let mut table = RoutingTable::new(local, PeerRole::EdgeMiner);
    let p = peer_at(3, [192, 168, 1, 50], PeerRole::EdgeMiner);
    let overlay = p.overlay_id;
    table.insert(p, 0).unwrap();
    assert!(table.contains_overlay(&overlay));
    assert_eq!(
        table.lookup_overlay(&overlay).and_then(ipv4_octets),
        Some([192, 168, 1, 50])
    );
    let moved = peer_at(3, [10, 0, 0, 9], PeerRole::EdgeMiner);
    assert_eq!(moved.overlay_id, overlay);
    table.insert(moved, 1).unwrap();
    assert_eq!(table.edge_count(), 1);
    assert_eq!(table.lookup_overlay(&overlay).and_then(ipv4_octets), Some([10, 0, 0, 9]));
}

#[test]
fn tables_refuse_oneself_and_forget_nobody_silently() {
    let p = peer_at(4, [86, 2, 2, 2], PeerRole::EdgeMiner);
    let mut own = RoutingTable::new(p.id, PeerRole::EdgeMiner);
    let me = p.clone();
    assert_eq!(own.insert(me, 0).is_err(), true);
    let mut table = RoutingTable::new([0u8; 32], PeerRole::CoreValidator);
    let id = p.id;
    table.insert(p, 9).unwrap();
    assert!(table.contains(&id));
    assert_eq!(table.live_peers()[0].last_seen, 9);
    assert_eq!(table.gossip_targets(PeerRole::CoreValidator).len(), 1);
    assert_eq!(table.lookup_addr(&id), Some(PeerAddr::V4 { ip: [86, 2, 2, 2], port: 9000 }));
    assert_eq!(slash24([1, 2, 3, 4]), slash24([1, 2, 3, 250]));
    assert!(is_loopback(PeerAddr::V4 { ip: [127, 8, 8, 8], port: 1 }));
    assert_eq!(PeerRole::from_u8(PeerRole::EdgeMiner.to_u8()), Some(PeerRole::EdgeMiner));
    assert_eq!(PeerRole::from_class(DeviceClass::PersonalComputer), PeerRole::CoreValidator);
}

#[test]
fn vertex_roundtrip_and_id_stable() {
    let mut rng = StdRng::seed_from_u64(4);
    let mut dag = KronDAG::with_genesis().unwrap();
    let a = generate_kron_wallet_from_rng(&mut rng);
    let b = generate_kron_wallet_from_rng(&mut rng);
    dag.credit_account(id_of(&a), 1_000_000);
    let tx = dag.compose_and_sign_with_rng(&a, id_of(&b), 3, &mut rng).unwrap();
    let msg = MeshMessage::Vertex(tx);
    let bytes = encode_mesh(&msg);
    let back = decode_mesh(&bytes).unwrap();
    assert_eq!(message_id(&msg), message_id(&back));
    match back {
        MeshMessage::Vertex(t) => assert_eq!(t.amount, 3),
    }
}

#[test]
fn message_ids_cover_the_encoding() {
    let (_, msg) = some_vertex(44, 3);
    let bytes = encode_mesh(&msg);
    assert_eq!(message_id(&msg), message_id_bytes(&bytes));
    assert!(decode_mesh(&[]).is_err());
    assert!(decode_mesh(&[9, 9]).is_err());
    assert!(!NetworkError::BadFrame.message().is_empty());
    assert!(NetworkError::BadFrame.is_fatal_socket());
    assert!(!NetworkError::Io.is_fatal_socket());
}

#[test]
fn uris_and_messages_name_what_they_carry() {
    assert_eq!(NodeOverlayId::kron_uri_with_bech32("kron1abc"), "kron://kron1abc");
    let mut rng = StdRng::seed_from_u64(0x4D45_5350);
    let alice = generate_kron_wallet_from_rng(&mut rng);
    let dag = KronDAG::with_genesis().unwrap();
    let g = dag.genesis_id();
    let tx = kron_mesh::DagTransaction::user_transfer(g, g, &alice, [2; 32], 5, 0).unwrap();
    let id = tx.id;
    assert_eq!(MeshMessage::Vertex(tx).vertex_id(), id);
    let address = alice.address().into_string();
    assert_eq!(alice.into_lattice().public.address(), *kron_mesh::KronAddress::parse(&address).unwrap().as_bytes());
}

#[test]
fn carried_vertices_travel_whole() {
    let mut rng = StdRng::seed_from_u64(91);
    let (_, msg) = some_vertex(90, 4);
    let MeshMessage::Vertex(mut tx) = msg;
    for hop in 1..=4usize {
        let relay = generate_kron_wallet_from_rng(&mut rng);
        tx = relay_intercept_and_sign(tx, &relay).unwrap();
        assert_eq!(tx.relay_proofs.len(), hop);
        assert_eq!(DagTransaction::from_canonical(&tx.canonical_bytes()).unwrap(), tx);
        let MeshMessage::Vertex(back) =
            decode_mesh(&encode_mesh(&MeshMessage::Vertex(tx.clone()))).unwrap();
        assert_eq!(back, tx);
        assert!(back.verify_relay_proofs());
        assert_eq!(back.proven_relay_nodes(), tx.relay_nodes);
        let (kind, bytes) = encode_wire(&MeshWireMessage::DagTransaction(tx.clone()));
        match decode_wire(kind, &bytes).unwrap() {
            MeshWireMessage::DagTransaction(t) => assert_eq!(t, tx),
            _ => panic!("vertex"),
        }
    }
    // An encoding that is cut short is refused, wherever it is cut.
    let bytes = tx.canonical_bytes();
    let last = bytes.len() - 1;
    for k in (0..last).step_by(211).chain(last - 4..=last) {
        assert!(DagTransaction::from_canonical(&bytes[..k]).is_err());
    }
}

#[test]
fn tunnel_chunks_are_the_frame() {
    let payload: Vec<u8> = (0..NOISE_PLAIN_CHUNK * 2).map(|i| (i % 251) as u8).collect();
    let chunks = plain_chunks(KIND_PAYLOAD, &payload).unwrap();
    let lengths: Vec<usize> = chunks.iter().map(|c| c.len()).collect();
    assert_eq!(lengths, vec![NOISE_PLAIN_CHUNK, NOISE_PLAIN_CHUNK, 10]);
    let mut whole = Vec::new();
    write_frame(&mut whole, KIND_PAYLOAD, &payload).unwrap();
    assert_eq!(chunks.concat(), whole);
    assert_eq!(frame_of_chunks(&chunks).unwrap(), (KIND_PAYLOAD, payload));
    assert_eq!(frame_of_chunks(&chunks[1..].to_vec()).unwrap_err(), NetworkError::BadFrame);
    let mut long = chunks.clone();
    long.push(vec![1]);
    assert_eq!(frame_of_chunks(&long).unwrap_err(), NetworkError::BadFrame);
    let flood = vec![vec![0u8; MAX_FRAME as usize]; 2];
    assert_eq!(frame_of_chunks(&flood).unwrap_err(), NetworkError::BadFrame);
    let big = vec![0u8; MAX_FRAME as usize + 1];
    assert_eq!(plain_chunks(KIND_PING, &big).unwrap_err(), NetworkError::BadFrame);
    let (a, b) = noise_pair();
    assert_eq!(a.handshake_hash(), b.handshake_hash());
    assert_ne!(a.handshake_hash(), [0u8; 32]);
    assert_ne!(noise_pair().0.handshake_hash(), a.handshake_hash());
    assert_eq!(padded32(&[7u8; 3])[..5], [7, 7, 7, 0, 0]);
}

#[test]
fn tunnel_handshakes_take_three_messages() {
    let mut a = NoiseHandshake::begin(true).ok().unwrap();
    let mut b = NoiseHandshake::begin(false).ok().unwrap();
    assert!(matches!(b.open(), Err(NetworkError::BadFrame)));
    assert!(matches!(a.on_message(&[0u8; 40]), Err(NetworkError::BadFrame)));
    assert!(matches!(b.on_message(&[0u8; 31]), Err(NetworkError::Handshake("noise read e"))));
    assert!(matches!(b.on_message(&[0u8; 2_081]), Err(NetworkError::Handshake("noise read e"))));
    let m1 = a.open().unwrap();
    assert_eq!(m1.len(), 32);
    assert!(matches!(a.open(), Err(NetworkError::BadFrame)));
    let m2 = b.on_message(&m1).unwrap().unwrap();
    assert_eq!(m2.len(), 96);
    let mut bent = m2.clone();
    bent[95] ^= 1;
    assert!(matches!(a.on_message(&bent), Err(NetworkError::Handshake("noise read ees"))));
    let m3 = a.on_message(&m2).unwrap().unwrap();
    assert_eq!(m3.len(), 64);
    assert!(matches!(b.on_message(&m3), Ok(None)));
    assert!(a.finish().is_ok() && b.finish().is_ok());
    let early = NoiseHandshake::begin(true).ok().unwrap();
    assert!(matches!(early.finish(), Err(NetworkError::Handshake("noise transport"))));
    let mut loose = NoiseHandshake::begin(false).ok().unwrap();
    assert!(loose.on_message(&[9u8; 2_080]).unwrap().is_some());
}

#[test]
fn frames_cross_the_tunnel_in_step() {
    let (mut a, mut b) = noise_pair();
    let words = b"gossip is never plaintext";
    for round in 0..3u8 {
        let sent = a.write_frame(KIND_PAYLOAD, words).unwrap();
        assert!(sent.iter().all(|m| !m.windows(words.len()).any(|w| w == words)));
        assert_eq!(b.read_frame(&sent[1..].to_vec()).unwrap(), (KIND_PAYLOAD, words.to_vec()));
        assert_eq!(pass(&mut b, &mut a, KIND_PONG, &[round]), (KIND_PONG, vec![round]));
        // The same words are encrypted anew, and a message is opened once.
        assert_ne!(a.write_frame(KIND_PAYLOAD, words).unwrap(), sent);
        assert!(b.read_frame(&sent[1..].to_vec()).is_err());
        let (c, d) = noise_pair();
        a = c;
        b = d;
    }
    let one = a.write_frame(KIND_PING, b"1").unwrap();
    let two = a.write_frame(KIND_PING, b"2").unwrap();
    assert!(b.read_frame(&two[1..].to_vec()).is_err());
    assert_eq!(b.read_frame(&one[1..].to_vec()).unwrap().1, b"1".to_vec());
    assert_eq!(b.read_frame(&two[1..].to_vec()).unwrap().1, b"2".to_vec());
}
