use kron_mesh::anti_bot::profile::DeviceClass;
use kron_mesh::crypto::mobile_only::{HostArch, HostObservation, ShieldError};
use kron_mesh::dag::{DagError, DagTransaction, KronDAG};
use kron_mesh::kron::bootstrap::PeerTarget;
use kron_mesh::kron::cli::NodeRunMode;
use kron_mesh::kron::command::{
    menu_choice, node_command, node_setup, other_hubs, peer_link, phone_command, MenuChoice,
    NodeCommand, PeerLink, PhoneCommand, PhoneTask, NODE_MINES_NOT, NODE_SEND_REFUSAL, REWARD_REQUIRED,
};
use kron_mesh::kron::credit::{grant, parse_grant, parse_money_cmd, GrantFault};
use kron_mesh::kron::miner::{mine_share, validate_delivered, ShareOutcome, SHARE_COST};
use kron_mesh::kron::miner_cli::{invalid_node_message, parse_phone_miner_cli};
use kron_mesh::kron::phrase::{fresh_identity, identity_file_text, seed_from_text};
use kron_mesh::kron::wallet::{generate_kron_wallet_from_rng, KronAddress, KronKeypair};
use kron_mesh::p2p::peer::{PeerAddr, PeerRole};
use kron_mesh::table::Table;
use kron_mesh::LatticeKeyPair;
use rand::rngs::StdRng;
use rand::SeedableRng;

fn addr() -> String {
    KronAddress::from_hash([0xAB; 32]).into_string()
}

fn argv(parts: &[&str]) -> Vec<String> {
    parts.iter().map(|s| (*s).to_string()).collect()
}

fn phone_host() -> HostObservation {
    HostObservation::probe_this_process(
        HostArch::Aarch64,
        vec![100, 140, 90, 210, 130, 180, 70, 160],
        false,
    )
}

fn keys(seed: u64) -> KronKeypair {
    generate_kron_wallet_from_rng(&mut StdRng::seed_from_u64(seed))
}

#[test]
fn miner_arguments_have_defaults() {
    let cli = parse_phone_miner_cli(&argv(&[&addr()])).unwrap();
    assert_eq!(cli.reward.as_str(), addr());
    assert_eq!(cli.node.text(), "127.0.0.1:8000");
    assert_eq!(cli.data_dir, "kron-phone-miner");
    assert!(!cli.phone);
}

#[test]
fn miner_arguments_are_read_one_by_one() {
    let cli = parse_phone_miner_cli(&argv(&[
        "--phone",
        "--node",
        "10.0.0.7:9000",
        "--miner-address",
        &addr(),
        "--data-dir=box",
    ]))
    .unwrap();
    assert!(cli.phone);
    assert_eq!(cli.node.text(), "10.0.0.7:9000");
    assert_eq!(cli.data_dir, "box");
    let inline = parse_phone_miner_cli(&argv(&[&format!("--mine={}", addr())])).unwrap();
    assert_eq!(inline.reward.as_str(), addr());
    let bracketed =
        parse_phone_miner_cli(&argv(&["--bootstrap", "[::1]:8000", &addr()])).unwrap();
    assert!(matches!(bracketed.node, PeerTarget::Host(ref t) if t == "[::1]:8000"));
}

#[test]
fn miner_arguments_name_their_faults() {
    let fault = |parts: &[&str]| parse_phone_miner_cli(&argv(parts)).err().unwrap();
    assert_eq!(fault(&["--phone"]), "--reward-address kron1... is required");
    assert_eq!(fault(&["--node", "nowhere", &addr()]), "invalid --node 'nowhere'");
    assert_eq!(invalid_node_message("x"), "invalid --node 'x'");
    assert_eq!(fault(&["--node"]), "--node requires a value");
    assert_eq!(fault(&["--reward-address"]), "--reward-address requires kron1...");
    assert_eq!(fault(&["--reward-address", "--phone"]), "--reward-address requires kron1...");
    assert!(fault(&["--hub"]).starts_with("unknown argument: --hub"));
}

#[test]
fn grants_are_read_in_micro_units() {
    assert_eq!(parse_grant("1"), Ok(1_000_000));
    assert_eq!(parse_grant(" 1.5 "), Ok(1_500_000));
    assert_eq!(parse_grant(".000001"), Ok(1));
    assert_eq!(parse_grant("2."), Ok(2_000_000));
    // What is no digit behind the point does not count.
    assert_eq!(parse_grant("1.5x"), Ok(1_500_000));
    assert_eq!(parse_grant("  "), Err(GrantFault::Empty));
    assert_eq!(parse_grant("x"), Err(GrantFault::Invalid));
    assert_eq!(parse_grant("1,5"), Err(GrantFault::Invalid));
    assert_eq!(parse_grant("1.0000001"), Err(GrantFault::TooManyDecimals));
    assert_eq!(parse_grant("99999999999999"), Err(GrantFault::Overflow));
    assert_eq!(GrantFault::TooManyDecimals.message(), "amount has more than 6 decimals");
}

#[test]
fn credit_orders_are_read_in_pairs() {
    let order = parse_money_cmd(
        &argv(&["--to", &addr(), "--amount", "2", "--port", "9000", "--data-dir", "d"]),
        true,
    )
    .unwrap();
    assert_eq!(order.to.as_str(), addr());
    assert_eq!(order.amount, "2");
    assert_eq!(order.port, 9000);
    assert_eq!(order.data_dir.as_deref(), Some("d"));

    let fault = |parts: &[&str], node| parse_money_cmd(&argv(parts), node).err().unwrap();
    assert_eq!(fault(&["--amount", "2"], true), "--to kron1... is required");
    assert_eq!(fault(&["--to", &addr()], true), "--amount is required");
    assert_eq!(fault(&["--to"], true), "--to requires kron1...");
    assert_eq!(fault(&["--amount"], true), "--amount requires a value");
    assert_eq!(fault(&["--port", "x"], true), "invalid --port");
    assert_eq!(fault(&["--port", "1"], false), "unknown argument: --port");
    assert_eq!(fault(&["--data-dir"], true), "--data-dir requires a path");
}

#[test]
fn a_grant_is_paid_and_remembered() {
    let mut dag = KronDAG::with_genesis().unwrap();
    let supply = dag.supply();
    let mut faucet: Table<32, u64> = Table::new();
    faucet.insert([7; 32], 5);
    let snapshot = grant(&mut dag, faucet, [7; 32], 1_000);
    assert_eq!(dag.balance(&[7; 32]), 1_000);
    assert_eq!(dag.supply(), supply);
    assert_eq!(snapshot.faucet.get(&[7; 32]), Some(&1_005));
    let mut full: Table<32, u64> = Table::new();
    full.insert([7; 32], u64::MAX);
    let capped = grant(&mut dag, full, [7; 32], 1);
    assert_eq!(capped.faucet.get(&[7; 32]), Some(&u64::MAX));
}

#[test]
fn shares_need_balance_and_a_phone() {
    let me = keys(31);
    let mut dag = KronDAG::with_genesis().unwrap();
    assert!(matches!(mine_share(&me, &mut dag, [3; 32], &phone_host()), ShareOutcome::Short));
    dag.credit_account(*me.address().as_bytes(), SHARE_COST - 1);
    assert!(matches!(mine_share(&me, &mut dag, [3; 32], &phone_host()), ShareOutcome::Short));
    dag.credit_account(*me.address().as_bytes(), 1);
    match mine_share(&me, &mut dag, [3; 32], &HostObservation::x86_emulator()) {
        ShareOutcome::AttachFailed(e) => {
            assert_eq!(e, DagError::Shield(ShieldError::PcArchitecture))
        }
        other => panic!("{other:?}"),
    }
    assert_eq!(dag.vertex_count(), 1);
    match mine_share(&me, &mut dag, [3; 32], &phone_host()) {
        ShareOutcome::Attached(tx) => assert_eq!(tx.amount, 1),
        other => panic!("{other:?}"),
    }
    assert_eq!(dag.balance(&[3; 32]), 1);
}

#[test]
fn delivered_vertices_are_validated_once() {
    let me = keys(32);
    let mut dag = KronDAG::with_genesis().unwrap();
    dag.credit_account(*me.address().as_bytes(), 10_000);
    let g = dag.genesis_id();
    let tx = DagTransaction::user_transfer(g, g, &me, [4; 32], 10, 0).unwrap();
    assert_eq!(validate_delivered(&mut dag, tx.clone(), &phone_host()), Ok(true));
    assert_eq!(validate_delivered(&mut dag, tx, &phone_host()), Ok(false));
    let stale = DagTransaction::user_transfer(g, g, &me, [4; 32], 11, 0).unwrap();
    assert!(validate_delivered(&mut dag, stale, &phone_host()).is_err());
    assert_eq!(dag.vertex_count(), 2);
}

#[test]
fn identity_files_come_back() {
    let seed = [0x5A; 32];
    let text = identity_file_text("gateway", &seed);
    assert!(text.starts_with("# KRON gateway ML-DSA-44 seed (keep private)\n5a5a"));
    assert!(text.ends_with("5a\n"));
    assert_eq!(seed_from_text(&text, None).unwrap(), seed);
}

#[test]
fn node_lines_are_sorted_out() {
    let ask = |parts: &[&str]| node_command(&argv(parts));
    assert!(matches!(ask(&["--mine", "--help"]), Ok(NodeCommand::Help)));
    assert!(matches!(ask(&["credit", "-h"]), Ok(NodeCommand::Help)));
    assert_eq!(ask(&["send", "--mine"]).err().unwrap(), NODE_MINES_NOT);
    assert_eq!(ask(&["--port", "1", "--miner-ui"]).err().unwrap(), NODE_MINES_NOT);
    assert_eq!(ask(&["send"]).err().unwrap(), NODE_SEND_REFUSAL);
    match ask(&["credit", "--to", &addr(), "--amount", "3"]) {
        Ok(NodeCommand::Credit(order)) => assert_eq!(order.amount, "3"),
        other => panic!("{other:?}"),
    }
    assert_eq!(ask(&["credit"]).err().unwrap(), "--to kron1... is required");
    assert!(matches!(ask(&["--print-identity"]), Ok(NodeCommand::Identity(_))));
    match ask(&["--hub", "--port", "9001"]) {
        Ok(NodeCommand::Serve(cli)) => assert!(cli.public_hub && cli.port == 9001),
        other => panic!("{other:?}"),
    }
}

#[test]
fn phone_lines_are_sorted_out() {
    let task = |parts: &[&str]| match phone_command(&argv(parts)) {
        Ok(PhoneCommand::Run(t, _)) => t,
        other => panic!("{other:?}"),
    };
    assert_eq!(task(&[]), PhoneTask::Menu);
    assert_eq!(task(&["--generate-wallet", "--mine"]), PhoneTask::Generate);
    assert_eq!(task(&["--show-mnemonic", "--hub"]), PhoneTask::ShowMnemonic);
    assert_eq!(task(&["--hub", "--mine"]), PhoneTask::Hub);
    assert_eq!(task(&["--mine", &addr()]), PhoneTask::Mine);
    assert_eq!(task(&["2"]), PhoneTask::AskReward);
    assert_eq!(phone_command(&argv(&["--mine"])).err().unwrap(), REWARD_REQUIRED);
    assert!(matches!(phone_command(&argv(&["-h"])), Ok(PhoneCommand::Help)));
    match phone_command(&argv(&["credit", "--to", &addr(), "--amount", "1"])) {
        Ok(PhoneCommand::Credit(order)) => assert_eq!(order.data_dir, None),
        other => panic!("{other:?}"),
    }
}

#[test]
fn menu_lines_are_trimmed() {
    assert_eq!(menu_choice(" 1\n"), MenuChoice::Generate);
    assert_eq!(menu_choice("2"), MenuChoice::Mine);
    assert_eq!(menu_choice("Q\r\n"), MenuChoice::Quit);
    assert_eq!(menu_choice("quit"), MenuChoice::Unknown);
    assert_eq!(menu_choice(""), MenuChoice::Unknown);
}

#[test]
fn node_setups_follow_the_mode() {
    let phone = node_setup(NodeRunMode::PhoneHub, false);
    assert_eq!((phone.role, phone.class), (PeerRole::EdgeMiner, DeviceClass::LegacyMobile));
    assert!(phone.gossips && phone.beacons && phone.dials_default);
    let viewer = node_setup(NodeRunMode::Viewer, false);
    assert_eq!(viewer.class, DeviceClass::PersonalComputer);
    assert!(!viewer.gossips && !viewer.beacons && viewer.dials_default);
    let hub = node_setup(NodeRunMode::PublicHub, true);
    assert_eq!(hub.role, PeerRole::CoreValidator);
    assert!(hub.gossips && !hub.beacons && !hub.dials_default);
}

#[test]
fn a_node_dials_the_other_hubs_in_order() {
    let at = |ip: [u8; 4], port| PeerAddr::V4 { ip, port };
    let peers = vec![
        at([1, 2, 3, 4], 8000),
        at([127, 0, 0, 1], 8000),
        at([127, 0, 0, 1], 8001),
        at([9, 9, 9, 9], 8000),
        at([192, 168, 1, 5], 8000),
    ];
    let dialled = other_hubs(peers, 8000, Some([9, 9, 9, 9]), Some([192, 168, 1, 5]));
    assert_eq!(dialled, vec![at([1, 2, 3, 4], 8000), at([127, 0, 0, 1], 8001)]);
}

#[test]
fn programs_name_faults_in_their_own_words() {
    let node = |parts: &[&str]| node_command(&argv(parts)).err().unwrap();
    assert_eq!(
        node(&["--mine"]),
        "mining is phone-only. On Termux run kron-phone (node+miner). This PC is a read-only explorer."
    );
    assert_eq!(node(&["--mine=now"]), NODE_MINES_NOT);
    assert_eq!(node(&["--data-dir"]), "--data-dir requires a path");
    assert_eq!(node(&["--what"]), "unknown argument: --what");
    assert_eq!(node(&["--follow"]), "--follow/--bootstrap requires IP:PORT");
    assert_eq!(node(&["--port"]), "--port requires a value");
    assert_eq!(node(&["--port", "x"]), "invalid --port");
    let phone = |parts: &[&str]| phone_command(&argv(parts)).err().unwrap();
    assert_eq!(phone(&["--data-dir"]), "--data-dir requires a path");
    assert_eq!(phone(&["--what"]), "unknown argument: --what");
    assert_eq!(phone(&["--bootstrap"]), "--bootstrap requires IP:PORT");
}

#[test]
fn fresh_identities_fit_their_files() {
    let (keys, text) = fresh_identity("gateway");
    assert!(text.starts_with("# KRON gateway ML-DSA-44 seed (keep private)\n"));
    let seed = seed_from_text(&text, None).unwrap();
    let again = KronKeypair::from_lattice(LatticeKeyPair::from_seed(seed));
    assert_eq!(again.address().as_str(), keys.address().as_str());
    assert_ne!(fresh_identity("gateway").1, text);
}

#[test]
fn viewers_follow_and_hubs_dial() {
    assert_eq!(peer_link(NodeRunMode::Viewer, false), PeerLink::Follow);
    assert_eq!(peer_link(NodeRunMode::PublicHub, true), PeerLink::Follow);
    assert_eq!(peer_link(NodeRunMode::PublicHub, false), PeerLink::Dial);
    assert_eq!(peer_link(NodeRunMode::PhoneHub, false), PeerLink::Dial);
}
