use kron_mesh::crypto::hash::{sha256, HexFault};
use kron_mesh::crypto::lattice::LatticeKeyPair;
use kron_mesh::crypto::mobile_only::{HostArch, HostObservation, ShieldError};
use kron_mesh::dag::{AttachingDevice, DagTransaction, KronDAG};
use kron_mesh::economics::{FIXED_TRANSACTION_FEE, UNITS_PER_COIN};
use kron_mesh::kron::bech32::{
    decode_kron, encode_kron, normalize_bech32_input, Bech32Error, KRON1_LEN,
};
use kron_mesh::kron::bootstrap::{
    addressless_peer, default_bootstrap_addr, default_public_ipv4, format_ipv4,
    is_self_hub_target, parse_bootstrap_text, parse_peer_addr, resolve_bootstrap_sources,
    resolve_phone_bootstrap, unresolved_peer, PeerTarget,
};
use kron_mesh::kron::cli::{
    cargo_flag_misuse, decide_node_run_mode, is_cargo_build_flag, is_incomplete_kron1,
    is_phone_mine_cli_token, looks_like_kron1, parse_kron1_arg, parse_menu_reward_input,
    parse_node_cli, parse_phone_cli, public_ip_from, sanitize_address_input, sanitize_cli_value,
    split_eq_flag, take_cli_value, unknown_argument, NodeRunMode, PublicIp, CREDIT_FLAGS,
    NODE_FLAGS, NODE_MINE_REFUSAL, PHONE_FLAGS, PHONE_MINER_FLAGS, TERMUX_BUILD_CMD,
};
use kron_mesh::kron::miner::{miner_tick, run_active_miner_loop, MinerTickStatus};
use kron_mesh::kron::phrase::{
    address_file_text, generate_recovery_wallet, saved_address, saved_mnemonic, seed_file_text,
    seed_from_text, wallet_from_text, SeedFault,
};
use kron_mesh::kron::wallet::{
    derive_kron_address, generate_kron_wallet, generate_kron_wallet_from_rng,
    sign_transaction_natively, verify_transaction_signature, KronAddress, KronKeypair, KronWallet,
};
use kron_mesh::kron::{get_kron_metadata, KRON_ICON_DESCRIPTOR, NETWORK_NAME, SATOSHI_KRON, TICKER};
use kron_mesh::p2p::peer::PeerAddr;
use rand::rngs::StdRng;
use rand::SeedableRng;

fn sample_addr() -> String {
    KronAddress::from_hash([0xAB; 32]).into_string()
}

fn argv(parts: &[&str]) -> Vec<String> {
    parts.iter().map(|s| (*s).to_string()).collect()
}

fn phone_host() -> HostObservation {
    HostObservation::probe_this_process(
        HostArch::Aarch64,
        vec![100, 140, 90, 210, 130, 180, 70, 160],
        false,
    )
}

#[test]
fn encode_starts_with_kron1_and_roundtrips() {
    let payload = [0xABu8; 32];
    let encoded = encode_kron(&payload);
    assert!(encoded.starts_with("kron1"));
    assert_eq!(encoded, encoded.to_ascii_lowercase());
    assert_eq!(decode_kron(&encoded).unwrap(), payload);
    assert_eq!(decode_kron(&encoded.to_ascii_uppercase()).unwrap(), payload);
}

#[test]
fn rejects_bad_checksum_and_mixed_case() {
    let encoded = encode_kron(&[0x11; 32]);
    let mut broken = encoded.clone();
    let last = broken.pop().unwrap();
    broken.push(if last == 'q' { 'p' } else { 'q' });
    assert_eq!(decode_kron(&broken), Err(Bech32Error::InvalidChecksum));

    let mixed = format!("Kron{}", &encoded[4..]);
    assert_eq!(decode_kron(&mixed), Err(Bech32Error::MixedCase));
    assert_eq!(decode_kron("bc1qqqq"), Err(Bech32Error::InvalidHrp));
}

#[test]
fn bech32_faults_have_their_inputs() {
    assert_eq!(decode_kron(""), Err(Bech32Error::Empty));
    assert_eq!(decode_kron("kron"), Err(Bech32Error::MissingSeparator));
    assert_eq!(decode_kron("kron1bbbbbbbb"), Err(Bech32Error::InvalidCharset));
    assert!(Bech32Error::InvalidPadding.message().len() > 0);
    assert_eq!(encode_kron(&[0u8; 32]).len(), KRON1_LEN);
    assert_eq!(normalize_bech32_input(" kron1 ab\r\ncd\t"), "kron1abcd");
}

#[test]
fn parses_literal_ipv4() {
    let addr = parse_peer_addr("203.0.113.10:8000").unwrap();
    assert_eq!(addr, PeerTarget::V4 { ip: [203, 0, 113, 10], port: 8000 });
}

#[test]
fn placeholder_file_is_unset_not_an_error() {
    let got = parse_bootstrap_text("# put your VPS IPv4 here\nYOUR_VPS_IP:8000\n").unwrap();
    assert!(got.is_empty());
}

#[test]
fn bootstrap_list_parses_multiple_hosts() {
    let got = parse_bootstrap_text("144.91.105.244:8000\n# second hub later\n203.0.113.10:8000\n")
        .unwrap();
    assert_eq!(got.len(), 2);
    assert_eq!(got[0].text(), "144.91.105.244:8000");
    assert_eq!(got[1].text(), "203.0.113.10:8000");
    let csv = parse_bootstrap_text("144.91.105.244:8000,127.0.0.1:9000").unwrap();
    assert_eq!(csv.len(), 2);
}

#[test]
fn cli_wins_over_env_and_file() {
    let cli = parse_peer_addr("127.0.0.1:9000").unwrap();
    let got = resolve_bootstrap_sources(
        Some(cli.clone()),
        Some("203.0.113.10:8000"),
        Some("198.51.100.1:8000"),
        true,
    )
    .unwrap();
    assert_eq!(got[0], cli);
    assert_eq!(got.len(), 3);
}

#[test]
fn env_wins_over_file_and_default() {
    let got = resolve_bootstrap_sources(None, Some("127.0.0.1:8000"), Some("127.0.0.1:9000"), true)
        .unwrap();
    assert_eq!(got[0], PeerTarget::V4 { ip: [127, 0, 0, 1], port: 8000 });
    assert_eq!(got.len(), 2);
}

#[test]
fn default_bootstrap_is_paid_vps() {
    let got = resolve_bootstrap_sources(None, None, None, true).unwrap();
    assert_eq!(got, vec![default_bootstrap_addr()]);
    assert_eq!(got[0].text(), "144.91.105.244:8000");
    assert_eq!(default_public_ipv4(), [144, 91, 105, 244]);
    assert!(resolve_bootstrap_sources(None, None, None, false).unwrap().is_empty());
}

#[test]
fn hub_does_not_self_dial_advertised_vps() {
    let vps = [144, 91, 105, 244];
    let peer = PeerAddr::V4 { ip: vps, port: 8000 };
    assert!(default_bootstrap_addr().same_as(&PeerTarget::V4 { ip: vps, port: 8000 }));
    assert!(is_self_hub_target(peer, 8000, Some(vps), None));
    assert!(!is_self_hub_target(peer, 8001, Some(vps), None));
    let other = PeerAddr::V4 { ip: [203, 0, 113, 10], port: 8000 };
    assert!(!is_self_hub_target(other, 8000, Some(vps), None));
}

#[test]
fn comments_and_blank_lines_skipped() {
    let got = parse_bootstrap_text("\n# comment\n127.0.0.1:8001\n").unwrap();
    assert_eq!(got[0], PeerTarget::V4 { ip: [127, 0, 0, 1], port: 8001 });
}

#[test]
fn empty_text_is_unset() {
    assert!(parse_bootstrap_text("").unwrap().is_empty());
    assert!(parse_bootstrap_text("# only comments\n").unwrap().is_empty());
}

#[test]
fn names_are_left_for_the_resolver() {
    assert_eq!(
        parse_peer_addr("hub.example:8000").unwrap(),
        PeerTarget::Host(String::from("hub.example:8000"))
    );
    assert!(unresolved_peer("hub.example:8000").contains("hub.example:8000"));
    assert!(addressless_peer("hub.example:8000").contains("hub.example:8000"));
    assert_eq!(format_ipv4(&[10, 0, 0, 255]), "10.0.0.255");
    let lan_only = resolve_phone_bootstrap(None, true, Some("1.2.3.4:5"), None).unwrap();
    assert!(lan_only.is_empty());
    let given = parse_peer_addr("1.2.3.4:5").unwrap();
    let kept = resolve_phone_bootstrap(Some(given.clone()), false, None, None).unwrap();
    assert_eq!(kept[0], given);
}

#[test]
fn mine_reward_address_flag() {
    let a = sample_addr();
    let cli = parse_phone_cli(&argv(&["--mine", "--reward-address", &a])).unwrap();
    assert!(cli.mine);
    assert!(!cli.prompt_mine);
    assert_eq!(cli.reward.as_ref().unwrap().as_str(), a);
}

#[test]
fn mine_miner_address_flag() {
    let a = sample_addr();
    let cli = parse_phone_cli(&argv(&["--mine", "--miner-address", &a])).unwrap();
    assert!(cli.mine);
    assert_eq!(cli.reward.as_ref().unwrap().as_str(), a);
}

#[test]
fn mine_positional_address() {
    let a = sample_addr();
    let cli = parse_phone_cli(&argv(&["--mine", &a])).unwrap();
    assert!(cli.mine);
    assert_eq!(cli.reward.as_ref().unwrap().as_str(), a);
}

#[test]
fn bare_positional_address_implies_mine() {
    let a = sample_addr();
    let cli = parse_phone_cli(&argv(&[&a])).unwrap();
    assert!(cli.mine);
    assert_eq!(cli.reward.as_ref().unwrap().as_str(), a);
}

#[test]
fn mine_equals_and_quoted_forms() {
    let a = sample_addr();
    let eq = format!("--reward-address={a}");
    let cli = parse_phone_cli(&argv(&["--mine", &eq])).unwrap();
    assert_eq!(cli.reward.as_ref().unwrap().as_str(), a);

    let quoted = format!("\"{a}\"");
    let cli = parse_phone_cli(&argv(&["--mine", &quoted])).unwrap();
    assert_eq!(cli.reward.as_ref().unwrap().as_str(), a);
}

#[test]
fn menu_option_1_generates_without_mine_or_listen() {
    let cli = parse_phone_cli(&argv(&["1"])).unwrap();
    assert!(cli.generate);
    assert!(!cli.mine);
    assert!(!cli.hub_only);
    assert!(!cli.port_auto);
    assert_eq!(cli.port, 8000);
}

#[test]
fn port_auto_flag() {
    let cli = parse_phone_cli(&argv(&["--port-auto"])).unwrap();
    assert!(cli.port_auto);
    assert!(!cli.mine);
    assert!(!cli.generate);
}

#[test]
fn menu_option_2_without_address_prompts() {
    let cli = parse_phone_cli(&argv(&["2"])).unwrap();
    assert!(cli.mine);
    assert!(cli.prompt_mine);
    assert!(cli.reward.is_none());
}

#[test]
fn menu_option_2_with_positional_address() {
    let a = sample_addr();
    let cli = parse_phone_cli(&argv(&["2", &a])).unwrap();
    assert!(cli.mine);
    assert_eq!(cli.reward.as_ref().unwrap().as_str(), a);
}

#[test]
fn unknown_argument_lists_valid_flags() {
    let err = parse_phone_cli(&argv(&["--not-a-real-flag"])).unwrap_err();
    assert!(err.starts_with("unknown argument: --not-a-real-flag"));
    assert!(err.contains("valid flags:"));
    assert!(err.contains("--mine"));
    assert!(err.contains("--reward-address"));
    assert!(err.contains("--miner-address"));
}

#[test]
fn menu_input_trims_newlines_and_quotes() {
    let a = sample_addr();
    let parsed = parse_menu_reward_input(&format!("  \"{a}\"\r\n")).unwrap();
    assert_eq!(parsed.as_str(), a);
}

#[test]
fn menu_input_joins_termux_wrapped_address() {
    let a = sample_addr();
    let wrapped = format!("{}\n{}", &a[..32], &a[32..]);
    let parsed = parse_menu_reward_input(&wrapped).unwrap();
    assert_eq!(parsed.as_str(), a);
    let spaced = format!("{} {}", &a[..40], &a[40..]);
    let parsed = parse_menu_reward_input(&spaced).unwrap();
    assert_eq!(parsed.as_str(), a);
}

#[test]
fn truncated_reward_address_explains_checksum() {
    let a = sample_addr();
    let truncated = &a[..40];
    let err = parse_kron1_arg(truncated).unwrap_err();
    assert!(err.contains("40"), "{err}");
    assert!(err.contains("63"), "{err}");
    assert!(err.contains("one line"), "{err}");
    assert!(is_incomplete_kron1(truncated));
    assert!(!is_incomplete_kron1(&a));
}

#[test]
fn menu_input_accepts_flag_prefix_and_option_2() {
    let a = sample_addr();
    let parsed = parse_menu_reward_input(&format!("--reward-address {a}")).unwrap();
    assert_eq!(parsed.as_str(), a);
    let parsed = parse_menu_reward_input(&format!("2 {a}")).unwrap();
    assert_eq!(parsed.as_str(), a);
}

#[test]
fn quoted_flag_and_address_as_one_token() {
    let a = sample_addr();
    let combined = format!("--reward-address {a}");
    let cli = parse_phone_cli(&argv(&["--mine", &combined])).unwrap();
    assert_eq!(cli.reward.as_ref().unwrap().as_str(), a);
}

#[test]
fn phone_mine_tokens_detected() {
    let a = sample_addr();
    assert!(is_phone_mine_cli_token("--mine"));
    assert!(is_phone_mine_cli_token("--reward-address"));
    assert!(is_phone_mine_cli_token(&a));
    assert!(!is_phone_mine_cli_token("--follow"));
}

#[test]
fn cargo_flags_are_not_phone_args() {
    for arg in ["--bin", "bin", "--release", "-p", "cargo"] {
        let err = parse_phone_cli(&argv(&[arg])).unwrap_err();
        assert!(
            err.contains("that is a cargo flag"),
            "expected cargo-flag hint for {arg}, got {err}"
        );
        assert!(err.contains(TERMUX_BUILD_CMD), "{err}");
    }
    let err = parse_phone_cli(&argv(&["--bin", "kron-phone"])).unwrap_err();
    assert!(err.contains(TERMUX_BUILD_CMD), "{err}");
}

#[test]
fn no_discovery_flag() {
    let cli = parse_phone_cli(&argv(&["--no-discovery"])).unwrap();
    assert!(cli.no_discovery);
    assert!(!cli.mine);
}

#[test]
fn no_bootstrap_flag_is_lan_only() {
    let cli = parse_phone_cli(&argv(&["--no-bootstrap"])).unwrap();
    assert!(cli.no_bootstrap);
    assert!(cli.bootstrap.is_none());
    let a = sample_addr();
    let cli = parse_phone_cli(&argv(&[
        "--mine",
        "--reward-address",
        &a,
        "--bootstrap",
        "203.0.113.10:8000",
        "--no-bootstrap",
    ]))
    .unwrap();
    assert!(cli.no_bootstrap);
    assert_eq!(cli.bootstrap.unwrap().text(), "203.0.113.10:8000");
}

#[test]
fn node_hub_flag_is_public_relay_not_mine() {
    let cli = parse_node_cli(&argv(&["--hub", "--port", "8000", "--explorer-port", "8080"]))
        .unwrap();
    assert!(cli.public_hub);
    assert!(!cli.read_only);
    assert_eq!(cli.port, 8000);
    assert_eq!(cli.explorer_port, 8080);
    let err = parse_node_cli(&argv(&["--mine"])).unwrap_err();
    assert!(err.contains("phone-only"), "{err}");
}

#[test]
fn node_public_ip_flag() {
    let cli = parse_node_cli(&argv(&["--hub", "--public-ip", "144.91.105.244"])).unwrap();
    assert_eq!(cli.public_ip, Some(PublicIp::V4([144, 91, 105, 244])));
    let cli = parse_node_cli(&argv(&["--public-ip=203.0.113.10:8000"])).unwrap();
    assert_eq!(cli.public_ip, Some(PublicIp::V4([203, 0, 113, 10])));
    let err = parse_node_cli(&argv(&["--public-ip", "0.0.0.0"])).unwrap_err();
    assert!(err.contains("0.0.0.0"), "{err}");
}

#[test]
fn x86_listen_without_follow_is_hub() {
    assert_eq!(decide_node_run_mode(false, false, false, true), NodeRunMode::PublicHub);
    assert_eq!(decide_node_run_mode(true, false, false, true), NodeRunMode::PublicHub);
    assert_eq!(decide_node_run_mode(true, false, true, true), NodeRunMode::PublicHub);
}

#[test]
fn x86_follow_or_read_only_is_viewer() {
    assert_eq!(decide_node_run_mode(false, false, true, true), NodeRunMode::Viewer);
    assert_eq!(decide_node_run_mode(false, true, false, true), NodeRunMode::Viewer);
}

#[test]
fn arm_without_hub_flag_is_phone_hub() {
    assert_eq!(decide_node_run_mode(false, false, false, false), NodeRunMode::PhoneHub);
    assert_eq!(decide_node_run_mode(true, false, false, false), NodeRunMode::PublicHub);
    assert_eq!(decide_node_run_mode(false, true, false, false), NodeRunMode::Viewer);
}

#[test]
fn no_mine_does_not_force_viewer() {
    let cli = parse_node_cli(&argv(&["--no-mine"])).unwrap();
    assert!(!cli.read_only);
    assert!(!cli.public_hub);
    assert_eq!(
        decide_node_run_mode(cli.public_hub, cli.read_only, cli.follow.is_some(), true),
        NodeRunMode::PublicHub
    );
}

#[test]
fn cli_helpers_read_one_token() {
    assert_eq!(sanitize_cli_value(" \"x y\" "), "x y");
    assert_eq!(split_eq_flag("--port=9"), (String::from("--port"), Some(String::from("9"))));
    assert_eq!(split_eq_flag("--port"), (String::from("--port"), None));
    assert!(looks_like_kron1(&sample_addr()));
    assert!(!looks_like_kron1("bc1"));
    assert_eq!(sanitize_address_input(&format!("'{}'", sample_addr())), sample_addr());
    assert!(is_cargo_build_flag("--release"));
    assert!(!is_cargo_build_flag("--mine"));
    assert!(cargo_flag_misuse("--bin").contains(TERMUX_BUILD_CMD));
    assert!(unknown_argument("--x", &CREDIT_FLAGS).contains("--data-dir"));
    assert_eq!(PHONE_FLAGS.len(), 19);
    assert_eq!(NODE_FLAGS.len(), 15);
    assert_eq!(PHONE_MINER_FLAGS.len(), 9);
    assert!(NODE_MINE_REFUSAL.contains("phone-only"));
    let raw = argv(&["--port", "7000"]);
    let mut i = 0usize;
    assert_eq!(take_cli_value(None, &raw, &mut i, "--port").unwrap(), "7000");
    assert_eq!(i, 1);
    assert!(take_cli_value(None, &raw, &mut i, "--port").is_err());
    let mut j = 0usize;
    assert_eq!(take_cli_value(Some("5"), &raw, &mut j, "--port").unwrap(), "5");
    assert_eq!(j, 0);
    let here = PeerAddr::V4 { ip: [9, 9, 9, 9], port: 1 };
    assert_eq!(public_ip_from("h", Some(here)), Ok([9, 9, 9, 9]));
    assert!(public_ip_from("h", None).is_err());
    assert!(parse_phone_cli(&argv(&["--port", "70000"])).is_err());
}

#[test]
fn icon_hash_is_stable_and_decimals_match_scale() {
    let a = get_kron_metadata();
    let b = get_kron_metadata();
    assert_eq!(a.icon_hash, b.icon_hash);
    assert_eq!(a.decimals, 6);
    assert_eq!(SATOSHI_KRON, UNITS_PER_COIN);
    assert_eq!(a.visual.accent, "electric neon blue");
}

#[test]
fn icon_hash_covers_the_descriptor() {
    assert_eq!(get_kron_metadata().icon_hash, sha256(KRON_ICON_DESCRIPTOR.as_bytes()));
    assert_eq!(NETWORK_NAME, "KRON Network");
    assert_eq!(TICKER, "KRON");
}

#[test]
fn miner_loop_requires_explicit_mode() {
    let mut rng = StdRng::seed_from_u64(0x4D49_4E45);
    let wallet = KronWallet::generate_from_rng(&mut rng);
    let mut dag = KronDAG::with_genesis().unwrap();
    let dest = *wallet.address().as_bytes();
    assert_eq!(
        run_active_miner_loop(&wallet, &mut dag, dest, 1, &phone_host()).unwrap_err(),
        ShieldError::MinerModeRequired
    );
}

#[test]
fn miner_loop_refuses_x86_host() {
    let mut rng = StdRng::seed_from_u64(0x4D49_4E46);
    let mut wallet = KronWallet::generate_from_rng(&mut rng);
    wallet.enable_miner_mode();
    let mut dag = KronDAG::with_genesis().unwrap();
    dag.credit_account(*wallet.address().as_bytes(), 1_000_000);
    let dest = *wallet.address().as_bytes();
    let host = HostObservation::x86_emulator();
    let err = run_active_miner_loop(&wallet, &mut dag, dest, 1, &host).unwrap_err();
    assert!(err.is_critical());
    assert_eq!(err, ShieldError::PcArchitecture);
    assert_eq!(dag.dag_tx_count, 0);
}

#[test]
fn miner_tick_starts_on_empty_dag_without_hanging() {
    let mut rng = StdRng::seed_from_u64(0x5449_434B);
    let wallet = generate_kron_wallet_from_rng(&mut rng);
    let mut dag = KronDAG::new();
    let dest = *wallet.address().as_bytes();
    let out =
        miner_tick(&wallet, &mut dag, dest, AttachingDevice::LocalGraph, &phone_host()).unwrap();
    assert!(out.genesis_created);
    assert!(out.faucet_credited > 0);
    assert!(out.attached);
    assert_eq!(out.status, MinerTickStatus::Attached);
    assert!(dag.vertex_count() >= 2);
}

#[test]
fn miner_works_on_a_phone() {
    let mut rng = StdRng::seed_from_u64(0x4D49_4E47);
    let mut wallet = KronWallet::generate_from_rng(&mut rng);
    wallet.enable_miner_mode();
    let mut dag = KronDAG::with_genesis().unwrap();
    dag.credit_account(*wallet.address().as_bytes(), 1_000_000);
    let out = run_active_miner_loop(&wallet, &mut dag, [5u8; 32], 2, &phone_host()).unwrap();
    assert_eq!(out.attached, 2);
    assert_eq!(dag.dag_tx_count, 2);
    assert_eq!(dag.balance(&[5u8; 32]), 2);
    assert!(!MinerTickStatus::WaitingForBalance.as_str().is_empty());

    let keys = generate_kron_wallet_from_rng(&mut rng);
    dag.credit_account(*keys.address().as_bytes(), 1_000_000);
    let tick = miner_tick(
        &keys,
        &mut dag,
        [5u8; 32],
        AttachingDevice::Miner,
        &HostObservation::x86_emulator(),
    )
    .unwrap();
    assert!(!tick.attached);
    assert_eq!(tick.status, MinerTickStatus::AttachFailed);
    assert!(tick.error.is_some());
}

#[test]
fn generated_phrase_is_24_words_and_kron1() {
    let (wallet, phrase, entropy) = generate_recovery_wallet();
    assert_eq!(phrase.split_whitespace().count(), 24);
    assert!(wallet.address().as_str().starts_with("kron1"));
    let restored = KronKeypair::from_lattice(LatticeKeyPair::from_seed(entropy));
    assert_eq!(restored.address().as_str(), wallet.address().as_str());
}

#[test]
fn seed_file_restores_the_wallet() {
    let (wallet, phrase, entropy) = generate_recovery_wallet();
    for pass in [None, Some("correct horse")] {
        let text = seed_file_text(&entropy, pass);
        assert!(!text.contains(&phrase));
        assert_eq!(seed_from_text(&text, pass), Ok(entropy));
        let loaded = wallet_from_text(&text, pass).ok().unwrap();
        assert_eq!(loaded.address().as_str(), wallet.address().as_str());
    }
    let masked = seed_file_text(&entropy, Some("a"));
    assert_ne!(seed_from_text(&masked, Some("b")), Ok(entropy));
    assert_eq!(seed_from_text("", None), Err(SeedFault::Length));
    assert_eq!(seed_from_text("abc", None), Err(SeedFault::Hex(HexFault::OddLength)));
    let line = address_file_text(wallet.address().as_str());
    assert_eq!(saved_address(&line), Some(wallet.address().into_string()));
    assert_eq!(saved_address("  \n"), None);
    assert_eq!(saved_mnemonic(" a b \n"), "a b");
}

#[test]
fn test_kron_wallet_lifecycle() {
    let mut rng = StdRng::seed_from_u64(0x4B524F4E);
    let wallet = generate_kron_wallet_from_rng(&mut rng);
    let dest = generate_kron_wallet_from_rng(&mut rng);

    let encoded = derive_kron_address(wallet.public_key());
    assert!(encoded.starts_with("kron1"), "address must be kron1…: {encoded}");
    let parsed = KronAddress::parse(&encoded).expect("round-trip parse");
    assert_eq!(parsed.as_bytes(), &wallet.public_key().address());
    assert_eq!(parsed.as_str(), encoded.as_str());
    let pasted = format!("\r\n{encoded} \n");
    assert_eq!(KronAddress::parse(&pasted).expect("trim paste").as_str(), encoded.as_str());

    assert_eq!(FIXED_TRANSACTION_FEE, 1_000);

    let genesis = KronDAG::with_genesis().unwrap();
    let (p1, p2) = (genesis.genesis_id(), genesis.genesis_id());
    let mut tx = DagTransaction::user_transfer(
        p1,
        p2,
        &wallet,
        *dest.address().as_bytes(),
        50_000,
        0,
    )
    .expect("unsigned skeleton");

    let native_sig =
        sign_transaction_natively(&tx.unsigned_bytes(), &wallet.private_key()).unwrap();
    tx.signature = native_sig;
    assert!(verify_transaction_signature(&tx));

    let mut tampered = tx.clone();
    tampered.amount ^= 1;
    tampered.refresh_id();
    assert!(!verify_transaction_signature(&tampered));

    let wrong = generate_kron_wallet_from_rng(&mut rng);
    let mut wrong_key = tx.clone();
    wrong_key.signature =
        sign_transaction_natively(&tx.unsigned_bytes(), &wrong.private_key()).unwrap();
    assert!(!verify_transaction_signature(&wrong_key));
}

#[test]
fn test_kron_metadata_brand() {
    let meta = get_kron_metadata();
    assert_eq!(meta.ticker, "KRON");
    assert_eq!(meta.name, "KRON Network");
}

#[test]
fn generate_derive_parse_same_bytes() {
    let wallet = generate_kron_wallet();
    let encoded = derive_kron_address(wallet.public_key());
    assert!(encoded.starts_with("kron1"));
    assert_eq!(encoded.len(), KRON1_LEN);
    let parsed = KronAddress::parse(&encoded).expect("derive → parse");
    assert_eq!(parsed.as_bytes(), &wallet.public_key().address());
    assert_eq!(parsed.as_str(), encoded);
}

#[test]
fn whitespace_wrapped_paste_still_parses() {
    let wallet = generate_kron_wallet();
    let encoded = derive_kron_address(wallet.public_key());
    let mut wrapped = String::new();
    for (i, ch) in encoded.chars().enumerate() {
        if i > 0 && i % 16 == 0 {
            wrapped.push_str(" \n");
        }
        wrapped.push(ch);
    }
    let parsed = KronAddress::parse(&wrapped).expect("wrapped Termux paste");
    assert_eq!(parsed.as_bytes(), &wallet.public_key().address());
    assert_eq!(parsed.as_str(), encoded);
}

#[test]
fn truncated_address_fails_clearly() {
    let wallet = generate_kron_wallet();
    let encoded = derive_kron_address(wallet.public_key());
    let truncated = &encoded[..40];
    let err = KronAddress::parse(truncated).expect_err("truncated must fail");
    assert_eq!(err, Bech32Error::InvalidChecksum);
    let msg = err.message();
    assert!(msg.contains("63"), "{msg}");
    assert!(msg.contains("one line"), "{msg}");
    let cli = err.cli_message(truncated);
    assert!(cli.contains("40"), "{cli}");
    assert!(cli.contains("63"), "{cli}");
    assert!(cli.contains("one line"), "{cli}");
}

#[test]
fn kron_wallet_is_relay_by_default() {
    let mut rng = StdRng::seed_from_u64(0x5741_4C54);
    let mut w = KronWallet::generate_from_rng(&mut rng);
    assert!(w.address().as_str().starts_with("kron1"));
    assert!(!w.miner_mode());
    w.enable_miner_mode();
    assert!(w.miner_mode());
}

#[test]
fn addresses_have_two_spellings() {
    let payload = [0x3Cu8; 32];
    let text = encode_kron(&payload);
    assert_eq!(decode_kron(&text), Ok(payload));
    assert_eq!(decode_kron(&text.to_uppercase()), Ok(payload));
    let mut half = text.to_uppercase();
    half.replace_range(0..4, "kron");
    assert_eq!(decode_kron(&half), Err(Bech32Error::MixedCase));
    assert_ne!(encode_kron(&[0x3Du8; 32]), text);
}

#[test]
fn one_wrong_character_is_always_caught() {
    let text = encode_kron(&[0x5Du8; 32]);
    for i in 5..KRON1_LEN {
        for c in "qpzry9x8gf2tvdw0s3jn54khce6mua7l".chars() {
            let mut other: Vec<char> = text.chars().collect();
            if other[i] != c {
                other[i] = c;
                let typed: String = other.into_iter().collect();
                assert_eq!(decode_kron(&typed), Err(Bech32Error::InvalidChecksum));
            }
        }
    }
}

#[test]
fn a_burst_without_balance_only_works() {
    let mut rng = StdRng::seed_from_u64(0x4D49_4E48);
    let mut wallet = KronWallet::generate_from_rng(&mut rng);
    wallet.enable_miner_mode();
    let mut dag = KronDAG::with_genesis().unwrap();
    let out = run_active_miner_loop(&wallet, &mut dag, [5u8; 32], 2, &phone_host()).unwrap();
    assert_eq!((out.attached, out.work_units), (0, 2));
    dag.credit_account(*wallet.address().as_bytes(), 1_000_000);
    let none = run_active_miner_loop(&wallet, &mut dag, [5u8; 32], 0, &phone_host()).unwrap();
    assert_eq!((none.attached, none.work_units), (0, 0));
    assert_eq!(dag.vertex_count(), 1);
}

#[test]
fn all_ways_to_ask_for_mining_mean_the_same() {
    let a = sample_addr();
    let quoted = format!("\"{a}\"");
    let forms = vec![
        argv(&["--mine", "--reward-address", &a]),
        argv(&["--mine", "--miner-address", &a]),
        argv(&["--mine", &a]),
        argv(&[&a]),
        argv(&[&quoted]),
        argv(&["--mine", "--reward-address", &quoted]),
        argv(&[&format!("--mine={a}")]),
        argv(&["--mine", &format!("--reward-address={quoted}")]),
        argv(&[&format!("--miner-address={a}")]),
    ];
    for form in forms {
        let cli = parse_phone_cli(&form).unwrap();
        assert!(cli.mine && !cli.prompt_mine && !cli.generate && !cli.hub_only, "{form:?}");
        assert_eq!(cli.reward.unwrap().as_str(), a);
        assert_eq!((cli.port, cli.explorer_port), (8000, Some(8080)));
        assert!(cli.bootstrap.is_none());
        assert_eq!(cli.data_dir, "kron-phone");
    }
}
