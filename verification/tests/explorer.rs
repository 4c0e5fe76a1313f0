use kron_mesh::crypto::hash::hex_hash;
use kron_mesh::dag::KronDAG;
use kron_mesh::economics::{
    dag_miner_share_of, dag_relay_total_of, get_current_tx_subsidy, txs_remaining_until_halving,
    FIXED_TRANSACTION_FEE, HARD_CAP, INITIAL_TX_SUBSIDY, TX_HALVING_INTERVAL,
};
use kron_mesh::explorer::http::{
    dispatch, handle_client, json_str, metadata_json, percent_decode, request_path, stats_json,
    tx_json, wallet_json, write_response,
};
use kron_mesh::explorer::seed::{index_demo, DEMO_AMOUNT, DEMO_CREDIT};
use kron_mesh::explorer::{
    get_kron_asset_metadata, index_vertex, parse_explorer_address, ExplorerApi, MeshState,
};
use kron_mesh::kron::{derive_kron_address, generate_kron_wallet_from_rng, KronKeypair};
use kron_mesh::kron_wallet::explorer::encode_path;
use rand::rngs::StdRng;
use rand::SeedableRng;

#[test]
fn fee_helpers_are_80_20() {
    assert_eq!(dag_miner_share_of(FIXED_TRANSACTION_FEE), 800);
    assert_eq!(dag_relay_total_of(FIXED_TRANSACTION_FEE), 200);
}

#[test]
fn test_kron_explorer_flow() {
    let mut rng = StdRng::seed_from_u64(0xE2_91_03E7);
    let alice = generate_kron_wallet_from_rng(&mut rng);
    let bob = generate_kron_wallet_from_rng(&mut rng);
    let alice_kron1 = derive_kron_address(alice.public_key());
    let bob_kron1 = derive_kron_address(bob.public_key());
    assert!(alice_kron1.starts_with("kron1"));

    let mut dag = KronDAG::with_genesis().unwrap();
    dag.credit_account(*alice.address().as_bytes(), 1_000_000);
    let amount = 50_000u64;
    let tx = dag
        .compose_and_sign_with_rng(&alice, *bob.address().as_bytes(), amount, &mut rng)
        .expect("compose");
    dag.attach_and_verify_tx(tx.clone()).expect("attach");

    let mut api = ExplorerApi::new();
    assert!(api.seed_demo_if_empty());
    assert!(!api.seed_demo_if_empty());

    let mut api = ExplorerApi::new();
    api.sync_from_dag(&dag);
    let by_hash = api.get_transaction_by_hash(tx.id).expect("tx indexed by hash");
    assert_eq!(by_hash.from, alice_kron1);
    assert_eq!(by_hash.to, bob_kron1);
    assert_eq!(by_hash.amount, amount);
    assert_eq!(by_hash.fee, FIXED_TRANSACTION_FEE);
    assert_eq!(by_hash.parent_1, tx.parent_1);
    let pool = INITIAL_TX_SUBSIDY + FIXED_TRANSACTION_FEE;
    assert_eq!(by_hash.fee_split.miner_amount, dag_miner_share_of(pool));
    assert_eq!(by_hash.fee_split.relay_amount, dag_relay_total_of(pool));

    let alice_hist = api.get_wallet_history(&alice_kron1);
    assert_eq!(alice_hist, vec![by_hash.clone()]);
    assert_eq!(
        api.get_wallet_history(&hex::encode(alice.public_key().address())),
        alice_hist
    );

    let stats = api.get_network_stats();
    assert_eq!(stats.dag_tx_count, 1);
    assert!(stats.vertex_count >= 2);
    assert_eq!(stats.circulating_supply, get_current_tx_subsidy(0, 0));
    assert_eq!(stats.hard_cap, HARD_CAP);
    assert_eq!(stats.txs_remaining_until_halving, txs_remaining_until_halving(1));
    assert_eq!(TX_HALVING_INTERVAL, 126_144_000);

    let meta = api.get_kron_asset_metadata();
    assert_eq!(meta.ticker, "KRON");
    assert_eq!(meta.name, "KRON Network");
    assert_eq!(get_kron_asset_metadata().ticker, "KRON");
}

fn indexed() -> (ExplorerApi, KronDAG, KronKeypair, KronKeypair) {
    let mut rng = StdRng::seed_from_u64(0xE2_0002);
    let alice = generate_kron_wallet_from_rng(&mut rng);
    let bob = generate_kron_wallet_from_rng(&mut rng);
    let mut dag = KronDAG::with_genesis().unwrap();
    dag.credit_account(*alice.address().as_bytes(), 1_000_000);
    let tx = dag.compose_and_sign(&alice, *bob.address().as_bytes(), 50_000).unwrap();
    dag.attach_and_verify_tx(tx).unwrap();
    let mut api = ExplorerApi::new();
    api.sync_from_dag(&dag);
    (api, dag, alice, bob)
}

#[test]
fn wallets_are_found_by_either_spelling() {
    let (api, dag, alice, bob) = indexed();
    let kron1 = bob.address().into_string();
    let hexed = hex::encode(bob.public_key().address());
    assert_eq!(parse_explorer_address(&kron1), Some(*bob.address().as_bytes()));
    assert_eq!(parse_explorer_address(&format!("0x{hexed}")), Some(*bob.address().as_bytes()));
    assert_eq!(parse_explorer_address("nonsense"), None);
    assert_eq!(api.get_wallet_balance(&kron1), 50_000);
    assert_eq!(api.get_wallet_balance(&hexed), 50_000);
    assert_eq!(api.get_wallet_balance("nonsense"), 0);
    let snap = api.get_wallet_snapshot(&alice.address().into_string());
    assert_eq!(snap.nonce, 1);
    assert_eq!(snap.txs.len(), 1);
    let (nonce, p1, p2, balance) = api.compose_hint(&alice.address().into_string());
    assert_eq!(nonce, 1);
    assert_eq!(balance, dag.balance(alice.address().as_bytes()));
    assert_eq!((p1, p2), (dag.tip_list()[0], dag.genesis_id()));
    assert_eq!(api.tips(), dag.tip_list());
    assert_eq!(api.recent_transactions(10).len(), 2);
    assert_eq!(api.recent_transactions(1)[0].hash, dag.tip_list()[0]);
    assert_eq!(api.recent_vertices(10).len(), 2);
    assert_eq!(api.recent_transactions(0).len(), 0);
    let state = MeshState::from_dag(&dag);
    assert_eq!(state.circulating_supply, INITIAL_TX_SUBSIDY);
    assert_eq!(state.genesis, dag.genesis_id());
}

#[test]
fn new_vertices_are_indexed_as_they_come() {
    let (mut api, mut dag, alice, bob) = indexed();
    let tx = dag.compose_and_sign(&alice, *bob.address().as_bytes(), 7).unwrap();
    dag.attach_and_verify_tx(tx.clone()).unwrap();
    let row = api.index_new_vertex(&dag, &tx);
    assert_eq!(row.amount, 7);
    assert!(row.is_tip);
    assert_eq!(api.get_transaction_by_hash(tx.id), Some(row));
    assert_eq!(index_vertex(&dag, &tx, 2).dag_tx_index, 2);
    assert_eq!(api.get_network_stats().dag_tx_count, 2);
}

#[test]
fn json_texts_are_escaped() {
    assert_eq!(json_str("a\"b\\c\n"), "\"a\\\"b\\\\c\\n\"");
    let (api, dag, alice, _) = indexed();
    let tx = api.get_transaction_by_hash(dag.tip_list()[0]).unwrap();
    let text = tx_json(&tx);
    assert!(text.starts_with('{') && text.ends_with('}'));
    assert!(text.contains(&hex_hash(&tx.hash)));
    assert!(text.contains("50000"));
    let stats = stats_json(&api.get_network_stats());
    assert!(stats.contains("\"hard_cap\""));
    assert!(metadata_json().contains("\"KRON\""));
    let wallet = wallet_json(&api.get_wallet_snapshot(&alice.address().into_string()));
    assert!(wallet.contains(alice.address().as_str()));
}

#[test]
fn requests_are_answered() {
    let (api, dag, alice, _) = indexed();
    let ask = |path: &str| {
        let request = format!("GET {path} HTTP/1.1\r\nHost: x\r\n\r\n");
        String::from_utf8(handle_client(&api, "<html>page</html>", request.as_bytes())).unwrap()
    };
    assert!(ask("/").contains("<html>page</html>"));
    assert!(ask("/").starts_with("HTTP/1.1 200"));
    assert!(ask("/api/stats").contains("\"dag_tx_count\":1"));
    assert!(ask("/nowhere").starts_with("HTTP/1.1 404"));
    let hash = hex_hash(&dag.tip_list()[0]);
    assert!(ask(&format!("/api/tx/{hash}")).contains(&hash));
    let wallet = ask(&format!("/api/wallet/{}", encode_path(alice.address().as_str())));
    assert!(wallet.contains(alice.address().as_str()));
    assert_eq!(request_path("GET /a?b=1 HTTP/1.1\r\n").is_some(), true);
    let path: Vec<char> = "/api/metadata".chars().collect();
    assert!(String::from_utf8(dispatch(&api, "", &path)).unwrap().contains("KRON Network"));
    let body = write_response(200, "text/plain", b"ok");
    assert!(String::from_utf8(body).unwrap().ends_with("\r\n\r\nok"));
}

#[test]
fn percent_coding_is_undone() {
    assert_eq!(percent_decode("a%20b%C3%B6"), "a bö");
    assert_eq!(percent_decode("100%"), "100%");
    for s in ["", "kron1abc", "a b/c?d=e&f", "öäü€", "%41"] {
        assert_eq!(percent_decode(&encode_path(s)), s);
    }
}

#[test]
fn the_engine_behind_an_api_can_be_refilled() {
    let dag = KronDAG::with_genesis().unwrap();
    let mut api = ExplorerApi::new();
    api.engine_mut().sync_from_dag(&dag);
    assert_eq!(api.get_network_stats().vertex_count, 1);
    assert_eq!(api.recent_vertices(10).len(), 1);
    assert_eq!(api.engine().tips(), vec![dag.genesis_id()]);
}

#[test]
fn a_demo_is_shown_once_its_transfer_attaches() {
    let mut rng = StdRng::seed_from_u64(0xDE40);
    let alice = generate_kron_wallet_from_rng(&mut rng);
    let mut dag = KronDAG::with_genesis().unwrap();
    let tx = dag.compose_and_sign(&alice, [6u8; 32], DEMO_AMOUNT).unwrap();
    let mut api = ExplorerApi::new();
    assert!(!index_demo(&mut api, dag.clone(), tx.clone()), "nothing to pay with");
    assert_eq!(api.get_network_stats().vertex_count, 0);
    dag.credit_account(*alice.address().as_bytes(), DEMO_CREDIT);
    assert!(index_demo(&mut api, dag.clone(), tx.clone()));
    assert_eq!(api.get_network_stats().vertex_count, 2);
    assert_eq!(api.get_network_stats().dag_tx_count, 1);
    assert!(!index_demo(&mut api, dag, tx), "the index is not empty any more");
}
