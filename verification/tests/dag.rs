use kron_mesh::crypto::mobile_only::{HostArch, HostObservation, ShieldError};
use kron_mesh::dag::engine::AttachingDevice;
use kron_mesh::dag::minting::{
    apply_dag_minting_as_miner, apply_dag_minting_from_sender, apply_dag_minting_natively,
};
use kron_mesh::dag::ordering::{topo_order_incoming, OrderFault};
use kron_mesh::dag::reconciliation::{compute_dag_diff, SyncInventory, MAX_INVENTORY_HASHES};
use kron_mesh::dag::sync::{
    exchange_and_merge, identities_proven, mesh_handshake, relay_share, MeshPhone, MeshSyncEngine, OfflineLink,
    RelayLedger, SyncError, HANDSHAKE_RETRIES,
};
use kron_mesh::dag::tx::{
    relay_proof_message, DagTransaction, RelayProof, GENESIS_SEED, NULL_PARENT,
};
use kron_mesh::dag::wallet_relay::{
    relay_intercept_and_sign, relay_wallet_id, start_wallet_relay_mode, start_wallet_relay_service,
    wallet_relay_step, MeshInterface, RelayMempool, WalletRelaySession,
    RELAY_DUTY_SLEEP_SECS_DEFAULT, RELAY_DUTY_SLEEP_SECS_MAX, RELAY_DUTY_SLEEP_SECS_MIN,
    RELAY_MEMPOOL_CAP,
};
use kron_mesh::dag::{DagError, KronDAG};
use kron_mesh::economics::{
    coins, dag_miner_share_of, dag_relay_total_of, get_current_tx_subsidy, mesh_relay_split,
    relay_share_of, remainder_after_relay, saturating_product, total_supply,
    txs_remaining_until_halving, EconomicError, DAG_MINER_SHARE_PERCENT, FIXED_FEE,
    FIXED_TRANSACTION_FEE, HARD_CAP, INITIAL_TX_SUBSIDY, PREMINE, RELAY_SHARE_PERCENT,
    SATOSHI_KRON, TX_HALVING_INTERVAL, UNITS_PER_COIN,
};
use kron_mesh::kron::{generate_kron_wallet_from_rng, KronKeypair};
use kron_mesh::table::Table;
use kron_mesh::LatticeKeyPair;
use rand::rngs::StdRng;
use rand::SeedableRng;

const PHONE_CREDIT: u64 = 1_000_000;
const SEND_AMOUNT: u64 = 10_000;

fn wallets(seed: u64) -> (KronKeypair, KronKeypair, KronKeypair) {
    let mut rng = StdRng::seed_from_u64(seed);
    (
        generate_kron_wallet_from_rng(&mut rng),
        generate_kron_wallet_from_rng(&mut rng),
        generate_kron_wallet_from_rng(&mut rng),
    )
}

fn genesis_dag() -> KronDAG {
    KronDAG::with_genesis().unwrap()
}

fn id_of(w: &KronKeypair) -> [u8; 32] {
    *w.address().as_bytes()
}

fn phone_host() -> HostObservation {
    HostObservation::probe_this_process(
        HostArch::Aarch64,
        vec![100, 140, 90, 210, 130, 180, 70, 160],
        false,
    )
}

#[test]
fn first_confirmed_tx_mints_initial_subsidy() {
    assert_eq!(get_current_tx_subsidy(0, 0), INITIAL_TX_SUBSIDY);
    let (alice, bob, _) = wallets(0xDA6_0001);
    let mut dag = genesis_dag();
    dag.credit_account(id_of(&alice), PHONE_CREDIT);
    let tx = dag.compose_and_sign(&alice, id_of(&bob), SEND_AMOUNT).unwrap();
    dag.attach_and_verify_tx(tx).unwrap();

    let pool = INITIAL_TX_SUBSIDY + FIXED_TRANSACTION_FEE;
    assert_eq!(dag.dag_tx_count, 1);
    assert_eq!(dag.current_supply, INITIAL_TX_SUBSIDY);
    assert_eq!(
        dag.balance(alice.address().as_bytes()),
        PHONE_CREDIT - SEND_AMOUNT - FIXED_TRANSACTION_FEE + pool
    );
    assert_eq!(dag.balance(bob.address().as_bytes()), SEND_AMOUNT);
}

#[test]
fn after_halving_interval_subsidy_shifts_right() {
    assert_eq!(get_current_tx_subsidy(TX_HALVING_INTERVAL, 0), INITIAL_TX_SUBSIDY >> 1);
    assert_eq!(get_current_tx_subsidy(TX_HALVING_INTERVAL, 0), 50_000);

    let (alice, bob, relay) = wallets(0xDA6_0002);
    let mut dag = genesis_dag();
    dag.dag_tx_count = TX_HALVING_INTERVAL;
    dag.credit_account(id_of(&alice), PHONE_CREDIT);
    let mut tx = dag.compose_and_sign(&alice, id_of(&bob), SEND_AMOUNT).unwrap();
    tx = relay_intercept_and_sign(tx, &relay).unwrap();
    dag.attach_and_verify_tx(tx).unwrap();

    let subsidy = 50_000u64;
    let pool = subsidy + FIXED_TRANSACTION_FEE;
    let miner_paid = dag_miner_share_of(pool);
    let relay_paid = dag_relay_total_of(pool);
    assert_eq!(miner_paid, 40_800);
    assert_eq!(relay_paid, 10_200);
    assert_eq!(dag.current_supply, subsidy);
    assert_eq!(dag.dag_tx_count, TX_HALVING_INTERVAL + 1);
    assert_eq!(
        dag.balance(alice.address().as_bytes()),
        PHONE_CREDIT - SEND_AMOUNT - FIXED_TRANSACTION_FEE + miner_paid
    );
    assert_eq!(dag.balance(relay.address().as_bytes()), relay_paid);
    assert_eq!(dag.relay_credit(relay.address().as_bytes()), relay_paid);
}

#[test]
fn hard_cap_fees_only_still_split_80_20() {
    let (alice, bob, relay) = wallets(0xDA6_0CA9);
    let mut dag = genesis_dag();
    dag.current_supply = HARD_CAP;
    dag.credit_account(id_of(&alice), PHONE_CREDIT);
    let mut tx = dag.compose_and_sign(&alice, id_of(&bob), SEND_AMOUNT).unwrap();
    tx = relay_intercept_and_sign(tx, &relay).unwrap();
    dag.attach_and_verify_tx(tx).unwrap();

    assert_eq!(get_current_tx_subsidy(dag.dag_tx_count.saturating_sub(1), HARD_CAP), 0);
    assert_eq!(dag.current_supply, HARD_CAP);
    assert_eq!(dag.dag_tx_count, 1);
    assert_eq!(dag.balance(alice.address().as_bytes()), PHONE_CREDIT - SEND_AMOUNT - 200);
    assert_eq!(dag.balance(relay.address().as_bytes()), 200);
    assert_eq!(dag.relay_credit(relay.address().as_bytes()), 200);
    assert_eq!(dag.balance(bob.address().as_bytes()), SEND_AMOUNT);
}

#[test]
fn unsigned_relay_list_does_not_get_twenty_percent() {
    let (alice, bob, relay) = wallets(0xDA6_0BAD_20);
    let mut dag = genesis_dag();
    dag.credit_account(id_of(&alice), PHONE_CREDIT);
    let mut tx = dag.compose_and_sign(&alice, id_of(&bob), SEND_AMOUNT).unwrap();
    tx.relay_nodes.push(id_of(&relay));
    assert!(!tx.verify_relay_proofs());
    assert!(dag.attach_and_verify_tx(tx).is_err());
    assert_eq!(dag.balance(relay.address().as_bytes()), 0);
    assert_eq!(dag.relay_credit(relay.address().as_bytes()), 0);
    assert_eq!(dag.current_supply, 0);
}

#[test]
fn sidecar_cannot_change_payouts_after_first_ingest() {
    let (alice, bob, relay) = wallets(0xDA6_0F12);
    let mut dag = genesis_dag();
    dag.credit_account(id_of(&alice), PHONE_CREDIT);
    let tx = dag.compose_and_sign(&alice, id_of(&bob), SEND_AMOUNT).unwrap();
    dag.accept_wire_vertex(tx.clone()).unwrap();
    let before = dag.balance(relay.address().as_bytes());
    let mut forged = tx.clone();
    forged.relay_nodes.push(id_of(&relay));
    assert_eq!(dag.accept_wire_vertex(forged).unwrap(), false);
    assert_eq!(dag.balance(relay.address().as_bytes()), before);
    assert_eq!(dag.relay_credit(relay.address().as_bytes()), 0);
}

#[test]
fn empty_relays_miner_keeps_fee_and_subsidy() {
    let (alice, bob, _) = wallets(0xDA6_0E00);
    let mut dag = genesis_dag();
    dag.credit_account(id_of(&alice), PHONE_CREDIT);
    let tx = dag.compose_and_sign(&alice, id_of(&bob), SEND_AMOUNT).unwrap();
    assert!(tx.relay_nodes.is_empty());
    dag.attach_and_verify_tx(tx).unwrap();
    let pool = INITIAL_TX_SUBSIDY + FIXED_TRANSACTION_FEE;
    assert_eq!(
        dag.balance(alice.address().as_bytes()),
        PHONE_CREDIT - SEND_AMOUNT - FIXED_TRANSACTION_FEE + pool
    );
    assert_eq!(dag.relay_credit(alice.address().as_bytes()), 0);
}

#[test]
fn credit_checked_overflow_is_reported() {
    let (alice, _, _) = wallets(0xDA6_0F00);
    let mut dag = genesis_dag();
    dag.credit_account(id_of(&alice), u64::MAX);
    assert_eq!(dag.credit_checked(id_of(&alice), 1), Err(EconomicError::Overflow));
}

#[test]
fn apply_as_miner_refuses_pc_host() {
    let (alice, bob, _) = wallets(0xDA6_0BAD);
    let mut dag = genesis_dag();
    let tx = dag.compose_and_sign(&alice, id_of(&bob), SEND_AMOUNT).unwrap();
    let host = HostObservation::x86_emulator();
    let err = apply_dag_minting_as_miner(&mut dag, &tx, tx.sender, &[], &host).unwrap_err();
    assert!(matches!(err, DagError::Shield(e) if e.is_critical()));
    assert_eq!(dag.current_supply, 0);
}

#[test]
fn apply_wrapper_uses_tx_sender_as_miner() {
    let (alice, bob, _) = wallets(0xDA6_02A9);
    let mut dag = genesis_dag();
    let tx = dag.compose_and_sign(&alice, id_of(&bob), SEND_AMOUNT).unwrap();
    apply_dag_minting_from_sender(&mut dag, &tx, Vec::new()).unwrap();
    assert_eq!(dag.current_supply, INITIAL_TX_SUBSIDY);
    assert_eq!(
        dag.balance(alice.address().as_bytes()),
        INITIAL_TX_SUBSIDY + FIXED_TRANSACTION_FEE
    );
    assert_eq!(dag.dag_tx_count, 1);
}

#[test]
fn apply_as_miner_pays_on_a_phone() {
    let (alice, bob, relay) = wallets(0xDA6_0A11);
    let mut dag = genesis_dag();
    let tx = dag.compose_and_sign(&alice, id_of(&bob), SEND_AMOUNT).unwrap();
    let relays = [id_of(&relay), id_of(&relay)];
    apply_dag_minting_as_miner(&mut dag, &tx, tx.sender, &relays, &phone_host()).unwrap();
    assert_eq!(dag.balance(&id_of(&relay)), 20_200);
    assert_eq!(dag.balance(&id_of(&alice)), 80_800);
}

#[test]
fn relay_pool_is_shared_and_the_dust_goes_to_the_first() {
    let (alice, bob, _) = wallets(0xDA6_0D57);
    let mut dag = genesis_dag();
    dag.current_supply = HARD_CAP - 1;
    let tx = dag.compose_and_sign(&alice, id_of(&bob), SEND_AMOUNT).unwrap();
    let relays = [[1u8; 32], [2u8; 32], [3u8; 32]];
    apply_dag_minting_natively(&mut dag, &tx, tx.sender, &relays).unwrap();
    // The pool is 1 + 1_000: 800 for the miner, 201 for three relays.
    assert_eq!(dag.current_supply, HARD_CAP);
    for r in &relays {
        assert_eq!(dag.balance(r), 67);
    }
    assert_eq!(dag.balance(&tx.sender), 800);
    let two = [[4u8; 32], [5u8; 32]];
    dag.current_supply = HARD_CAP - 1;
    apply_dag_minting_natively(&mut dag, &tx, tx.sender, &two).unwrap();
    assert_eq!((dag.balance(&two[0]), dag.balance(&two[1])), (101, 100));
}

#[test]
fn test_kron_dag_mesh_flow() {
    let mut rng = StdRng::seed_from_u64(0x4B52_4F4E_4441_47);
    let mut dag = genesis_dag();
    let genesis = dag.genesis_id();
    let genesis_weight_before = dag.cumulative_weight(&genesis);
    let vertices_before = dag.vertex_count();
    assert_eq!(vertices_before, 1);
    assert_eq!(genesis_weight_before, 1);
    assert!(dag.tips_are_consistent());

    let phones: Vec<KronKeypair> =
        (0..5).map(|_| generate_kron_wallet_from_rng(&mut rng)).collect();
    for phone in &phones {
        dag.credit_account(id_of(phone), PHONE_CREDIT);
        assert_eq!(dag.balance(phone.address().as_bytes()), PHONE_CREDIT);
    }

    let mut attached = Vec::new();
    for (i, phone) in phones.iter().enumerate() {
        let dest = id_of(&phones[(i + 1) % phones.len()]);
        let tx = dag
            .compose_and_sign_with_rng(phone, dest, SEND_AMOUNT, &mut rng)
            .expect("phone compose+sign");
        assert!(tx.sender_kron1.starts_with("kron1"));
        assert_eq!(tx.fee, FIXED_TRANSACTION_FEE);
        assert_ne!(tx.parent_1, NULL_PARENT);
        dag.attach_and_verify_tx(tx.clone()).expect("attach");
        attached.push(tx);
    }

    assert_eq!(dag.vertex_count(), vertices_before + 5);
    assert!(dag.vertex_count() > vertices_before);
    assert!(dag.tips_are_consistent());
    for tip in dag.tip_list() {
        assert!(!dag.has_children(&tip), "tip {tip:?} must have no children");
    }

    for (i, tx) in attached.iter().enumerate() {
        let closure = dag.parent_closure(tx.id);
        assert!(closure.contains(&genesis), "phone {i} parent closure must reach genesis");
        assert!(dag.get(&tx.parent_1).is_some());
        assert!(dag.get(&tx.parent_2).is_some());
        if i > 0 {
            let earlier = &attached[..i];
            let refs_earlier = earlier.iter().any(|prev| {
                tx.parent_1 == prev.id || tx.parent_2 == prev.id || closure.contains(&prev.id)
            });
            assert!(
                refs_earlier || closure.contains(&genesis),
                "later tx must reference earlier history via parents"
            );
        }
    }

    let genesis_weight_after = dag.cumulative_weight(&genesis);
    assert!(
        genesis_weight_after > genesis_weight_before,
        "genesis cumulative weight {genesis_weight_after} must exceed {genesis_weight_before}"
    );

    for phone in &phones {
        assert_eq!(dag.next_nonce(phone.address().as_bytes()), 1);
        assert_eq!(
            dag.balance(phone.address().as_bytes()),
            PHONE_CREDIT + INITIAL_TX_SUBSIDY
        );
    }
    assert_eq!(dag.dag_tx_count, 5);
    assert_eq!(dag.current_supply, 5 * INITIAL_TX_SUBSIDY);
}

#[test]
fn attach_rejects_unknown_parent_and_double_spend() {
    let mut rng = StdRng::seed_from_u64(7);
    let mut dag = genesis_dag();
    let alice = generate_kron_wallet_from_rng(&mut rng);
    let bob = generate_kron_wallet_from_rng(&mut rng);
    dag.credit_account(id_of(&alice), PHONE_CREDIT);

    let mut orphan =
        dag.compose_and_sign_with_rng(&alice, id_of(&bob), SEND_AMOUNT, &mut rng).unwrap();
    orphan.parent_1 = [0x11; 32];
    orphan.refresh_id();
    assert!(matches!(dag.attach_and_verify_tx(orphan), Err(DagError::UnknownParent(_))));

    let tx = dag.compose_and_sign_with_rng(&alice, id_of(&bob), SEND_AMOUNT, &mut rng).unwrap();
    let tx_id = tx.id;
    dag.attach_and_verify_tx(tx.clone()).unwrap();
    assert_eq!(dag.attach_and_verify_tx(tx), Err(DagError::DuplicateTx(tx_id)));
    let (p1, p2) = dag.select_parents_with_rng(&mut rng);
    let replay =
        DagTransaction::user_transfer(p1, p2, &alice, id_of(&bob), SEND_AMOUNT, 0).unwrap();
    assert!(matches!(
        dag.attach_and_verify_tx(replay),
        Err(DagError::DoubleSpend { nonce: 0 })
    ));
}

#[test]
fn attach_rejects_bad_signature_and_low_balance() {
    let mut rng = StdRng::seed_from_u64(9);
    let mut dag = genesis_dag();
    let alice = generate_kron_wallet_from_rng(&mut rng);
    let bob = generate_kron_wallet_from_rng(&mut rng);
    dag.credit_account(id_of(&alice), 500);

    let poor = dag.compose_and_sign_with_rng(&alice, id_of(&bob), SEND_AMOUNT, &mut rng).unwrap();
    assert_eq!(dag.attach_and_verify_tx(poor), Err(DagError::InsufficientBalance));

    dag.credit_account(id_of(&alice), PHONE_CREDIT);
    let mut tx =
        dag.compose_and_sign_with_rng(&alice, id_of(&bob), SEND_AMOUNT, &mut rng).unwrap();
    tx.amount = SEND_AMOUNT + 1;
    tx.refresh_id();
    assert_eq!(dag.attach_and_verify_tx(tx), Err(DagError::InvalidSignature));
}

#[test]
fn test_kron_mountain_offline_sync() {
    let mut rng = StdRng::seed_from_u64(0x4D4F_554E_5441_49);
    let alice = generate_kron_wallet_from_rng(&mut rng);
    let bob = generate_kron_wallet_from_rng(&mut rng);

    let mut shared = genesis_dag();
    let genesis = shared.genesis_id();
    shared.credit_account(id_of(&alice), PHONE_CREDIT);
    shared.credit_account(id_of(&bob), PHONE_CREDIT);

    let mut dag_a = shared.clone();
    let mut dag_b = shared;
    assert_eq!(dag_a.genesis_id(), dag_b.genesis_id());
    assert_eq!(dag_a.vertex_set(), dag_b.vertex_set());

    let tx_a = dag_a
        .compose_and_sign_with_rng(&alice, id_of(&bob), SEND_AMOUNT, &mut rng)
        .expect("A compose");
    dag_a.attach_and_verify_tx(tx_a.clone()).expect("A attach");

    let tx_b = dag_b
        .compose_and_sign_with_rng(&bob, id_of(&alice), SEND_AMOUNT, &mut rng)
        .expect("B compose");
    dag_b.attach_and_verify_tx(tx_b.clone()).expect("B attach");

    assert!(!dag_a.contains(&tx_b.id));
    assert!(!dag_b.contains(&tx_a.id));
    assert_ne!(tx_a.id, tx_b.id);

    let phone_a = MeshPhone::from_wallet(&alice);
    let phone_b = MeshPhone::from_wallet(&bob);
    let session = OfflineLink::new()
        .mesh_handshake(&phone_a, &phone_b)
        .expect("lattice anti-bot handshake");
    assert_eq!(session.phone_a, phone_a.id());
    assert_eq!(session.phone_b, phone_b.id());

    let mule = phone_a.id();

    let inv_a = SyncInventory::from_dag(&dag_a, phone_a.id());
    let (need_b, have_b) = compute_dag_diff(&dag_b, &inv_a);
    assert!(need_b.contains(&tx_a.id), "B must Need A's local tx");
    assert!(!need_b.contains(&genesis), "must not Need shared genesis");
    assert!(have_b.contains(&tx_b.id), "B should Have its isolated tx");
    assert!(!have_b.contains(&genesis));

    let inv_b = SyncInventory::from_dag(&dag_b, phone_b.id());
    let (need_a, have_a) = compute_dag_diff(&dag_a, &inv_b);
    assert!(need_a.contains(&tx_b.id));
    assert!(have_a.contains(&tx_a.id));

    let bodies_for_b = dag_a.transactions_for(&need_b);
    let bodies_for_a = dag_b.transactions_for(&need_a);
    assert_eq!(dag_b.merge_offline_graphs(bodies_for_b, mule).unwrap(), 1);
    assert_eq!(dag_a.merge_offline_graphs(bodies_for_a, mule).unwrap(), 1);

    assert_eq!(dag_a.vertex_set(), dag_b.vertex_set());
    assert!(dag_a.contains(&tx_a.id) && dag_a.contains(&tx_b.id));
    assert!(dag_b.contains(&tx_a.id) && dag_b.contains(&tx_b.id));
    assert!(
        dag_a.get(&tx_a.id).is_some() && dag_a.get(&tx_b.id).is_some(),
        "parallel offline branches must both remain (no linear fork-choice)"
    );
    assert!(dag_a.tips().contains(&tx_a.id) && dag_a.tips().contains(&tx_b.id));
    assert!(dag_b.tips().contains(&tx_a.id) && dag_b.tips().contains(&tx_b.id));

    assert_eq!(dag_b.relay_node(&tx_a.id), Some(mule));
    assert_eq!(dag_a.relay_node(&tx_b.id), Some(mule));
    let pool = INITIAL_TX_SUBSIDY + FIXED_TRANSACTION_FEE;
    let relay_cut = dag_relay_total_of(pool);
    assert_eq!(relay_cut, 20_200);
    assert_eq!(dag_b.relay_credit(&mule), relay_cut);
    assert_eq!(dag_a.relay_credit(&mule), relay_cut);
    assert_eq!(RELAY_SHARE_PERCENT, 20);
}

#[test]
fn shared_genesis_is_not_needed() {
    let local = genesis_dag();
    let remote = genesis_dag();
    assert_eq!(local.genesis_id(), remote.genesis_id());
    let inv = SyncInventory::from_dag(&remote, [1u8; 32]);
    let (need, have) = compute_dag_diff(&local, &inv);
    assert!(need.is_empty(), "shared genesis must not be Need");
    assert!(have.is_empty(), "nothing unique to send");
    assert_eq!(local.vertex_count(), 1);
    assert_eq!(FIXED_TRANSACTION_FEE, 1_000);
}

#[test]
fn relay_share_is_20_percent_integer() {
    assert_eq!(RELAY_SHARE_PERCENT, 20);
    assert_eq!(relay_share_of(FIXED_TRANSACTION_FEE), 200);
    assert_eq!(relay_share_of(1_000), 200);
    let (relay, rest) = mesh_relay_split(1_000);
    assert_eq!(relay, 200);
    assert_eq!(rest, 800);
    assert_eq!(rest, remainder_after_relay(1_000));
    assert_eq!(relay + rest, 1_000);
}

#[test]
fn handshake_rejects_datacenter_emulator() {
    let mut rng = StdRng::seed_from_u64(0xB07);
    let honest = MeshPhone::honest_mobile(LatticeKeyPair::generate(&mut rng));
    let bot = MeshPhone::datacenter_emulator(LatticeKeyPair::generate(&mut rng));
    let err = mesh_handshake(&honest, &bot).unwrap_err();
    assert!(matches!(err, SyncError::Handshake("datacenter ip") | SyncError::AntiBot));
    let link = OfflineLink::new();
    assert!(link.mesh_handshake(&honest, &bot).is_err());
}

#[test]
fn honest_phones_handshake_and_idempotent_merge() {
    let mut rng = StdRng::seed_from_u64(0x0FF);
    let alice = generate_kron_wallet_from_rng(&mut rng);
    let bob = generate_kron_wallet_from_rng(&mut rng);
    let a = MeshPhone::from_wallet(&alice);
    let b = MeshPhone::from_wallet(&bob);
    let session = OfflineLink::new().mesh_handshake(&a, &b).expect("honest BLE handshake");
    assert_eq!(session.phone_a, a.id());
    assert_eq!(session.phone_b, b.id());
    assert!(session.score_a.is_strong());
    assert!(session.score_b.is_strong());

    let mut shared = genesis_dag();
    shared.credit_account(id_of(&alice), PHONE_CREDIT);
    shared.credit_account(id_of(&bob), PHONE_CREDIT);
    let mut dag_a = shared.clone();
    let mut dag_b = shared;
    let tx = dag_a
        .compose_and_sign_with_rng(&alice, id_of(&bob), SEND_AMOUNT, &mut rng)
        .unwrap();
    dag_a.attach_and_verify_tx(tx.clone()).unwrap();
    let carried = relay_intercept_and_sign(tx.clone(), &alice).unwrap();
    assert!(carried.verify_relay_proofs());
    let n = dag_b.merge_offline_graphs(vec![carried.clone()], a.id()).unwrap();
    assert_eq!(n, 1);
    assert_eq!(
        dag_b.merge_offline_graphs(vec![carried], a.id()).unwrap(),
        0,
        "duplicate insert must be ignored"
    );
    assert_eq!(
        dag_b.relay_credit(&a.id()),
        dag_relay_total_of(INITIAL_TX_SUBSIDY + FIXED_TRANSACTION_FEE)
    );
}

#[test]
fn relay_intercept_keeps_sender_sig_and_never_mines() {
    let mut rng = StdRng::seed_from_u64(0x8E1A);
    let alice = generate_kron_wallet_from_rng(&mut rng);
    let bob = generate_kron_wallet_from_rng(&mut rng);
    let mut island = genesis_dag();
    island.credit_account(id_of(&alice), PHONE_CREDIT);

    let tx = island.compose_and_sign(&alice, id_of(&bob), SEND_AMOUNT).unwrap();
    let sender_sig = tx.signature.clone();
    let tx_id = tx.id;
    assert!(tx.relay_nodes.is_empty());
    assert!(tx.verify_signature());

    let mut mesh = MeshInterface::for_tests();
    mesh.push_inbound(tx);
    mesh.set_global_link_up(true);
    mesh.request_stop();
    let session = start_wallet_relay_mode(&bob, &mut mesh).unwrap();

    assert!(!session.mining_ran, "relay thread must not run mining");
    assert_eq!(session.mempool.len(), 0, "flushed when global link is up");
    assert_eq!(mesh.flush_ready.len(), 1);
    let carried = &mesh.flush_ready[0];
    let bob_id = id_of(&bob);
    assert_eq!(carried.id, tx_id);
    assert_eq!(carried.signature, sender_sig);
    assert!(carried.verify_signature(), "original sender sig still verifies");
    assert!(carried.relay_nodes.contains(&bob_id));
    assert_eq!(carried.relay_proofs.len(), 1);
    assert!(carried.verify_relay_proofs());
    assert_eq!(carried.relay_proofs[0].node, bob_id);

    let mut global = genesis_dag();
    global.credit_account(id_of(&alice), PHONE_CREDIT);
    let n = global.merge_offline_graphs(mesh.take_flush(), bob_id).unwrap();
    assert_eq!(n, 1);
    assert!(global.contains(&tx_id));
    assert_eq!(global.relay_node(&tx_id), Some(bob_id));
    let relay_cut = dag_relay_total_of(INITIAL_TX_SUBSIDY + FIXED_TRANSACTION_FEE);
    assert_eq!(global.relay_credit(&bob_id), relay_cut);
}

#[test]
fn relay_mempool_evicts_oldest() {
    let mut rng = StdRng::seed_from_u64(0x8E32);
    let alice = generate_kron_wallet_from_rng(&mut rng);
    let bob = generate_kron_wallet_from_rng(&mut rng);
    let mut dag = genesis_dag();
    dag.credit_account(id_of(&alice), 50_000_000);

    let mut pool = RelayMempool::new();
    let mut first_id = None;
    for i in 0..(RELAY_MEMPOOL_CAP + 1) {
        let tx = dag.compose_and_sign(&alice, id_of(&bob), 1).unwrap();
        if i == 0 {
            first_id = Some(tx.id);
        }
        dag.attach_and_verify_tx(tx.clone()).unwrap();
        pool.push(relay_intercept_and_sign(tx, &bob).unwrap());
    }
    assert_eq!(pool.len(), RELAY_MEMPOOL_CAP);
    assert!(pool.iter().iter().all(|t| t.id != first_id.unwrap()));
    assert!(pool.iter().iter().all(|t| t.verify_signature() && t.verify_relay_proofs()));
}

#[test]
fn constants_are_integer_and_exact() {
    assert_eq!(PREMINE, 0);
    assert_eq!(HARD_CAP, 24_000_000 * 1_000_000);
    assert_eq!(HARD_CAP, 24_000_000_000_000);
    assert_eq!(SATOSHI_KRON, UNITS_PER_COIN);
    assert_eq!(FIXED_TRANSACTION_FEE, 1_000);
    assert_eq!(FIXED_FEE, 1_000);
    assert_eq!(INITIAL_TX_SUBSIDY, 100_000);
    assert_eq!(TX_HALVING_INTERVAL, 126_144_000);
    assert_eq!(DAG_MINER_SHARE_PERCENT, 80);
    assert_eq!(RELAY_SHARE_PERCENT, 20);
    assert_eq!(relay_share_of(FIXED_TRANSACTION_FEE), 200);
    assert_eq!(remainder_after_relay(FIXED_TRANSACTION_FEE), 800);
    let (relay, rest) = mesh_relay_split(FIXED_TRANSACTION_FEE);
    assert_eq!(relay, 200);
    assert_eq!(rest, 800);
    assert_eq!(relay + rest, FIXED_TRANSACTION_FEE);
}

#[test]
fn dag_tx_subsidy_halves_on_confirmed_count() {
    assert_eq!(get_current_tx_subsidy(0, 0), INITIAL_TX_SUBSIDY);
    assert_eq!(get_current_tx_subsidy(1, 0), INITIAL_TX_SUBSIDY);
    assert_eq!(get_current_tx_subsidy(TX_HALVING_INTERVAL - 1, 0), INITIAL_TX_SUBSIDY);
    assert_eq!(get_current_tx_subsidy(TX_HALVING_INTERVAL, 0), INITIAL_TX_SUBSIDY >> 1);
    assert_eq!(get_current_tx_subsidy(TX_HALVING_INTERVAL, 0), 50_000);
    assert_eq!(get_current_tx_subsidy(0, HARD_CAP), 0);
    assert_eq!(get_current_tx_subsidy(64 * TX_HALVING_INTERVAL, 0), 0);
    assert_eq!(get_current_tx_subsidy(0, HARD_CAP - 1), 1);
    let pool = INITIAL_TX_SUBSIDY + FIXED_TRANSACTION_FEE;
    assert_eq!(dag_miner_share_of(pool), 80_800);
    assert_eq!(dag_relay_total_of(pool), 20_200);
    assert_eq!(dag_miner_share_of(pool) + dag_relay_total_of(pool), pool);
    assert_eq!(dag_miner_share_of(FIXED_TRANSACTION_FEE), 800);
    assert_eq!(dag_relay_total_of(FIXED_TRANSACTION_FEE), 200);
    assert_eq!(txs_remaining_until_halving(0), TX_HALVING_INTERVAL);
    assert_eq!(txs_remaining_until_halving(1), TX_HALVING_INTERVAL - 1);
    assert_eq!(txs_remaining_until_halving(TX_HALVING_INTERVAL), TX_HALVING_INTERVAL);
}

#[test]
fn products_and_sums_saturate_as_documented() {
    assert_eq!(saturating_product(3, 7), 21);
    assert_eq!(saturating_product(u64::MAX, 2), u64::MAX);
    assert_eq!(coins(3), 3_000_000);
    assert_eq!(coins(u64::MAX), u64::MAX);
    let mut accounts: Table<32, u64> = Table::new();
    assert_eq!(total_supply(&accounts), 0);
    accounts.insert([1u8; 32], 5);
    accounts.insert([2u8; 32], 7);
    assert_eq!(total_supply(&accounts), 12);
    assert_eq!(EconomicError::Overflow.message(), "economic integer overflow");
}

#[test]
fn genesis_is_the_same_vertex_everywhere() {
    let a = genesis_dag();
    let mut b = KronDAG::new();
    assert_eq!(b.vertex_count(), 0);
    assert_eq!(b.genesis_id(), NULL_PARENT);
    assert!(b.ensure_genesis().unwrap());
    assert!(!b.ensure_genesis().unwrap());
    assert_eq!(a.genesis_id(), b.genesis_id());
    assert_ne!(a.genesis_id(), NULL_PARENT);
    let g = a.get(&a.genesis_id()).unwrap();
    assert!(g.is_genesis());
    assert_eq!(g.amount, 0);
    assert_eq!(g.fee, 0);
    let keys = LatticeKeyPair::from_seed(GENESIS_SEED);
    assert_eq!(g.sender, keys.public.address());
    assert_eq!(a.tip_list(), vec![a.genesis_id()]);
}

#[test]
fn attach_names_each_fault() {
    let (alice, bob, relay) = wallets(0xFA_0001);
    let mut dag = genesis_dag();
    dag.credit_account(id_of(&alice), PHONE_CREDIT);
    let g = dag.genesis_id();

    let dear = DagTransaction::assemble(g, g, &alice, id_of(&bob), 5, 999, 0).unwrap();
    assert_eq!(dag.attach_and_verify_tx(dear), Err(DagError::InvalidFee));

    let mut other = DagTransaction::user_transfer(g, g, &alice, id_of(&bob), 5, 0).unwrap();
    other.sender = id_of(&relay);
    other.refresh_id();
    assert_eq!(dag.attach_and_verify_tx(other), Err(DagError::AddressMismatch));

    let mut listed = DagTransaction::user_transfer(g, g, &alice, id_of(&bob), 5, 0).unwrap();
    listed.relay_nodes.push(id_of(&relay));
    assert_eq!(dag.attach_and_verify_tx(listed), Err(DagError::InvalidRelayProof));

    let orphan = DagTransaction::assemble(NULL_PARENT, NULL_PARENT, &alice, id_of(&bob), 0, 0, 0);
    assert_eq!(dag.attach_and_verify_tx(orphan.unwrap()), Err(DagError::InvalidGenesis));

    let future = DagTransaction::user_transfer(g, g, &alice, id_of(&bob), 5, 3).unwrap();
    assert_eq!(dag.attach_and_verify_tx(future), Err(DagError::DoubleSpend { nonce: 3 }));

    dag.credit_account(id_of(&relay), u64::MAX);
    let huge = DagTransaction::user_transfer(g, g, &relay, id_of(&bob), u64::MAX, 0).unwrap();
    assert_eq!(dag.attach_and_verify_tx(huge), Err(DagError::Overflow));
    assert_eq!(dag.vertex_count(), 1);
    assert_eq!(dag.dag_tx_count, 0);
}

#[test]
fn error_lines_are_plain_text() {
    assert_eq!(DagError::InvalidSignature.message(), "ML-DSA-44 signature is not valid for the sender");
    assert!(DagError::DoubleSpend { nonce: 4 }.message().starts_with("double-spend: nonce 4"));
    assert_eq!(DagError::InsufficientBalance.message(), "sender cannot cover amount + fee");
    assert!(DagError::Shield(ShieldError::PcArchitecture)
        .message()
        .contains(ShieldError::PcArchitecture.message()));
    assert_eq!(
        DagError::UnknownParent([7; 32]).message(),
        format!("unknown parent {:?}", [7u8; 32])
    );
    assert_eq!(SyncError::CyclicBatch.message(), "incoming batch has a cycle");
}

#[test]
fn attach_gates_follow_the_host() {
    let (alice, bob, _) = wallets(0xFA_0002);
    let mut dag = genesis_dag();
    dag.credit_account(id_of(&alice), PHONE_CREDIT);
    let tx = dag.compose_and_sign(&alice, id_of(&bob), SEND_AMOUNT).unwrap();
    let pc = HostObservation::x86_emulator();
    for device in [AttachingDevice::Miner, AttachingDevice::Relay] {
        assert_eq!(
            dag.attach_and_verify_for(tx.clone(), device, &pc),
            Err(DagError::Shield(ShieldError::PcArchitecture))
        );
    }
    assert!(dag.attach_and_verify_tx_as_miner(tx.clone(), &pc).is_err());
    assert!(dag.attach_and_verify_tx_as_relay(tx.clone(), &pc).is_err());
    assert!(!dag.contains(&tx.id));
    let mut on_phone = dag.clone();
    on_phone.attach_and_verify_tx_as_miner(tx.clone(), &phone_host()).unwrap();
    assert!(on_phone.contains(&tx.id));
    assert_eq!(dag.attach_and_verify_for(tx.clone(), AttachingDevice::LocalGraph, &pc), Ok(()));
    assert!(dag.contains(&tx.id));
}

#[test]
fn wire_vertices_are_accepted_once_and_the_greater_id_wins() {
    let (alice, bob, carol) = wallets(0xFA_0003);
    let mut dag = genesis_dag();
    dag.credit_account(id_of(&alice), PHONE_CREDIT);
    let g = dag.genesis_id();
    let one = DagTransaction::user_transfer(g, g, &alice, id_of(&bob), 100, 0).unwrap();
    let two = DagTransaction::user_transfer(g, g, &alice, id_of(&carol), 200, 0).unwrap();
    assert!(dag.accept_wire_vertex(one.clone()).unwrap());
    assert!(!dag.accept_wire_vertex(one.clone()).unwrap());
    assert!(dag.accept_wire_vertex(two.clone()).unwrap());
    assert_eq!(dag.vertex_count(), 3);
    let conflicted: Vec<bool> =
        vec![dag.is_conflict(&one.id), dag.is_conflict(&two.id)];
    assert_eq!(conflicted.iter().filter(|c| **c).count(), 1);
    let (winner, loser) = if conflicted[0] { (&two, &one) } else { (&one, &two) };
    assert!(winner.id > loser.id);
    assert_eq!(dag.conflict_winner(&loser.id), Some(winner.id));
    assert_eq!(dag.conflict_winner(&winner.id), None);
    assert_eq!(dag.balance(&winner.recipient), winner.amount);
    assert_eq!(dag.balance(&loser.recipient), 0);
    assert_eq!(dag.next_nonce(&id_of(&alice)), 1);

    // The other order of arrival leaves the same ledger.
    let mut mirror = genesis_dag();
    mirror.credit_account(id_of(&alice), PHONE_CREDIT);
    mirror.accept_wire_vertex(two).unwrap();
    mirror.accept_wire_vertex(one).unwrap();
    assert_eq!(mirror.account_snapshot(), dag.account_snapshot());
    assert_eq!(mirror.tip_list(), dag.tip_list());
    assert_eq!(mirror.supply(), dag.supply());
}

#[test]
fn rebuild_keeps_the_ledger_of_a_quiet_graph() {
    let (alice, bob, _) = wallets(0xFA_0004);
    let mut dag = genesis_dag();
    dag.credit_account(id_of(&alice), PHONE_CREDIT);
    let tx = dag.compose_and_sign(&alice, id_of(&bob), 77).unwrap();
    dag.attach_and_verify_tx(tx).unwrap();
    let held = |d: &KronDAG| (d.balance(&id_of(&alice)), d.balance(&id_of(&bob)));
    let before = (held(&dag), dag.supply(), dag.global_tx_count(), dag.tip_list());
    dag.resolve_conflicts_and_rebuild_ledger().unwrap();
    let after = (held(&dag), dag.supply(), dag.global_tx_count(), dag.tip_list());
    assert_eq!(before, after);
    assert_eq!(dag.nonce_snapshot().get(&id_of(&alice)), Some(&1));
    assert_eq!(dag.faucet_snapshot().get(&id_of(&alice)), Some(&PHONE_CREDIT));
}

#[test]
fn canonical_bytes_come_back() {
    let (alice, bob, _) = wallets(0xFA_0005);
    let dag = genesis_dag();
    let g = dag.genesis_id();
    let tx = DagTransaction::user_transfer(g, g, &alice, id_of(&bob), 42, 7).unwrap();
    let back = DagTransaction::from_canonical(&tx.canonical_bytes()).unwrap();
    assert_eq!(back, tx);
    let mut short = tx.canonical_bytes();
    short.truncate(100);
    assert!(DagTransaction::from_canonical(&short).is_err());
    assert_eq!(tx.id, DagTransaction::compute_id(&tx.unsigned_bytes()));
}

#[test]
fn carrier_proof_is_bound_to_vertex_and_key() {
    let (alice, bob, relay) = wallets(0xFA_0006);
    let dag = genesis_dag();
    let g = dag.genesis_id();
    let tx = DagTransaction::user_transfer(g, g, &alice, id_of(&bob), 1, 0).unwrap();
    let carried = relay_intercept_and_sign(tx.clone(), &relay).unwrap();
    assert_eq!(carried.proven_relay_nodes(), vec![id_of(&relay)]);
    let again = relay_intercept_and_sign(carried.clone(), &relay).unwrap();
    assert_eq!(again.relay_nodes.len(), 1);
    assert_eq!(again.relay_proofs.len(), 2);
    assert!(again.verify_relay_proofs());
    assert_ne!(
        relay_proof_message(&tx.id, relay.public_key()),
        relay_proof_message(&tx.id, bob.public_key())
    );
    let mut moved = carried.clone();
    moved.relay_proofs[0] = RelayProof {
        node: id_of(&bob),
        public_key: relay.public_key().clone(),
        sig: carried.relay_proofs[0].sig.clone(),
    };
    assert!(!moved.verify_relay_proofs());
    assert_eq!(relay_wallet_id(&relay), id_of(&relay));
}

#[test]
fn incoming_batches_are_sorted_parents_first() {
    let (alice, bob, _) = wallets(0xFA_0007);
    let mut donor = genesis_dag();
    donor.credit_account(id_of(&alice), PHONE_CREDIT);
    let mut chain = Vec::new();
    for _ in 0..3 {
        let tip = donor.tip_list()[0];
        let tx =
            donor.compose_and_sign_with_parents(&alice, id_of(&bob), 10, tip, tip).unwrap();
        donor.attach_and_verify_tx(tx.clone()).unwrap();
        chain.push(tx);
    }
    let local = genesis_dag();
    let shuffled = vec![chain[2].clone(), chain[0].clone(), chain[1].clone()];
    let sorted = topo_order_incoming(&local, &shuffled).unwrap();
    let ids: Vec<[u8; 32]> = sorted.iter().map(|t| t.id).collect();
    assert_eq!(ids, vec![chain[0].id, chain[1].id, chain[2].id]);
    let gap = vec![chain[2].clone()];
    match topo_order_incoming(&local, &gap) {
        Err(OrderFault::MissingParent(p)) => assert_eq!(p, chain[1].id),
        _ => panic!("the parent is missing"),
    }
    let mut receiver = genesis_dag();
    assert_eq!(
        receiver.merge_offline_graphs(gap, [9u8; 32]),
        Err(SyncError::MissingParent(chain[1].id))
    );
    assert_eq!(receiver.vertex_count(), 1);
}

#[test]
fn a_meeting_brings_the_missing_vertices_over() {
    let (alice, bob, carol) = wallets(0xFA_0008);
    let mut remote = genesis_dag();
    remote.credit_account(id_of(&alice), PHONE_CREDIT);
    let tx = remote.compose_and_sign(&alice, id_of(&bob), 5).unwrap();
    remote.attach_and_verify_tx(tx.clone()).unwrap();
    let mut local = genesis_dag();
    local.credit_account(id_of(&alice), PHONE_CREDIT);
    let inv = SyncInventory::from_dag(&remote, id_of(&bob));
    assert_eq!(exchange_and_merge(&mut local, &remote, &inv, id_of(&carol)).unwrap(), 1);
    assert_eq!(local.vertex_set(), remote.vertex_set());
    assert_eq!(local.relay_node(&tx.id), Some(id_of(&carol)));
    assert_eq!(local.relay_credit_snapshot().get(&id_of(&carol)), Some(&20_200));

    let mut blocked = genesis_dag();
    assert_eq!(
        blocked.merge_offline_graphs_as_relay(
            vec![tx.clone()],
            id_of(&carol),
            &HostObservation::x86_emulator()
        ),
        Err(SyncError::Shield(ShieldError::PcArchitecture))
    );

    let mut engine = MeshSyncEngine::new(local, MeshPhone::from_wallet(&bob));
    assert_eq!(engine.inventory().peer_id, Some(id_of(&bob)));
    assert_eq!(engine.merge_offline_graphs(vec![tx], id_of(&carol)).unwrap(), 0);
    assert_eq!(relay_share(1_000), 200);
    assert_eq!(HANDSHAKE_RETRIES, 3);
    let mut ledger = RelayLedger::new();
    ledger.record([1u8; 32], id_of(&carol), 1_000);
    assert_eq!(ledger.credits.get(&id_of(&carol)), Some(&200));
    ledger.record([1u8; 32], id_of(&carol), 1_000);
    assert_eq!(ledger.relay_of.get(&[1u8; 32]), Some(&id_of(&carol)));
}

#[test]
fn inventories_advertise_tips_and_recent_once() {
    let inv = SyncInventory::new(vec![[3u8; 32]]);
    assert_eq!(inv.peer_id, None);
    let set = SyncInventory {
        tips: vec![[3u8; 32], [1u8; 32]],
        recent: vec![[3u8; 32], [2u8; 32]],
        peer_id: None,
    }
    .advertised();
    assert_eq!(set.len(), 3);
    assert_eq!(MAX_INVENTORY_HASHES, 4_096);
    let dag = genesis_dag();
    let from = SyncInventory::from_dag(&dag, [7u8; 32]);
    assert_eq!(from.tips, vec![dag.genesis_id()]);
    assert!(from.recent.len() <= 1);
}

#[test]
fn tip_walk_follows_the_ticket() {
    let (alice, bob, _) = wallets(0xFA_0009);
    let mut dag = genesis_dag();
    dag.credit_account(id_of(&alice), PHONE_CREDIT);
    let g = dag.genesis_id();
    assert_eq!(dag.child_for_ticket(&g, 0), None);
    let tx = dag.compose_and_sign(&alice, id_of(&bob), 3).unwrap();
    dag.attach_and_verify_tx(tx.clone()).unwrap();
    assert_eq!(dag.child_for_ticket(&g, 0), Some(tx.id));
    assert_eq!(dag.select_parents(), (tx.id, g));
    assert_eq!(dag.children_of(&g), vec![tx.id]);
    assert!(dag.has_children(&g));
    assert_eq!(dag.transactions_in_order().len(), 2);
    assert_eq!(dag.transactions_for_in_order(&[tx.id, g])[0].id, g);
}

#[test]
fn relay_service_is_for_phones() {
    let (alice, bob, relay) = wallets(0xFA_000A);
    let dag = genesis_dag();
    let g = dag.genesis_id();
    let tx = DagTransaction::user_transfer(g, g, &alice, id_of(&bob), 1, 0).unwrap();
    let mut mesh = MeshInterface::new();
    mesh.request_stop();
    let refused = start_wallet_relay_service(&relay, &mut mesh, &HostObservation::x86_emulator());
    assert!(matches!(refused, Err(DagError::Shield(ShieldError::PcArchitecture))));
    mesh.push_inbound(tx);
    let session = start_wallet_relay_service(&relay, &mut mesh, &phone_host()).unwrap();
    assert!(!session.mining_ran);
    assert_eq!(session.mempool.len(), 1);
    assert!(mesh.take_flush().is_empty());
    assert!(mesh.is_stopped());
}

#[test]
fn relay_steps_hold_until_the_link_is_up() {
    let (alice, bob, relay) = wallets(0xFA_000B);
    let dag = genesis_dag();
    let g = dag.genesis_id();
    let tx = DagTransaction::user_transfer(g, g, &alice, id_of(&bob), 1, 0).unwrap();
    let mut mesh = MeshInterface::new();
    let mut session = WalletRelaySession { mempool: RelayMempool::new(), mining_ran: false };
    mesh.push_inbound(tx.clone());
    wallet_relay_step(&relay, &mut mesh, &mut session).unwrap();
    assert_eq!(session.mempool.len(), 1);
    mesh.set_global_link_up(true);
    assert!(mesh.global_link_up());
    wallet_relay_step(&relay, &mut mesh, &mut session).unwrap();
    assert!(session.mempool.is_empty());
    let out = mesh.take_flush();
    assert_eq!(out.len(), 1);
    assert_eq!(out[0].id, tx.id);
    assert!(mesh.poll_inbound().is_none());
    assert_eq!(mesh.park_duty_cycle(), Some(RELAY_DUTY_SLEEP_SECS_DEFAULT * 1_000));
    assert!(RELAY_DUTY_SLEEP_SECS_MIN <= RELAY_DUTY_SLEEP_SECS_DEFAULT);
    assert!(RELAY_DUTY_SLEEP_SECS_DEFAULT <= RELAY_DUTY_SLEEP_SECS_MAX);
    assert_eq!(MeshInterface::for_tests().park_duty_cycle(), None);
}

#[test]
fn unminted_vertices_move_money_and_mint_nothing() {
    let (alice, bob, _) = wallets(0xFA_0010);
    let mut dag = genesis_dag();
    dag.credit_account(id_of(&alice), PHONE_CREDIT);
    let g = dag.genesis_id();
    let tx = DagTransaction::user_transfer(g, g, &alice, id_of(&bob), 500, 0).unwrap();
    dag.attach_vertex_unminted(tx).unwrap();
    assert_eq!(dag.balance(&id_of(&bob)), 500);
    assert_eq!(dag.balance(&id_of(&alice)), PHONE_CREDIT - 500 - FIXED_TRANSACTION_FEE);
    assert_eq!(dag.supply(), PREMINE);
    assert_eq!(dag.vertex_count(), 2);
}

#[test]
fn faucet_hints_only_raise() {
    let mut dag = genesis_dag();
    dag.apply_faucet_hint([1; 32], 700);
    assert_eq!(dag.balance(&[1; 32]), 700);
    dag.apply_faucet_hint([1; 32], 600);
    assert_eq!(dag.balance(&[1; 32]), 700);
    dag.apply_faucet_hint([1; 32], 1_000);
    assert_eq!(dag.balance(&[1; 32]), 1_000);
    assert_eq!(dag.faucet_snapshot().get(&[1; 32]), Some(&1_000));
}

#[test]
fn relay_credits_are_paid_out_as_balance() {
    let (alice, bob, _) = wallets(0xFA_0011);
    let mut dag = genesis_dag();
    dag.current_supply = HARD_CAP;
    let tx = dag.compose_and_sign(&alice, id_of(&bob), SEND_AMOUNT).unwrap();
    apply_dag_minting_natively(&mut dag, &tx, tx.sender, &[[1u8; 32]]).unwrap();
    assert_eq!(dag.relay_credit(&[1u8; 32]), 200);
    assert_eq!(dag.balance(&[1u8; 32]), 200);
    dag.apply_relay_credits_from_fee_pool();
    assert_eq!(dag.balance(&[1u8; 32]), 400);
    assert_eq!(dag.relay_credit(&[1u8; 32]), 200);
    assert_eq!(dag.balance(&tx.sender), 800);
}

#[test]
fn weights_count_the_approvers() {
    let (alice, bob, carol) = wallets(0xFA_0012);
    let mut dag = genesis_dag();
    for w in [&alice, &bob, &carol] {
        dag.credit_account(id_of(w), PHONE_CREDIT);
    }
    let g = dag.genesis_id();
    let left = DagTransaction::user_transfer(g, g, &alice, [7; 32], 1, 0).unwrap();
    let right = DagTransaction::user_transfer(g, g, &bob, [7; 32], 1, 0).unwrap();
    dag.attach_and_verify_tx(left.clone()).unwrap();
    dag.attach_and_verify_tx(right.clone()).unwrap();
    let top = DagTransaction::user_transfer(left.id, right.id, &carol, [7; 32], 1, 0).unwrap();
    dag.attach_and_verify_tx(top.clone()).unwrap();
    assert_eq!(dag.cumulative_weight(&g), 4);
    assert_eq!(dag.cumulative_weight(&left.id), 2);
    assert_eq!(dag.cumulative_weight(&right.id), 2);
    assert_eq!(dag.cumulative_weight(&top.id), 1);
    assert_eq!(dag.cumulative_weight(&[9; 32]), 0);
}

#[test]
fn both_phones_have_to_sign_the_meeting() {
    let (alice, bob, _) = wallets(0xFA_0101);
    let (a, b) = (alice.lattice(), bob.lattice());
    let t = [0x17u8; 32];
    let (sig_a, sig_b) = (a.sign(&t).unwrap(), b.sign(&t).unwrap());
    assert_eq!(identities_proven(&a.public, &b.public, &t, &sig_a, &sig_b), Ok(()));
    assert_eq!(
        identities_proven(&a.public, &b.public, &t, &sig_b, &sig_a),
        Err(SyncError::BadIdentity)
    );
    assert_eq!(
        identities_proven(&a.public, &b.public, &[0u8; 32], &sig_a, &sig_b),
        Err(SyncError::BadIdentity)
    );
    let stray = b.sign(&[0u8; 1]).unwrap();
    assert_eq!(
        identities_proven(&a.public, &b.public, &t, &sig_a, &stray),
        Err(SyncError::BadIdentity)
    );
}

#[test]
fn genesis_lies_on_a_credited_ledger_too() {
    let mut dag = KronDAG::new();
    dag.credit_account([4u8; 32], 77);
    assert_eq!(dag.ensure_genesis(), Ok(true));
    assert_eq!(dag.vertex_count(), 1);
    assert_eq!(dag.genesis_id(), genesis_dag().genesis_id());
    assert_eq!(dag.tip_list(), vec![dag.genesis_id()]);
    assert_eq!(dag.cumulative_weight(&dag.genesis_id()), 1);
    assert_eq!(dag.balance(&[4u8; 32]), 77);
    assert_eq!(dag.faucet_snapshot().get(&[4u8; 32]), Some(&77));
    assert_eq!((dag.supply(), dag.dag_tx_count), (0, 0));
    assert_eq!(dag.ensure_genesis(), Ok(false));
    assert_eq!(dag.vertex_count(), 1);
}

#[test]
fn a_second_carrier_changes_nothing() {
    let (alice, bob, carol) = wallets(0xFA_0102);
    let mut remote = genesis_dag();
    remote.credit_account(id_of(&alice), PHONE_CREDIT);
    let mut batch = Vec::new();
    for amount in 1..=3u64 {
        let tx = remote.compose_and_sign(&alice, id_of(&bob), amount).unwrap();
        remote.attach_and_verify_tx(tx.clone()).unwrap();
        batch.push(tx);
    }
    batch.reverse();
    let mut local = genesis_dag();
    local.credit_account(id_of(&alice), PHONE_CREDIT);
    let before = local.vertex_count();
    assert_eq!(local.merge_offline_graphs(batch.clone(), id_of(&bob)), Ok(3));
    assert_eq!(local.vertex_count(), before + 3);
    let (accounts, supply) = (local.account_snapshot(), local.supply());
    assert_eq!(local.merge_offline_graphs(batch.clone(), id_of(&carol)), Ok(0));
    assert_eq!((local.account_snapshot(), local.supply()), (accounts, supply));
    for tx in &batch {
        assert_eq!(local.relay_node(&tx.id), Some(id_of(&bob)));
    }
    assert_eq!(local.relay_node(&local.genesis_id()), None);
    assert_eq!(local.relay_credit(&id_of(&carol)), 0);
}

#[test]
fn an_exchange_gives_the_union() {
    let (alice, bob, carol) = wallets(0xFA_0103);
    let mut shared = genesis_dag();
    shared.credit_account(id_of(&alice), PHONE_CREDIT);
    shared.credit_account(id_of(&bob), PHONE_CREDIT);
    let (mut local, mut remote) = (shared.clone(), shared);
    let mine = local.compose_and_sign(&alice, id_of(&carol), 3).unwrap();
    local.attach_and_verify_tx(mine.clone()).unwrap();
    let mut theirs = Vec::new();
    for amount in 1..=4u64 {
        let tx = remote.compose_and_sign(&bob, id_of(&carol), amount).unwrap();
        remote.attach_and_verify_tx(tx.clone()).unwrap();
        theirs.push(tx.id);
    }
    let inv = SyncInventory::from_dag(&remote, id_of(&bob));
    assert_eq!(exchange_and_merge(&mut local, &remote, &inv, id_of(&carol)), Ok(4));
    assert_eq!(local.vertex_count(), 6);
    assert!(theirs.iter().all(|id| local.contains(id)) && local.contains(&mine.id));
    assert_eq!(exchange_and_merge(&mut local, &remote, &inv, id_of(&carol)), Ok(0));
}
