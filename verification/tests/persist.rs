use kron_mesh::dag::wallet_relay::relay_intercept_and_sign;
use kron_mesh::dag::{DagTransaction, KronDAG};
use kron_mesh::kron::generate_kron_wallet_from_rng;
use kron_mesh::persist::{
    read_snapshot, read_wal, restore, DagSnapshot, DagStore, PersistError, SNAPSHOT_EVERY,
};
use kron_mesh::table::{KeySet, Table};
use rand::rngs::StdRng;
use rand::SeedableRng;

#[test]
fn wal_crash_restart_restores_dag_graph() {
    let mut rng = StdRng::seed_from_u64(0x5AFE);
    let alice = generate_kron_wallet_from_rng(&mut rng);
    let bob = generate_kron_wallet_from_rng(&mut rng);
    let store = DagStore::open(String::from("kron-dag-wal"));
    let mut dag = KronDAG::with_genesis().unwrap();
    let mut faucet: Table<32, u64> = Table::new();
    faucet.insert(*alice.address().as_bytes(), 1_000_000);
    dag.credit_account(*alice.address().as_bytes(), 1_000_000);
    let tx = dag
        .compose_and_sign_with_rng(&alice, *bob.address().as_bytes(), 10_000, &mut rng)
        .unwrap();
    dag.attach_and_verify_tx(tx.clone()).unwrap();
    let plan = store.append_vertex(&tx, &dag).unwrap();
    let mut wal = plan.wal;
    let snapshot = store.write_snapshot(&DagSnapshot::from_dag_with_faucet(&dag, faucet));
    let supply = dag.current_supply;
    let count = dag.dag_tx_count;
    let tips = dag.tip_list();
    drop(store);

    let store2 = DagStore::open(String::from("kron-dag-wal"));
    let (dag2, snap) = store2.load(Some(snapshot.clone()), &wal).ok().unwrap();
    assert_eq!(dag2.dag_tx_count, count);
    assert_eq!(dag2.current_supply, supply);
    assert_eq!(dag2.contains(&tx.id), true);
    assert_eq!(dag2.tip_list(), tips);
    assert_eq!(snap.supply, supply);

    // A record that was torn off by the crash is left out.
    wal.extend_from_slice(&wal.clone()[..40]);
    let (dag3, _) = store2.load(Some(snapshot), &wal).ok().unwrap();
    assert_eq!(dag3.tip_list(), tips);
    assert_eq!(read_wal(&wal).len(), 1);
}

#[test]
fn snapshots_come_back() {
    let mut dag = KronDAG::with_genesis().unwrap();
    dag.credit_account([3u8; 32], 5);
    let store = DagStore::open(String::from("d"));
    let snap = DagSnapshot::from_dag(&dag);
    let bytes = store.write_snapshot(&snap);
    assert_eq!(read_snapshot(&bytes).unwrap(), snap);
    assert_eq!(snap.vertex_count, 1);
    assert_eq!(snap.accounts.get(&[3u8; 32]), Some(&5));
    let empty = DagSnapshot::default();
    assert_eq!(empty.vertex_count, 0);
    assert!(matches!(read_snapshot(&bytes[..10]), Err(PersistError::Corrupt(_))));
    let mut bad = bytes;
    bad[0] ^= 1;
    assert!(read_snapshot(&bad).is_err());
    assert_eq!(store.wal_path(), "d/wal.log");
    assert_eq!(store.snapshot_path(), "d/snapshot.bin");
    assert!(!PersistError::Corrupt("x").message().is_empty());
}

#[test]
fn an_empty_store_starts_with_genesis() {
    let store = DagStore::open(String::from("d"));
    let (dag, snap) = store.load(None, &[]).ok().unwrap();
    assert_eq!(dag.vertex_count(), 1);
    assert_eq!(snap.vertex_count, 0);
    assert_eq!(SNAPSHOT_EVERY, 8);
    let again = restore(dag, &Table::new(), Vec::new()).ok().unwrap();
    assert_eq!(again.vertex_count(), 1);
}

#[test]
fn tables_and_sets_hold_each_key_once() {
    let mut t: Table<4, u64> = Table::new();
    assert!(t.is_empty());
    t.insert([2; 4], 1);
    t.insert([1; 4], 2);
    t.insert([2; 4], 3);
    assert_eq!(t.len(), 2);
    assert_eq!(t.key_list(), vec![[1; 4], [2; 4]]);
    assert_eq!(t.get(&[2; 4]), Some(&3));
    assert_eq!(t.get_or(&[9; 4], 7), 7);
    assert_eq!(t.remove(&[2; 4]), Some(3));
    assert_eq!(t.remove(&[2; 4]), None);
    let mut s: KeySet<4> = KeySet::new();
    assert!(s.insert([5; 4]));
    assert!(!s.insert([5; 4]));
    assert!(s.contains(&[5; 4]));
    assert!(s.remove(&[5; 4]));
    assert!(s.is_empty());
}

#[test]
fn carried_vertices_and_lost_spends_survive_a_restart() {
    let mut rng = StdRng::seed_from_u64(0x5AFF);
    let alice = generate_kron_wallet_from_rng(&mut rng);
    let bob = generate_kron_wallet_from_rng(&mut rng);
    let relay = generate_kron_wallet_from_rng(&mut rng);
    let (a, b, r) =
        (*alice.address().as_bytes(), *bob.address().as_bytes(), *relay.address().as_bytes());
    let store = DagStore::open(String::from("box"));
    let mut dag = KronDAG::with_genesis().unwrap();
    dag.credit_account(a, 600_000);
    dag.credit_account(b, 5_000);
    dag.credit_account(a, 400_000);
    let g = dag.genesis_id();
    let one = DagTransaction::user_transfer(g, g, &alice, b, 10, 0).unwrap();
    let one = relay_intercept_and_sign(one, &relay).unwrap();
    let two = DagTransaction::user_transfer(g, g, &alice, r, 20, 0).unwrap();
    let three = DagTransaction::user_transfer(one.id, two.id, &bob, a, 30, 0).unwrap();
    let mut wal = Vec::new();
    for tx in [&one, &two, &three] {
        assert_eq!(dag.accept_wire_vertex((*tx).clone()), Ok(true));
        wal.extend_from_slice(&store.append_vertex(tx, &dag).unwrap().wal);
    }
    assert_eq!(dag.is_conflict(&one.id), !dag.is_conflict(&two.id));
    let records = read_wal(&wal);
    assert_eq!(records.len(), 3);
    assert_eq!(records[0].tx, one);
    let snapshot = store.write_snapshot(&DagSnapshot::from_dag(&dag));
    let (again, snap) = store.load(Some(snapshot), &wal).ok().unwrap();
    assert_eq!(again.vertex_set(), dag.vertex_set());
    assert_eq!(again.tip_list(), dag.tip_list());
    assert_eq!(again.current_supply, dag.current_supply);
    assert_eq!(again.dag_tx_count, dag.dag_tx_count);
    assert_eq!(again.account_snapshot(), dag.account_snapshot());
    assert_eq!(again.is_conflict(&one.id), dag.is_conflict(&one.id));
    assert_eq!(snap.faucet.get(&a), Some(&1_000_000));
}

#[test]
fn late_credits_survive_a_restart() {
    let mut rng = StdRng::seed_from_u64(0x5B00);
    let alice = generate_kron_wallet_from_rng(&mut rng);
    let bob = generate_kron_wallet_from_rng(&mut rng);
    let (a, b) = (*alice.address().as_bytes(), *bob.address().as_bytes());
    let store = DagStore::open(String::from("box"));
    let mut dag = KronDAG::with_genesis().unwrap();
    let g = dag.genesis_id();
    dag.credit_account(a, 100_000);
    let one = DagTransaction::user_transfer(g, g, &alice, b, 10, 0).unwrap();
    assert_eq!(dag.accept_wire_vertex(one.clone()), Ok(true));
    dag.credit_account(a, 7);
    dag.credit_account(b, 5_000);
    let two = DagTransaction::user_transfer(one.id, g, &bob, a, 3, 0).unwrap();
    assert_eq!(dag.accept_wire_vertex(two.clone()), Ok(true));
    dag.credit_account(b, 9);
    let mut wal = store.append_vertex(&one, &dag).unwrap().wal;
    wal.extend_from_slice(&store.append_vertex(&two, &dag).unwrap().wal);
    let snapshot = store.write_snapshot(&DagSnapshot::from_dag(&dag));
    let (again, _) = store.load(Some(snapshot), &wal).ok().unwrap();
    assert_eq!(again.account_snapshot(), dag.account_snapshot());
    assert_eq!(again.faucet_snapshot(), dag.faucet_snapshot());
    assert_eq!(again.tip_list(), dag.tip_list());
    assert_eq!((again.supply(), again.dag_tx_count), (dag.supply(), dag.dag_tx_count));
}
