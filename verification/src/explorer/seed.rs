//! Demo graph, so that the explorer's page is not blank before the first live vertex.

use vstd::prelude::*;

use rand::rngs::StdRng;
use rand::SeedableRng;

use crate::crypto::lattice::address_of;
use crate::dag::engine::{genesis_hash, genesis_key, genesis_tx, parents_admissible, KronDAG};
use crate::dag::model::DagView;
use crate::dag::tx::{assembled, DagTransaction, TxView, NULL_PARENT};
use crate::economics::{tx_subsidy, FIXED_TRANSACTION_FEE, INITIAL_TX_SUBSIDY};
use crate::explorer::api::ExplorerApi;
use crate::explorer::indexer::IndexView;
use crate::kron::wallet::generate_kron_wallet_from_rng;
use crate::types::Address;

verus! {

/// Seed of the demo phones (`KRON`).
pub const DEMO_SEED: u64 = 0x4B52_4F4E;

/// What the demo sender is credited with.
pub const DEMO_CREDIT: u64 = 1_000_000;

/// What the demo transfer moves.
pub const DEMO_AMOUNT: u64 = 50_000;

/// `StdRng::seed_from_u64`: the generator that belongs to a number. Nothing is said of
/// what it draws.
#[verifier::external_body]
fn seeded_rng(seed: u64) -> StdRng {
    StdRng::seed_from_u64(seed)
}

/// An index with nothing but genesis at most.
pub open spec fn is_empty(x: IndexView) -> bool {
    x.dag_tx_count == 0 && x.vertex_count <= 1
}

/// The demo graph before its transfer: genesis, and the credit of the sender.
pub open spec fn demo_base(genesis_sig: Seq<u8>, sender: Address) -> DagView {
    DagView::blank().attached(genesis_tx(genesis_sig), true, Seq::empty()).0.funded(
        sender,
        DEMO_CREDIT,
    )
}

/// The transfer of the demo on `d`, signed with the key `sender_key`.
pub open spec fn is_demo_transfer(
    d: DagView,
    sender_key: Seq<u8>,
    recipient: Address,
    t: TxView,
) -> bool {
    &&& parents_admissible(d.graph, t.parent_1, t.parent_2)
    &&& t == assembled(
        t.parent_1,
        t.parent_2,
        sender_key,
        recipient,
        DEMO_AMOUNT,
        FIXED_TRANSACTION_FEE,
        d.ledger.nonce(address_of(sender_key)),
        t.signature,
    )
    &&& t.signature_holds()
}

/// The index of the demo: genesis, the credit of the first key, and its transfer to the
/// second one, with the first subsidy minted.
pub open spec fn shows_demo(
    x: IndexView,
    genesis_sig: Seq<u8>,
    sender_key: Seq<u8>,
    recipient_key: Seq<u8>,
    t: TxView,
) -> bool {
    let base = demo_base(genesis_sig, address_of(sender_key));
    let (d, fault) = base.attached(t, true, Seq::empty());
    &&& is_demo_transfer(base, sender_key, address_of(recipient_key), t)
    &&& fault is None
    &&& x == IndexView::of(d)
    &&& d.graph.order == seq![genesis_hash(), t.id]
    &&& d.ledger.count == 1
    &&& d.ledger.supply == tx_subsidy(0, 0)
}

/// Whether an index shows the demo of some pair of keys.
pub open spec fn is_demo(x: IndexView) -> bool {
    exists|genesis_sig: Seq<u8>, sender_key: Seq<u8>, recipient_key: Seq<u8>, t: TxView| #[trigger]
        shows_demo(x, genesis_sig, sender_key, recipient_key, t)
}

/// Attaches the demo transfer and indexes the graph, where the index is empty and the
/// transfer attaches; `false` and an unchanged index elsewhere.
pub fn index_demo(api: &mut ExplorerApi, dag: KronDAG, tx: DagTransaction) -> (r: bool)
    requires
        old(api).wf(),
        dag.wf(),
    ensures
        final(api).wf(),
        ({
            let (d, fault) = dag@.attached(tx@, true, tx@.relay_nodes);
            &&& r == (is_empty(old(api)@) && fault is None)
            &&& final(api)@ == (if r {
                IndexView::of(d)
            } else {
                old(api)@
            })
        }),
{
    let stats = api.get_network_stats();
    if stats.dag_tx_count > 0 || stats.vertex_count > 1 {
        return false;
    }
    let mut dag = dag;
    match dag.attach_and_verify_tx(tx) {
        Ok(()) => {
            api.sync_from_dag(&dag);
            true
        },
        Err(_) => false,
    }
}

/// Indexes a graph with one demo transfer where the index is empty. `false` where it is
/// not, and where the transfer could not be signed or attached.
pub fn seed_demo_if_empty(api: &mut ExplorerApi) -> (r: bool)
    requires
        old(api).wf(),
    ensures
        final(api).wf(),
        !r ==> final(api)@ == old(api)@,
        r ==> is_demo(final(api)@) && is_empty(old(api)@),
{
    let stats = api.get_network_stats();
    if stats.dag_tx_count > 0 || stats.vertex_count > 1 {
        return false;
    }
    let mut rng = seeded_rng(DEMO_SEED);
    let alice = generate_kron_wallet_from_rng(&mut rng);
    let bob = generate_kron_wallet_from_rng(&mut rng);
    let mut dag = match KronDAG::with_genesis() {
        Ok(d) => d,
        Err(_) => {
            return false;
        },
    };
    let ghost genesis_sig = choose|sig: Seq<u8>|
        dag@ == #[trigger] DagView::blank().attached(genesis_tx(sig), true, Seq::empty()).0;
    let sender = *alice.address().as_bytes();
    let recipient = *bob.address().as_bytes();
    dag.credit_account(sender, DEMO_CREDIT);
    let ghost base = dag@;
    let tx = match dag.compose_and_sign_with_rng(&alice, recipient, DEMO_AMOUNT, &mut rng) {
        Ok(tx) => tx,
        Err(_) => {
            return false;
        },
    };
    let ghost t = tx@;
    proof {
        assert(base == demo_base(genesis_sig, sender));
        assert(base.graph.tips.contains(genesis_hash()));
        assert(t.relay_nodes =~= Seq::<Address>::empty());
    }
    if !index_demo(api, dag, tx) {
        return false;
    }
    proof {
        lemma_demo_graph(base, t);
        assert(shows_demo(api@, genesis_sig, alice.public_bytes(), bob.public_bytes(), t));
    }
    true
}

/// What the demo transfer leaves of a graph of genesis alone.
proof fn lemma_demo_graph(base: DagView, t: TxView)
    requires
        base.graph.sound(),
        base.graph.order == seq![genesis_hash()],
        base.ledger.supply == 0,
        base.ledger.count == 0,
        t.relay_nodes == Seq::<Address>::empty(),
        base.attached(t, true, Seq::empty()).1 is None,
    ensures
        ({
            let d = base.attached(t, true, Seq::empty()).0;
            &&& d.graph.order == seq![genesis_hash(), t.id]
            &&& d.ledger.count == 1
            &&& d.ledger.supply == tx_subsidy(0, 0)
        }),
{
    let d = base.attached(t, true, Seq::empty()).0;
    assert(!t.is_genesis()) by {
        if t.is_genesis() {
            assert(base.graph.order.contains(base.graph.order[0]));
            assert(base.graph.vertices.contains_key(base.graph.order[0]));
            assert(base.graph.vertices.dom().contains(base.graph.order[0]));
        }
    }
    assert(d.graph.order =~= seq![genesis_hash(), t.id]);
}

/// The demo transfer attaches, whatever keys are drawn, unless the sender is the key of
/// genesis or a hash collides: genesis is no null parent, and the transfer is not genesis.
pub proof fn law_demo_transfer_attaches(
    genesis_sig: Seq<u8>,
    sender_key: Seq<u8>,
    recipient: Address,
    t: TxView,
)
    requires
        genesis_tx(genesis_sig).signature_holds(),
        address_of(sender_key) != address_of(genesis_key()),
        genesis_hash() != NULL_PARENT,
        t.id != genesis_hash(),
        is_demo_transfer(
            demo_base(genesis_sig, address_of(sender_key)),
            sender_key,
            recipient,
            t,
        ),
    ensures
        demo_base(genesis_sig, address_of(sender_key)).attached(t, true, Seq::empty()).1 is None,
{
    let blank = DagView::blank();
    let g = genesis_tx(genesis_sig);
    let sender = address_of(sender_key);
    assert(g.id == genesis_hash()) by {
        assert(g.unsigned() == genesis_tx(Seq::empty()).unsigned());
    }
    assert(blank.graph.vertex_fault(g) is None);
    let laid = blank.attached(g, true, Seq::empty()).0;
    let base = demo_base(genesis_sig, sender);
    assert(laid.graph.tips =~= set![genesis_hash()]);
    assert(base.graph == laid.graph);
    assert(base.graph.tips.contains(genesis_hash()));
    assert(t.parent_1 == genesis_hash() && t.parent_2 == genesis_hash());
    assert(base.graph.vertices =~= map![genesis_hash() => g]);
    assert(base.ledger.nonce(sender) == 0);
    assert(base.ledger.balance(sender) == DEMO_CREDIT);
    assert(base.graph.vertex_fault(t) is None);
    assert(base.ledger.transfer_fault(t) is None);
    assert(tx_subsidy(0, 0) <= INITIAL_TX_SUBSIDY) by {
        vstd::arithmetic::power2::lemma2_to64();
    }
}

} // verus!
