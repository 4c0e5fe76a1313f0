//! Have/Need reconciliation over a short tip inventory.
//!
//! Each side advertises its tips plus a bounded recent ancestor set. Need lists
//! the advertised vertices that are not stored here; Have lists the local tip
//! subgraph that the remote did not advertise.

use vstd::prelude::*;

use crate::bytes::same;
use crate::dag::engine::{closure_of, KronDAG};
use crate::dag::model::{lemma_parents_stored, parents_in, GraphView};
use crate::dag::tx::{TxHash, NULL_PARENT};
use crate::table::{ascending, lemma_ordered, ordered, KeySet};
use crate::types::Address;

verus! {

/// Hard cap on advertised tip and recent hashes.
pub const MAX_INVENTORY_HASHES: usize = 4_096;

/// Compact advertisement of a phone's DAG frontier. Faucet credits are local and
/// never advertised.
#[derive(Debug, PartialEq, Eq)]
pub struct SyncInventory {
    pub tips: Vec<TxHash>,
    /// Recent hashes (tip parent closures, genesis left out).
    pub recent: Vec<TxHash>,
    pub peer_id: Option<Address>,
}

/// What a graph's recent hashes are: everything that the bounded walks from the
/// tips touch, without genesis.
pub open spec fn recent_of(g: GraphView) -> Set<TxHash> {
    Set::new(
        |h: TxHash|
            h != g.genesis_id() && h != NULL_PARENT && exists|t: TxHash|
                g.tips.contains(t) && #[trigger] closure_of(g, t).contains(h),
    )
}

/// At most the first `n` hashes.
pub open spec fn leading(s: Seq<TxHash>, n: int) -> Seq<TxHash> {
    if s.len() <= n {
        s
    } else {
        s.take(n)
    }
}

/// The tips that a graph advertises.
pub open spec fn advertised_tips(g: GraphView) -> Seq<TxHash> {
    leading(ordered(g.tips), MAX_INVENTORY_HASHES as int)
}

/// The recent hashes that a graph advertises, in the room that its tips leave.
pub open spec fn advertised_recent(g: GraphView) -> Seq<TxHash> {
    leading(ordered(recent_of(g)), MAX_INVENTORY_HASHES - advertised_tips(g).len())
}

impl SyncInventory {
    pub fn new(tips: Vec<TxHash>) -> (r: Self)
        ensures
            r.tips == tips,
            r.recent@.len() == 0,
            r.peer_id is None,
    {
        SyncInventory { tips, recent: Vec::new(), peer_id: None }
    }

    /// The inventory of local tips and their parent closures, both in ascending
    /// order and together within the cap. Genesis is shared and not listed.
    pub fn from_dag(dag: &KronDAG, peer_id: Address) -> (r: Self)
        requires
            dag.wf(),
        ensures
            r.tips@ == advertised_tips(dag@.graph),
            r.recent@ == advertised_recent(dag@.graph),
            r.tips@.len() + r.recent@.len() <= MAX_INVENTORY_HASHES,
            r.peer_id == Some(peer_id),
    {
        let tips = dag.tip_list();
        let genesis = dag.genesis_id();
        let ghost g = dag@.graph;
        let mut seen: KeySet<32> = KeySet::new();
        let mut i: usize = 0;
        while i < tips.len()
            invariant
                dag.wf(),
                g == dag@.graph,
                genesis == g.genesis_id(),
                i <= tips@.len(),
                seen.wf(),
                forall|h: TxHash| #[trigger]
                    seen@.contains(h) <==> h != genesis && h != NULL_PARENT && exists|k: int|
                        0 <= k < i && closure_of(g, #[trigger] tips@[k]).contains(h),
            decreases tips@.len() - i,
        {
            let closure = dag.parent_closure(tips[i]);
            let ghost base = seen@;
            let n: usize = closure.len();
            proof {
                closure.lemma_listing();
            }
            let mut j: usize = 0;
            while j < n
                invariant
                    closure.wf(),
                    n == closure.listing().len(),
                    j <= n,
                    seen.wf(),
                    forall|h: TxHash| #[trigger]
                        seen@.contains(h) <==> base.contains(h) || (h != genesis && h != NULL_PARENT
                            && closure.listing().take(j as int).contains(h)),
                decreases n - j,
            {
                let h = closure.at(j);
                let ghost before = closure.listing().take(j as int);
                let ghost after = closure.listing().take(j + 1);
                proof {
                    assert(after =~= before.push(h));
                    assert forall|x: TxHash| #[trigger] after.contains(x) <==> (before.contains(x) || x
                        == h) by {
                        lemma_push_contains(before, h, x);
                    }
                }
                if !same(&h, &genesis) && !same(&h, &NULL_PARENT) {
                    seen.insert(h);
                }
                j += 1;
            }
            proof {
                assert(closure.listing().take(j as int) =~= closure.listing());
                assert(closure@ == closure_of(g, tips@[i as int]));
                assert forall|h: TxHash| #[trigger] seen@.contains(h) <==> h != genesis && h
                    != NULL_PARENT && exists|k: int|
                    0 <= k < i + 1 && closure_of(g, #[trigger] tips@[k]).contains(h) by {
                    if closure@.contains(h) {
                        assert(closure_of(g, tips@[i as int]).contains(h));
                        assert(closure.listing().to_set().contains(h));
                    }
                    if seen@.contains(h) && base.contains(h) {
                        let k = choose|k: int|
                            0 <= k < i && closure_of(g, #[trigger] tips@[k]).contains(h);
                        assert(closure_of(g, tips@[k]).contains(h));
                    }
                }
            }
            i += 1;
        }
        let recent = seen.to_vec();
        proof {
            assert(recent@.to_set() =~= recent_of(g)) by {
                assert forall|h: TxHash| #[trigger] recent@.to_set().contains(h) <==> recent_of(
                    g,
                ).contains(h) by {
                    if seen@.contains(h) {
                        let k = choose|k: int|
                            0 <= k < tips@.len() && closure_of(g, #[trigger] tips@[k]).contains(h);
                        assert(tips@.to_set().contains(tips@[k]));
                    }
                    if recent_of(g).contains(h) {
                        let t = choose|t: TxHash|
                            g.tips.contains(t) && #[trigger] closure_of(g, t).contains(h);
                        assert(tips@.to_set().contains(t));
                        let k = choose|k: int| 0 <= k < tips@.len() && tips@[k] == t;
                        assert(closure_of(g, tips@[k]).contains(h));
                    }
                }
            }
        }
        proof {
            lemma_ordered(tips@);
            lemma_ordered(recent@);
        }
        let mut tips = tips;
        let mut recent = recent;
        if tips.len() > MAX_INVENTORY_HASHES {
            tips.truncate(MAX_INVENTORY_HASHES);
        }
        let room: usize = MAX_INVENTORY_HASHES - tips.len();
        if recent.len() > room {
            recent.truncate(room);
        }
        assert(tips@ =~= advertised_tips(g));
        assert(recent@ =~= advertised_recent(g));
        SyncInventory { tips, recent, peer_id: Some(peer_id) }
    }

    /// Everything that is advertised.
    pub open spec fn listed(&self) -> Set<TxHash> {
        self.tips@.to_set().union(self.recent@.to_set())
    }

    /// Tips and recent hashes, each once.
    pub fn advertised(&self) -> (r: KeySet<32>)
        ensures
            r.wf(),
            r@ == self.listed(),
    {
        let mut set: KeySet<32> = KeySet::new();
        add_all(&mut set, &self.tips);
        add_all(&mut set, &self.recent);
        assert(set@ =~= self.listed());
        set
    }
}

impl Clone for SyncInventory {
    fn clone(&self) -> (r: Self)
        ensures
            r.tips@ == self.tips@,
            r.recent@ == self.recent@,
            r.peer_id == self.peer_id,
    {
        SyncInventory {
            tips: crate::table::copy_keys(&self.tips),
            recent: crate::table::copy_keys(&self.recent),
            peer_id: self.peer_id,
        }
    }
}

proof fn lemma_push_contains(s: Seq<TxHash>, x: TxHash, h: TxHash)
    ensures
        s.push(x).contains(h) <==> (s.contains(h) || h == x),
{
    let p = s.push(x);
    assert(p[s.len() as int] == x);
    if s.contains(h) {
        let k = choose|k: int| 0 <= k < s.len() && s[k] == h;
        assert(p[k] == h);
    }
    if p.contains(h) && h != x {
        let k = choose|k: int| 0 <= k < p.len() && p[k] == h;
        assert(s[k] == h);
    }
}

fn add_all(set: &mut KeySet<32>, list: &Vec<TxHash>)
    requires
        old(set).wf(),
    ensures
        final(set).wf(),
        final(set)@ == old(set)@.union(list@.to_set()),
{
    let ghost start = set@;
    let mut i: usize = 0;
    assert(start.union(list@.take(0).to_set()) =~= start);
    while i < list.len()
        invariant
            i <= list@.len(),
            set.wf(),
            set@ == start.union(list@.take(i as int).to_set()),
        decreases list@.len() - i,
    {
        set.insert(list[i]);
        proof {
            assert(list@.take(i + 1) =~= list@.take(i as int).push(list@[i as int]));
            list@.take(i as int).lemma_push_to_set_commute(list@[i as int]);
        }
        i += 1;
        assert(set@ =~= start.union(list@.take(i as int).to_set()));
    }
    assert(list@.take(i as int) =~= list@);
}

/// First: Need (to download). Second: Have (to send). Both in ascending order.
pub fn compute_dag_diff(local_dag: &KronDAG, remote_inventory: &SyncInventory) -> (r: (
    Vec<TxHash>,
    Vec<TxHash>,
))
    requires
        local_dag.wf(),
    ensures
        ascending(r.0@),
        r.0@.to_set() == needed(local_dag@.graph, remote_inventory.listed()),
        ascending(r.1@),
        is_have(local_dag@.graph, remote_inventory.listed(), r.1@.to_set()),
{
    let need = collect_need(local_dag, remote_inventory);
    let have = collect_have(local_dag, &remote_inventory.advertised());
    (need, have)
}

/// The advertised vertices that are not stored.
pub open spec fn needed(g: GraphView, listed: Set<TxHash>) -> Set<TxHash> {
    Set::new(|h: TxHash| listed.contains(h) && h != NULL_PARENT && !g.vertices.contains_key(h))
}

fn collect_need(local: &KronDAG, remote: &SyncInventory) -> (r: Vec<TxHash>)
    requires
        local.wf(),
    ensures
        ascending(r@),
        r@.to_set() == needed(local@.graph, remote.listed()),
{
    let ghost g = local@.graph;
    let mut need: KeySet<32> = KeySet::new();
    let mut i: usize = 0;
    assert(needed(g, remote.tips@.take(0).to_set()) =~= Set::<TxHash>::empty());
    while i < remote.tips.len()
        invariant
            local.wf(),
            g == local@.graph,
            i <= remote.tips@.len(),
            need.wf(),
            need@ == needed(g, remote.tips@.take(i as int).to_set()),
        decreases remote.tips@.len() - i,
    {
        let tip = remote.tips[i];
        proof {
            assert(remote.tips@.take(i + 1) =~= remote.tips@.take(i as int).push(tip));
            remote.tips@.take(i as int).lemma_push_to_set_commute(tip);
        }
        if !same(&tip, &NULL_PARENT) {
            match local.get(&tip) {
                Some(tx) => {
                    // A stored tip may still name a parent that is missing here.
                    proof {
                        lemma_parents_stored(g, tip);
                    }
                    if !same(&tx.parent_1, &NULL_PARENT) && !local.contains(&tx.parent_1) {
                        need.insert(tx.parent_1);
                    }
                    if !same(&tx.parent_2, &NULL_PARENT) && !local.contains(&tx.parent_2) {
                        need.insert(tx.parent_2);
                    }
                },
                None => {
                    need.insert(tip);
                },
            }
        }
        i += 1;
        assert(need@ =~= needed(g, remote.tips@.take(i as int).to_set()));
    }
    assert(remote.tips@.take(i as int) =~= remote.tips@);
    let ghost tips = remote.tips@.to_set();
    let mut j: usize = 0;
    assert(tips.union(remote.recent@.take(0).to_set()) =~= tips);
    while j < remote.recent.len()
        invariant
            local.wf(),
            g == local@.graph,
            j <= remote.recent@.len(),
            need.wf(),
            need@ == needed(g, tips.union(remote.recent@.take(j as int).to_set())),
        decreases remote.recent@.len() - j,
    {
        let h = remote.recent[j];
        proof {
            assert(remote.recent@.take(j + 1) =~= remote.recent@.take(j as int).push(h));
            remote.recent@.take(j as int).lemma_push_to_set_commute(h);
        }
        if !same(&h, &NULL_PARENT) && !local.contains(&h) {
            need.insert(h);
        }
        j += 1;
        assert(need@ =~= needed(g, tips.union(remote.recent@.take(j as int).to_set())));
    }
    assert(remote.recent@.take(j as int) =~= remote.recent@);
    need.to_vec()
}

/// Whether a vertex stops the downward collection: genesis, an advertised hash,
/// or one that is not stored.
pub open spec fn stops(g: GraphView, listed: Set<TxHash>, h: TxHash) -> bool {
    ||| h == NULL_PARENT
    ||| h == g.genesis_id()
    ||| listed.contains(h)
    ||| !g.vertices.contains_key(h)
}

/// `have` is what can be reached upward from the tips without passing a stop:
/// it holds every tip and every parent of a member that is no stop, and no
/// proper subset does.
pub open spec fn is_have(g: GraphView, listed: Set<TxHash>, have: Set<TxHash>) -> bool {
    &&& have_closed(g, listed, have)
    &&& forall|s: Set<TxHash>| #[trigger] have_closed(g, listed, s) ==> have.subset_of(s)
    &&& forall|h: TxHash| #[trigger] have.contains(h) ==> !stops(g, listed, h)
}

pub open spec fn have_closed(g: GraphView, listed: Set<TxHash>, s: Set<TxHash>) -> bool {
    &&& forall|t: TxHash| #[trigger] g.tips.contains(t) && !stops(g, listed, t) ==> s.contains(t)
    &&& forall|h: TxHash, p: TxHash| #[trigger]
        s.contains(h) && #[trigger] parents_in(g.vertices, h).contains(p) && !stops(g, listed, p)
            ==> s.contains(p)
}

/// Everything on the stack is owed to every closed set, unless it stops.
spec fn owed(g: GraphView, listed: Set<TxHash>, stack: Seq<TxHash>) -> bool {
    forall|s: Set<TxHash>, i: int|
        #![trigger have_closed(g, listed, s), stack[i]]
        have_closed(g, listed, s) && 0 <= i < stack.len() && !stops(g, listed, stack[i])
            ==> s.contains(stack[i])
}

/// The parents of what was collected are seen or still on the stack.
spec fn pending(g: GraphView, have: Set<TxHash>, seen: Set<TxHash>, stack: Seq<TxHash>) -> bool {
    forall|h: TxHash, p: TxHash| #[trigger]
        have.contains(h) && #[trigger] parents_in(g.vertices, h).contains(p) ==> seen.contains(p)
            || stack.contains(p)
}

fn collect_have(local: &KronDAG, advertised: &KeySet<32>) -> (r: Vec<TxHash>)
    requires
        local.wf(),
        advertised.wf(),
    ensures
        ascending(r@),
        is_have(local@.graph, advertised@, r@.to_set()),
{
    let ghost g = local@.graph;
    let ghost listed = advertised@;
    let genesis = local.genesis_id();
    let mut stack = local.tip_list();
    let mut have: KeySet<32> = KeySet::new();
    let mut seen: KeySet<32> = KeySet::new();
    proof {
        assert forall|s: Set<TxHash>, i: int|
            #![trigger have_closed(g, listed, s), stack@[i]]
            have_closed(g, listed, s) && 0 <= i < stack@.len() && !stops(
                g,
                listed,
                stack@[i],
            ) implies s.contains(stack@[i]) by {
            assert(stack@.to_set().contains(stack@[i]));
            assert(g.tips.contains(stack@[i]));
        }
        assert forall|t: TxHash| #[trigger] g.tips.contains(t) implies stack@.contains(t) by {
            assert(stack@.to_set().contains(t));
        }
    }
    let ghost all = g.vertices.dom();
    loop
        invariant
            local.wf(),
            advertised.wf(),
            g == local@.graph,
            listed == advertised@,
            genesis == g.genesis_id(),
            all == g.vertices.dom(),
            all.finite(),
            have.wf(),
            seen.wf(),
            owed(g, listed, stack@),
            pending(g, have@, seen@, stack@),
            have@.subset_of(seen@),
            have@.subset_of(all),
            forall|h: TxHash| #[trigger] have@.contains(h) ==> !stops(g, listed, h),
            forall|h: TxHash| #[trigger]
                seen@.contains(h) && !stops(g, listed, h) ==> have@.contains(h),
            forall|s: Set<TxHash>| #[trigger]
                have_closed(g, listed, s) ==> have@.subset_of(s),
            forall|t: TxHash| #[trigger]
                g.tips.contains(t) ==> seen@.contains(t) || stack@.contains(t),
        ensures
            stack@.len() == 0,
        decreases all.difference(have@).len(), stack@.len(),
    {
        let ghost before = stack@;
        let h = match stack.pop() {
            Some(h) => h,
            None => {
                break;
            },
        };
        let ghost rest = stack@;
        proof {
            assert(before =~= rest.push(h));
            assert(before[rest.len() as int] == h);
            assert forall|x: TxHash| #[trigger] before.contains(x) <==> (rest.contains(x) || x == h) by {
                lemma_push_contains(rest, h, x);
            }
            assert forall|s: Set<TxHash>, i: int|
                #![trigger have_closed(g, listed, s), rest[i]]
                have_closed(g, listed, s) && 0 <= i < rest.len() && !stops(
                    g,
                    listed,
                    rest[i],
                ) implies s.contains(rest[i]) by {
                assert(before[i] == rest[i]);
            }
        }
        if !seen.insert(h) {
            continue;
        }
        if same(&h, &NULL_PARENT) || same(&h, &genesis) || advertised.contains(&h) {
            continue;
        }
        if let Some(tx) = local.get(&h) {
            let ghost have0 = have@;
            have.insert(h);
            if !same(&tx.parent_1, &NULL_PARENT) {
                stack.push(tx.parent_1);
            }
            if !same(&tx.parent_2, &NULL_PARENT) && !same(&tx.parent_2, &tx.parent_1) {
                stack.push(tx.parent_2);
            }
            proof {
                let ps = parents_in(g.vertices, h);
                assert(stack@ =~= rest + ps);
                assert(!stops(g, listed, h));
                assert forall|s: Set<TxHash>| #[trigger] have_closed(g, listed, s) implies have@.subset_of(
                    s,
                ) by {
                    assert(s.contains(before[rest.len() as int]));
                }
                assert forall|s: Set<TxHash>, i: int|
                    #![trigger have_closed(g, listed, s), stack@[i]]
                    have_closed(g, listed, s) && 0 <= i < stack@.len() && !stops(
                        g,
                        listed,
                        stack@[i],
                    ) implies s.contains(stack@[i]) by {
                    if i < rest.len() {
                        assert(stack@[i] == rest[i]);
                    } else {
                        assert(stack@[i] == ps[i - rest.len()]);
                        assert(ps.contains(stack@[i]));
                        assert(s.contains(before[rest.len() as int]));
                        assert(s.contains(h));
                    }
                }
                assert forall|a: TxHash, p: TxHash| #[trigger]
                    have@.contains(a) && #[trigger] parents_in(g.vertices, a).contains(p) implies seen@.contains(
                    p,
                ) || stack@.contains(p) by {
                    if a == h {
                        let k = choose|k: int| 0 <= k < ps.len() && ps[k] == p;
                        assert(stack@[rest.len() + k] == p);
                    } else if rest.contains(p) {
                        let k = choose|k: int| 0 <= k < rest.len() && rest[k] == p;
                        assert(stack@[k] == p);
                    }
                }
                assert forall|t: TxHash| #[trigger] g.tips.contains(t) implies seen@.contains(t)
                    || stack@.contains(t) by {
                    if rest.contains(t) {
                        let k = choose|k: int| 0 <= k < rest.len() && rest[k] == t;
                        assert(stack@[k] == t);
                    }
                }
                assert(all.difference(have0).contains(h));
                assert(all.difference(have@) =~= all.difference(have0).remove(h));
            }
        }
    }
    let out = have.to_vec();
    proof {
        assert(stack@ =~= Seq::<TxHash>::empty());
        assert(have_closed(g, listed, have@));
    }
    out
}

/// Need never lists a vertex that is stored, nor the shared genesis.
pub proof fn law_need_is_missing(g: GraphView, listed: Set<TxHash>, h: TxHash)
    requires
        g.sound(),
        needed(g, listed).contains(h),
    ensures
        !g.vertices.contains_key(h),
        listed.contains(h),
        g.order.len() > 0 ==> h != g.genesis_id(),
{
    if g.order.len() > 0 {
        assert(g.order.contains(g.order[0]));
        assert(g.vertices.contains_key(g.order[0]));
    }
}

/// Have never lists what the remote advertised, nor the shared genesis, and
/// only stored vertices.
pub proof fn law_have_is_news(g: GraphView, listed: Set<TxHash>, have: Set<TxHash>, h: TxHash)
    requires
        is_have(g, listed, have),
        have.contains(h),
    ensures
        g.vertices.contains_key(h),
        !listed.contains(h),
        h != g.genesis_id(),
{
}

} // verus!
