//! Parents-first order of an incoming batch.

use vstd::prelude::*;

use crate::bytes::same;
use crate::dag::engine::{list_views, set_views, tx_views, KronDAG};
use crate::dag::model::kids_at;
use crate::dag::tx::{DagTransaction, TxHash, TxView, NULL_PARENT};
use crate::table::{ascending, lemma_ascending_distinct, lemma_ordered, lemma_ordered_set, ordered,
    KeySet, Table};

verus! {

/// The first `n` transfers by id; of two with one id the first counts.
pub open spec fn batch_of(txs: Seq<TxView>, n: nat) -> Map<TxHash, TxView>
    decreases n,
{
    if n == 0 {
        Map::empty()
    } else {
        let before = batch_of(txs, (n - 1) as nat);
        if before.contains_key(txs[n - 1].id) {
            before
        } else {
            before.insert(txs[n - 1].id, txs[n - 1])
        }
    }
}

/// Whether `p` is a parent that `k` names.
pub open spec fn names(b: Map<TxHash, TxView>, k: TxHash, p: TxHash) -> bool {
    &&& b.contains_key(k)
    &&& p != NULL_PARENT
    &&& (p == b[k].parent_1 || p == b[k].parent_2)
}

/// A parent of `k` that is neither stored nor in the batch.
pub open spec fn absent(b: Map<TxHash, TxView>, local: Set<TxHash>, k: TxHash, p: TxHash) -> bool {
    names(b, k, p) && !local.contains(p) && !b.contains_key(p)
}

/// Some transfer of the batch names `p`, which is nowhere.
pub open spec fn lacks(b: Map<TxHash, TxView>, local: Set<TxHash>, p: TxHash) -> bool {
    exists|k: TxHash| #[trigger] absent(b, local, k, p)
}

/// Every named parent is stored or in the batch.
pub open spec fn all_known(b: Map<TxHash, TxView>, local: Set<TxHash>) -> bool {
    forall|k: TxHash, p: TxHash| !(#[trigger] absent(b, local, k, p))
}

/// `k` has to wait for `p`: a parent in the batch that is not stored yet.
pub open spec fn depends(b: Map<TxHash, TxView>, local: Set<TxHash>, k: TxHash, p: TxHash) -> bool {
    names(b, k, p) && b.contains_key(p) && !local.contains(p)
}

/// `k` waits for nothing outside `done`.
pub open spec fn cleared(
    b: Map<TxHash, TxView>,
    local: Set<TxHash>,
    k: TxHash,
    done: Set<TxHash>,
) -> bool {
    forall|p: TxHash| #[trigger] depends(b, local, k, p) ==> done.contains(p)
}

/// What `id` was the last to hold back.
pub open spec fn released(
    b: Map<TxHash, TxView>,
    local: Set<TxHash>,
    id: TxHash,
    done: Set<TxHash>,
) -> Set<TxHash> {
    Set::new(|k: TxHash| depends(b, local, k, id) && cleared(b, local, k, done.insert(id)))
}

/// The line of ready ids after the entry at `at` and those behind it have released
/// what waited for them. What one entry releases joins in ascending order.
pub open spec fn grown(
    b: Map<TxHash, TxView>,
    local: Set<TxHash>,
    line: Seq<TxHash>,
    at: nat,
    fuel: nat,
) -> Seq<TxHash>
    decreases fuel,
{
    if fuel == 0 || at >= line.len() {
        line
    } else {
        grown(
            b,
            local,
            line + ordered(released(b, local, line[at as int], line.take(at as int).to_set())),
            at + 1,
            (fuel - 1) as nat,
        )
    }
}

/// The ids that wait for nothing.
pub open spec fn free_ids(b: Map<TxHash, TxView>, local: Set<TxHash>) -> Set<TxHash> {
    b.dom().filter(|k: TxHash| cleared(b, local, k, Set::empty()))
}

/// Parents-first order of a batch, as far as it goes.
pub open spec fn incoming_order(b: Map<TxHash, TxView>, local: Set<TxHash>) -> Seq<TxHash> {
    grown(b, local, ordered(free_ids(b, local)), 0, b.dom().len())
}

/// The bodies of a list of ids.
pub open spec fn batch_bodies(b: Map<TxHash, TxView>, ids: Seq<TxHash>) -> Seq<TxView> {
    ids.map_values(|id: TxHash| b[id])
}

/// What holds of the line while it grows.
pub open spec fn line_in_order(
    b: Map<TxHash, TxView>,
    local: Set<TxHash>,
    line: Seq<TxHash>,
    at: int,
) -> bool {
    &&& 0 <= at <= line.len()
    &&& line.no_duplicates()
    &&& forall|k: TxHash| #[trigger]
        line.contains(k) == (b.contains_key(k) && cleared(b, local, k, line.take(at).to_set()))
    &&& forall|i: int|
        #![trigger line[i]]
        0 <= i < line.len() ==> cleared(b, local, line[i], line.take(i).to_set())
}

proof fn lemma_line_fits(b: Map<TxHash, TxView>, local: Set<TxHash>, line: Seq<TxHash>, at: int)
    requires
        b.dom().finite(),
        line_in_order(b, local, line, at),
    ensures
        line.len() <= b.dom().len(),
{
    line.unique_seq_to_set();
    assert forall|k: TxHash| line.to_set().contains(k) implies b.dom().contains(k) by {
        assert(line.contains(k));
    }
    vstd::set_lib::lemma_len_subset(line.to_set(), b.dom());
}

proof fn lemma_line_starts(b: Map<TxHash, TxView>, local: Set<TxHash>)
    requires
        b.dom().finite(),
    ensures
        line_in_order(b, local, ordered(free_ids(b, local)), 0),
{
    let s = free_ids(b, local);
    assert(s.finite());
    lemma_ordered_set(s);
    let line = ordered(s);
    lemma_ascending_distinct(line);
    assert(line.take(0).to_set() =~= Set::empty());
    assert forall|k: TxHash| #[trigger]
        line.contains(k) == (b.contains_key(k) && cleared(b, local, k, line.take(0).to_set())) by {
        assert(line.contains(k) == line.to_set().contains(k));
    }
    assert forall|i: int| 0 <= i < line.len() implies cleared(
        b,
        local,
        #[trigger] line[i],
        line.take(i).to_set(),
    ) by {
        assert(line.contains(line[i]));
    }
}

proof fn lemma_released_finite(
    b: Map<TxHash, TxView>,
    local: Set<TxHash>,
    id: TxHash,
    done: Set<TxHash>,
)
    requires
        b.dom().finite(),
    ensures
        released(b, local, id, done).finite(),
{
    assert(released(b, local, id, done).subset_of(b.dom()));
    vstd::set_lib::lemma_len_subset(released(b, local, id, done), b.dom());
}

proof fn lemma_line_grows(b: Map<TxHash, TxView>, local: Set<TxHash>, line: Seq<TxHash>, at: int)
    requires
        b.dom().finite(),
        line_in_order(b, local, line, at),
        at < line.len(),
    ensures
        line_in_order(
            b,
            local,
            line + ordered(released(b, local, line[at], line.take(at).to_set())),
            at + 1,
        ),
{
    let id = line[at];
    let done = line.take(at).to_set();
    let s = released(b, local, id, done);
    lemma_released_finite(b, local, id, done);
    lemma_ordered_set(s);
    let fresh = ordered(s);
    lemma_ascending_distinct(fresh);
    let next = line + fresh;
    assert(line.take(at + 1) =~= line.take(at).push(id));
    line.take(at).lemma_push_to_set_commute(id);
    assert(next.take(at + 1) =~= line.take(at + 1));
    let after = done.insert(id);
    assert(next.take(at + 1).to_set() == after);
    assert(!done.contains(id)) by {
        if done.contains(id) {
            let j = choose|j: int| 0 <= j < line.take(at).len() && line.take(at)[j] == id;
            assert(line[j] == line[at]);
        }
    }
    assert forall|k: TxHash| fresh.contains(k) implies !line.contains(k) by {
        assert(fresh.to_set().contains(k));
        assert(depends(b, local, k, id));
    }
    assert(next.no_duplicates()) by {
        assert forall|i: int, j: int| 0 <= i < j < next.len() implies next[i] != next[j] by {
            if i < line.len() && j >= line.len() {
                assert(line.contains(next[i]));
                assert(fresh.contains(fresh[j - line.len()]));
            }
        }
    }
    assert forall|k: TxHash| #[trigger]
        next.contains(k) == (b.contains_key(k) && cleared(b, local, k, after)) by {
        assert(next.contains(k) == (line.contains(k) || fresh.contains(k))) by {
            if line.contains(k) {
                let i = choose|i: int| 0 <= i < line.len() && line[i] == k;
                assert(next[i] == k);
            }
            if fresh.contains(k) {
                let i = choose|i: int| 0 <= i < fresh.len() && fresh[i] == k;
                assert(next[line.len() + i] == k);
            }
            if next.contains(k) {
                let i = choose|i: int| 0 <= i < next.len() && next[i] == k;
                if i < line.len() {
                    assert(line[i] == k);
                } else {
                    assert(fresh[i - line.len()] == k);
                }
            }
        }
        assert(fresh.contains(k) == fresh.to_set().contains(k));
        if b.contains_key(k) && cleared(b, local, k, after) && !cleared(b, local, k, done) {
            let p = choose|p: TxHash| #[trigger] depends(b, local, k, p) && !done.contains(p);
            assert(after.contains(p));
            assert(p == id);
            assert(s.contains(k));
        }
    }
    assert forall|i: int| 0 <= i < next.len() implies cleared(
        b,
        local,
        #[trigger] next[i],
        next.take(i).to_set(),
    ) by {
        if i < line.len() {
            assert(next.take(i) =~= line.take(i));
            assert(next[i] == line[i]);
        } else {
            let k = next[i];
            assert(fresh[i - line.len()] == k);
            assert(fresh.to_set().contains(k));
            assert forall|p: TxHash| #[trigger] depends(b, local, k, p) implies next.take(
                i,
            ).to_set().contains(p) by {
                let head = next.take(at + 1);
                assert(head.to_set().contains(p));
                let m = choose|m: int| 0 <= m < head.len() && head[m] == p;
                assert(next.take(i)[m] == p);
            }
        }
    }
}

proof fn lemma_grown_in_order(
    b: Map<TxHash, TxView>,
    local: Set<TxHash>,
    line: Seq<TxHash>,
    at: nat,
    fuel: nat,
)
    requires
        b.dom().finite(),
        line_in_order(b, local, line, at as int),
        fuel + at == b.dom().len(),
    ensures
        line_in_order(
            b,
            local,
            grown(b, local, line, at, fuel),
            grown(b, local, line, at, fuel).len() as int,
        ),
    decreases fuel,
{
    lemma_line_fits(b, local, line, at as int);
    if fuel == 0 || at >= line.len() {
        assert(line.take(at as int) =~= line);
    } else {
        lemma_line_grows(b, local, line, at as int);
        lemma_grown_in_order(
            b,
            local,
            line + ordered(released(b, local, line[at as int], line.take(at as int).to_set())),
            at + 1,
            (fuel - 1) as nat,
        );
    }
}

/// The order lists ids of the batch, each once, and every id behind the parents
/// that it waits for.
pub proof fn law_parents_come_first(b: Map<TxHash, TxView>, local: Set<TxHash>, i: int, p: TxHash)
    requires
        b.dom().finite(),
        0 <= i < incoming_order(b, local).len(),
    ensures
        incoming_order(b, local).no_duplicates(),
        b.contains_key(incoming_order(b, local)[i]),
        depends(b, local, incoming_order(b, local)[i], p) ==> incoming_order(b, local).take(
            i,
        ).contains(p),
{
    lemma_line_starts(b, local);
    let line = ordered(free_ids(b, local));
    lemma_grown_in_order(b, local, line, 0, b.dom().len());
    let o = incoming_order(b, local);
    assert(o.contains(o[i]));
    if depends(b, local, o[i], p) {
        assert(o.take(i).to_set().contains(p));
    }
}

/// An order that leaves ids out leaves out, with each of them, a parent that it
/// waits for: the batch has a cycle.
pub proof fn law_left_out_means_cycle(b: Map<TxHash, TxView>, local: Set<TxHash>, k: TxHash) -> (p:
    TxHash)
    requires
        b.dom().finite(),
        b.contains_key(k),
        !incoming_order(b, local).contains(k),
    ensures
        depends(b, local, k, p),
        !incoming_order(b, local).contains(p),
{
    lemma_line_starts(b, local);
    let line = ordered(free_ids(b, local));
    lemma_grown_in_order(b, local, line, 0, b.dom().len());
    let o = incoming_order(b, local);
    assert(o.take(o.len() as int) =~= o);
    let p = choose|p: TxHash| #[trigger] depends(b, local, k, p) && !o.to_set().contains(p);
    assert(o.contains(p) == o.to_set().contains(p));
    p
}

/// The order is no longer than the batch.
pub proof fn lemma_order_length(b: Map<TxHash, TxView>, local: Set<TxHash>)
    requires
        b.dom().finite(),
    ensures
        incoming_order(b, local).len() <= b.dom().len(),
{
    lemma_line_starts(b, local);
    lemma_grown_in_order(b, local, ordered(free_ids(b, local)), 0, b.dom().len());
    let o = incoming_order(b, local);
    o.unique_seq_to_set();
    assert forall|k: TxHash| o.to_set().contains(k) implies b.dom().contains(k) by {
        assert(o.contains(k));
    }
    vstd::set_lib::lemma_len_subset(o.to_set(), b.dom());
}

/// An order as long as the batch lists every id of it.
pub proof fn lemma_order_complete(b: Map<TxHash, TxView>, local: Set<TxHash>)
    requires
        b.dom().finite(),
        incoming_order(b, local).len() >= b.dom().len(),
    ensures
        forall|k: TxHash| #[trigger] incoming_order(b, local).contains(k) == b.contains_key(k),
{
    lemma_line_starts(b, local);
    lemma_grown_in_order(b, local, ordered(free_ids(b, local)), 0, b.dom().len());
    let o = incoming_order(b, local);
    o.unique_seq_to_set();
    assert forall|k: TxHash| o.to_set().contains(k) implies b.dom().contains(k) by {
        assert(o.contains(k));
    }
    vstd::set_lib::lemma_len_subset(o.to_set(), b.dom());
    vstd::set_lib::lemma_subset_equality(o.to_set(), b.dom());
    assert forall|k: TxHash| #[trigger] o.contains(k) == b.contains_key(k) by {
        assert(o.contains(k) == o.to_set().contains(k));
        assert(b.dom().contains(k) == b.contains_key(k));
    }
}

/// Where nothing in a batch has to wait, the order is complete.
pub proof fn lemma_order_of_stored(b: Map<TxHash, TxView>, local: Set<TxHash>)
    requires
        b.dom().finite(),
        forall|k: TxHash, p: TxHash| !(#[trigger] depends(b, local, k, p)),
    ensures
        incoming_order(b, local).len() == b.dom().len(),
{
    lemma_line_starts(b, local);
    lemma_grown_in_order(b, local, ordered(free_ids(b, local)), 0, b.dom().len());
    let o = incoming_order(b, local);
    o.unique_seq_to_set();
    assert forall|k: TxHash| o.to_set().contains(k) == b.dom().contains(k) by {
        assert(o.contains(k) == o.to_set().contains(k));
    }
    assert(o.to_set() =~= b.dom());
}

/// Collects the batch; of two transfers with one id the first counts.
pub(crate) fn collect_batch(txs: &Vec<DagTransaction>) -> (r: Table<32, DagTransaction>)
    ensures
        r.wf(),
        tx_views(r@) == batch_of(list_views(txs@), txs@.len()),
        forall|k: TxHash| #[trigger] r@.contains_key(k) ==> r@[k]@.id == k,
{
    let mut unique: Table<32, DagTransaction> = Table::new();
    let mut i: usize = 0;
    assert(tx_views(unique@) =~= batch_of(list_views(txs@), 0));
    while i < txs.len()
        invariant
            i <= txs@.len(),
            unique.wf(),
            tx_views(unique@) == batch_of(list_views(txs@), i as nat),
            forall|k: TxHash| #[trigger] unique@.contains_key(k) ==> unique@[k]@.id == k,
        decreases txs@.len() - i,
    {
        let id = txs[i].id;
        let ghost before = unique@;
        assert(list_views(txs@)[i as int] == txs@[i as int]@);
        if !unique.contains_key(&id) {
            let copy = txs[i].clone();
            unique.insert(id, copy);
            assert(tx_views(unique@) =~= tx_views(before).insert(id, copy@));
        }
        i += 1;
    }
    unique
}

/// Whether `tx` has to wait for its parent `p`.
fn waits_for(local: &KronDAG, unique: &Table<32, DagTransaction>, p: &TxHash) -> (r: bool)
    requires
        local.wf(),
        unique.wf(),
    ensures
        r == (*p != NULL_PARENT && unique@.contains_key(*p)
            && !local@.graph.vertices.contains_key(*p)),
{
    !same(p, &NULL_PARENT) && unique.contains_key(p) && !local.contains(p)
}

/// A parent that is nowhere, if there is one.
fn find_absent(local: &KronDAG, unique: &Table<32, DagTransaction>) -> (r: Option<TxHash>)
    requires
        local.wf(),
        unique.wf(),
    ensures
        match r {
            Some(p) => lacks(tx_views(unique@), local@.graph.vertices.dom(), p),
            None => all_known(tx_views(unique@), local@.graph.vertices.dom()),
        },
{
    broadcast use Table::lemma_listing;

    let ghost b = tx_views(unique@);
    let ghost l = local@.graph.vertices.dom();
    let n: usize = unique.len();
    let mut i: usize = 0;
    while i < n
        invariant
            local.wf(),
            unique.wf(),
            b == tx_views(unique@),
            l == local@.graph.vertices.dom(),
            n == unique.listing().len(),
            i <= n,
            forall|j: int, p: TxHash|
                0 <= j < i ==> !(#[trigger] absent(b, l, unique.listing()[j], p)),
        decreases n - i,
    {
        let tx = unique.value_at(i);
        let ghost k = unique.listing()[i as int];
        proof {
            unique.lemma_listing();
        }
        assert(b.contains_key(k) && b[k] == tx@);
        if !same(&tx.parent_1, &NULL_PARENT) && !local.contains(&tx.parent_1)
            && !unique.contains_key(&tx.parent_1) {
            assert(absent(b, l, k, tx.parent_1));
            return Some(tx.parent_1);
        }
        if !same(&tx.parent_2, &NULL_PARENT) && !local.contains(&tx.parent_2)
            && !unique.contains_key(&tx.parent_2) {
            assert(absent(b, l, k, tx.parent_2));
            return Some(tx.parent_2);
        }
        i += 1;
    }
    proof {
        assert forall|k: TxHash, p: TxHash| !(#[trigger] absent(b, l, k, p)) by {
            if absent(b, l, k, p) {
                assert(unique@.dom().contains(k));
                let j = choose|j: int| 0 <= j < unique.listing().len() && unique.listing()[j] == k;
                assert(!absent(b, l, unique.listing()[j], p));
            }
        }
    }
    None
}

fn add_dependent(t: &mut Table<32, KeySet<32>>, p: TxHash, k: TxHash)
    requires
        old(t).wf(),
        forall|h: TxHash| #[trigger] old(t)@.contains_key(h) ==> old(t)@[h].wf(),
    ensures
        final(t).wf(),
        forall|h: TxHash| #[trigger] final(t)@.contains_key(h) ==> final(t)@[h].wf(),
        set_views(final(t)@) == set_views(old(t)@).insert(
            p,
            kids_at(set_views(old(t)@), p).insert(k),
        ),
{
    let ghost before = t@;
    let mut kids = match t.remove(&p) {
        Some(s) => s,
        None => KeySet::new(),
    };
    assert(kids@ =~= kids_at(set_views(before), p));
    let _ = kids.insert(k);
    t.insert(p, kids);
    assert(set_views(t@) =~= set_views(before).insert(
        p,
        kids_at(set_views(before), p).insert(k),
    ));
}

/// For each id of the batch those that wait for it.
fn dependents_of(local: &KronDAG, unique: &Table<32, DagTransaction>) -> (r: Table<32, KeySet<32>>)
    requires
        local.wf(),
        unique.wf(),
    ensures
        r.wf(),
        forall|h: TxHash| #[trigger] r@.contains_key(h) ==> r@[h].wf(),
        forall|p: TxHash, k: TxHash| #[trigger]
            kids_at(set_views(r@), p).contains(k) == depends(
                tx_views(unique@),
                local@.graph.vertices.dom(),
                k,
                p,
            ),
{
    broadcast use Table::lemma_listing;

    let ghost b = tx_views(unique@);
    let ghost l = local@.graph.vertices.dom();
    let mut out: Table<32, KeySet<32>> = Table::new();
    let n: usize = unique.len();
    let mut i: usize = 0;
    while i < n
        invariant
            local.wf(),
            unique.wf(),
            b == tx_views(unique@),
            l == local@.graph.vertices.dom(),
            n == unique.listing().len(),
            i <= n,
            out.wf(),
            forall|h: TxHash| #[trigger] out@.contains_key(h) ==> out@[h].wf(),
            forall|p: TxHash, k: TxHash| #[trigger]
                kids_at(set_views(out@), p).contains(k) == (depends(b, l, k, p)
                    && unique.listing().take(i as int).contains(k)),
        decreases n - i,
    {
        let k = unique.key_at(i);
        let tx = unique.value_at(i);
        proof {
            unique.lemma_listing();
        }
        assert(b.contains_key(k) && b[k] == tx@);
        let ghost before = set_views(out@);
        let ghost mut mid = before;
        if waits_for(local, unique, &tx.parent_1) {
            add_dependent(&mut out, tx.parent_1, k);
        }
        proof {
            mid = set_views(out@);
            assert forall|p: TxHash, x: TxHash| #[trigger]
                kids_at(mid, p).contains(x) == (kids_at(before, p).contains(x) || (x == k && p
                    == tx@.parent_1 && depends(b, l, k, p))) by {
                assert(kids_at(before, p).contains(x) || !kids_at(before, p).contains(x));
            }
        }
        if waits_for(local, unique, &tx.parent_2) {
            add_dependent(&mut out, tx.parent_2, k);
        }
        proof {
            let done = set_views(out@);
            let keys = unique.listing();
            assert(keys.take(i + 1) =~= keys.take(i as int).push(k));
            assert forall|p: TxHash, x: TxHash| #[trigger]
                kids_at(done, p).contains(x) == (kids_at(mid, p).contains(x) || (x == k && p
                    == tx@.parent_2 && depends(b, l, k, p))) by {
                assert(kids_at(mid, p).contains(x) || !kids_at(mid, p).contains(x));
            }
            assert forall|p: TxHash, x: TxHash| #[trigger]
                kids_at(done, p).contains(x) == (depends(b, l, x, p) && keys.take(
                    i + 1,
                ).contains(x)) by {
                assert(kids_at(mid, p).contains(x) || !kids_at(mid, p).contains(x));
                assert(kids_at(before, p).contains(x) || !kids_at(before, p).contains(x));
                assert(keys.take(i as int).push(k).contains(x) == (keys.take(i as int).contains(x)
                    || x == k)) by {
                    if keys.take(i as int).contains(x) {
                        let m = choose|m: int| 0 <= m < i && keys.take(i as int)[m] == x;
                        assert(keys.take(i as int).push(k)[m] == x);
                    }
                    if x == k {
                        assert(keys.take(i as int).push(k)[i as int] == x);
                    }
                }
            }
        }
        i += 1;
    }
    proof {
        let keys = unique.listing();
        assert(keys.take(i as int) =~= keys);
        assert forall|p: TxHash, k: TxHash| #[trigger]
            kids_at(set_views(out@), p).contains(k) == depends(b, l, k, p) by {
            if depends(b, l, k, p) {
                assert(unique@.dom().contains(k));
                assert(keys.to_set().contains(k));
                assert(keys.contains(k));
            }
        }
    }
    out
}

/// Whether the id `k` waits for nothing outside `done`.
fn is_cleared(
    local: &KronDAG,
    unique: &Table<32, DagTransaction>,
    k: &TxHash,
    done: &KeySet<32>,
) -> (r: bool)
    requires
        local.wf(),
        unique.wf(),
        done.wf(),
        unique@.contains_key(*k),
    ensures
        r == cleared(tx_views(unique@), local@.graph.vertices.dom(), *k, done@),
{
    let ghost b = tx_views(unique@);
    let ghost l = local@.graph.vertices.dom();
    match unique.get(k) {
        None => false,
        Some(tx) => {
            assert(b.contains_key(*k) && b[*k] == tx@);
            if waits_for(local, unique, &tx.parent_1) && !done.contains(&tx.parent_1) {
                assert(depends(b, l, *k, tx.parent_1));
                return false;
            }
            if waits_for(local, unique, &tx.parent_2) && !done.contains(&tx.parent_2) {
                assert(depends(b, l, *k, tx.parent_2));
                return false;
            }
            true
        },
    }
}

/// Which of `keys` wait for nothing outside `done`.
fn cleared_among(
    local: &KronDAG,
    unique: &Table<32, DagTransaction>,
    keys: &Vec<TxHash>,
    done: &KeySet<32>,
) -> (r: Vec<TxHash>)
    requires
        local.wf(),
        unique.wf(),
        done.wf(),
        ascending(keys@),
        forall|k: TxHash| keys@.contains(k) ==> #[trigger] unique@.contains_key(k),
    ensures
        ascending(r@),
        forall|k: TxHash| #[trigger]
            r@.contains(k) == (keys@.contains(k) && cleared(
                tx_views(unique@),
                local@.graph.vertices.dom(),
                k,
                done@,
            )),
{
    let ghost b = tx_views(unique@);
    let ghost l = local@.graph.vertices.dom();
    let mut out: Vec<TxHash> = Vec::new();
    let mut i: usize = 0;
    while i < keys.len()
        invariant
            local.wf(),
            unique.wf(),
            done.wf(),
            b == tx_views(unique@),
            l == local@.graph.vertices.dom(),
            ascending(keys@),
            forall|k: TxHash| keys@.contains(k) ==> #[trigger] unique@.contains_key(k),
            i <= keys@.len(),
            ascending(out@),
            forall|j: int|
                0 <= j < out@.len() ==> exists|m: int|
                    0 <= m < i && #[trigger] keys@[m] == #[trigger] out@[j],
            forall|k: TxHash| #[trigger]
                out@.contains(k) == (keys@.take(i as int).contains(k) && cleared(b, l, k, done@)),
        decreases keys@.len() - i,
    {
        let k = keys[i];
        let ghost before = out@;
        assert(keys@.contains(k));
        assert(unique@.contains_key(k));
        assert(keys@.take(i + 1) =~= keys@.take(i as int).push(k));
        let take = is_cleared(local, unique, &k, done);
        if take {
            out.push(k);
            assert forall|x: int, y: int| 0 <= x < y < out@.len() implies crate::bytes::be_value(
                out@[x]@,
            ) < crate::bytes::be_value(out@[y]@) by {
                if y == before.len() {
                    let m = choose|m: int| 0 <= m < i && #[trigger] keys@[m] == before[x];
                    assert(keys@[m] == before[x] && keys@[i as int] == k);
                } else {
                    assert(before[x] == out@[x] && before[y] == out@[y]);
                }
            }
        }
        proof {
            assert forall|j: int| 0 <= j < out@.len() implies exists|m: int|
                0 <= m < i + 1 && #[trigger] keys@[m] == #[trigger] out@[j] by {
                if j < before.len() {
                    let m = choose|m: int| 0 <= m < i && #[trigger] keys@[m] == before[j];
                    assert(keys@[m] == out@[j]);
                } else {
                    assert(keys@[i as int] == out@[j]);
                }
            }
            assert forall|x: TxHash| #[trigger]
                out@.contains(x) == (keys@.take(i + 1).contains(x) && cleared(b, l, x, done@)) by {
                assert(before.contains(x) || !before.contains(x));
                lemma_contains_push(keys@.take(i as int), k, x);
                if take {
                    lemma_contains_push(before, k, x);
                }
            }
        }
        i += 1;
    }
    assert(keys@.take(i as int) =~= keys@);
    out
}

proof fn lemma_contains_push(s: Seq<TxHash>, k: TxHash, x: TxHash)
    ensures
        s.push(k).contains(x) == (s.contains(x) || x == k),
{
    if s.contains(x) {
        let m = choose|m: int| 0 <= m < s.len() && s[m] == x;
        assert(s.push(k)[m] == x);
    }
    if x == k {
        assert(s.push(k)[s.len() as int] == x);
    }
}

/// Why a batch cannot be ordered.
#[derive(Clone, Copy, Debug)]
pub enum OrderFault {
    MissingParent(TxHash),
    Cycle,
}

/// Orders the batch parents first. A parent that is neither stored nor in the
/// batch, or a cycle, is a fault.
pub fn topo_order_incoming(local: &KronDAG, txs: &Vec<DagTransaction>) -> (r: Result<
    Vec<DagTransaction>,
    OrderFault,
>)
    requires
        local.wf(),
    ensures
        ({
            let b = batch_of(list_views(txs@), txs@.len());
            let l = local@.graph.vertices.dom();
            match r {
                Ok(v) => {
                    &&& all_known(b, l)
                    &&& incoming_order(b, l).len() == b.dom().len()
                    &&& list_views(v@) == batch_bodies(b, incoming_order(b, l))
                },
                Err(OrderFault::MissingParent(p)) => lacks(b, l, p),
                Err(OrderFault::Cycle) => {
                    &&& all_known(b, l)
                    &&& incoming_order(b, l).len() < b.dom().len()
                },
            }
        }),
{
    broadcast use Table::lemma_listing;

    let unique = collect_batch(txs);
    let ghost b = tx_views(unique@);
    let ghost l = local@.graph.vertices.dom();
    assert(b.dom() =~= unique@.dom());
    if let Some(p) = find_absent(local, &unique) {
        return Err(OrderFault::MissingParent(p));
    }
    let line = ready_line(local, &unique);
    if line.len() < unique.len() {
        return Err(OrderFault::Cycle);
    }
    proof {
        lemma_line_starts(b, l);
        lemma_grown_in_order(b, l, ordered(free_ids(b, l)), 0, b.dom().len());
        lemma_line_fits(b, l, line@, line@.len() as int);
    }
    let mut out: Vec<DagTransaction> = Vec::new();
    let mut i: usize = 0;
    while i < line.len()
        invariant
            unique.wf(),
            b == tx_views(unique@),
            i <= line@.len(),
            forall|j: int| 0 <= j < line@.len() ==> b.contains_key(#[trigger] line@[j]),
            list_views(out@) == batch_bodies(b, line@.take(i as int)),
        decreases line@.len() - i,
    {
        let ghost before = out@;
        let id = line[i];
        assert(b.contains_key(line@[i as int]));
        if let Some(tx) = unique.get(&id) {
            let copy = tx.clone();
            out.push(copy);
            assert(list_views(out@) =~= list_views(before).push(copy@));
            assert(batch_bodies(b, line@.take(i + 1)) =~= batch_bodies(
                b,
                line@.take(i as int),
            ).push(copy@));
        }
        i += 1;
    }
    assert(line@.take(i as int) =~= line@);
    Ok(out)
}

/// The ids in parents-first order, as far as it goes.
fn ready_line(local: &KronDAG, unique: &Table<32, DagTransaction>) -> (r: Vec<TxHash>)
    requires
        local.wf(),
        unique.wf(),
    ensures
        r@ == incoming_order(tx_views(unique@), local@.graph.vertices.dom()),
        forall|j: int|
            0 <= j < r@.len() ==> tx_views(unique@).contains_key(#[trigger] r@[j]),
{
    broadcast use Table::lemma_listing;

    let ghost b = tx_views(unique@);
    let ghost l = local@.graph.vertices.dom();
    assert(b.dom() =~= unique@.dom());
    let waiting = dependents_of(local, unique);
    let mut done: KeySet<32> = KeySet::new();
    let keys = unique.key_list();
    let mut line = cleared_among(local, unique, &keys, &done);
    proof {
        assert forall|k: TxHash| line@.to_set().contains(k) == free_ids(b, l).contains(k) by {
            assert(line@.contains(k) == line@.to_set().contains(k));
            assert(keys@.contains(k) == keys@.to_set().contains(k));
        }
        assert(line@.to_set() =~= free_ids(b, l));
        lemma_ordered(line@);
        lemma_line_starts(b, l);
        assert(line@.take(0).to_set() =~= Set::empty());
    }
    let mut at: usize = 0;
    while at < line.len()
        invariant
            local.wf(),
            unique.wf(),
            b == tx_views(unique@),
            l == local@.graph.vertices.dom(),
            b.dom() == unique@.dom(),
            b.dom().finite(),
            waiting.wf(),
            forall|h: TxHash| #[trigger] waiting@.contains_key(h) ==> waiting@[h].wf(),
            forall|p: TxHash, k: TxHash| #[trigger]
                kids_at(set_views(waiting@), p).contains(k) == depends(b, l, k, p),
            done.wf(),
            at <= line@.len(),
            done@ == line@.take(at as int).to_set(),
            line_in_order(b, l, line@, at as int),
            at <= b.dom().len(),
            grown(b, l, line@, at as nat, (b.dom().len() - at) as nat) == incoming_order(b, l),
        decreases b.dom().len() - at,
    {
        let id = line[at];
        proof {
            lemma_line_fits(b, l, line@, at as int);
            lemma_line_grows(b, l, line@, at as int);
            lemma_released_finite(b, l, id, done@);
            assert(line@.take(at + 1) =~= line@.take(at as int).push(id));
            line@.take(at as int).lemma_push_to_set_commute(id);
        }
        let ghost before = line@;
        let ghost held = done@;
        let _ = done.insert(id);
        if let Some(kids) = waiting.get(&id) {
            let list = kids.to_vec();
            proof {
                assert(kids@ == kids_at(set_views(waiting@), id));
                assert forall|k: TxHash| list@.contains(k) implies #[trigger] unique@.contains_key(
                    k,
                ) by {
                    assert(list@.to_set().contains(k));
                    assert(kids_at(set_views(waiting@), id).contains(k));
                }
            }
            let mut fresh = cleared_among(local, unique, &list, &done);
            proof {
                assert forall|k: TxHash| fresh@.to_set().contains(k) == released(
                    b,
                    l,
                    id,
                    held,
                ).contains(k) by {
                    assert(fresh@.contains(k) == fresh@.to_set().contains(k));
                    assert(list@.contains(k) == list@.to_set().contains(k));
                    assert(kids_at(set_views(waiting@), id).contains(k) == depends(b, l, k, id));
                }
                assert(fresh@.to_set() =~= released(b, l, id, held));
                lemma_ordered(fresh@);
            }
            line.append(&mut fresh);
        } else {
            proof {
                assert forall|k: TxHash| !released(b, l, id, held).contains(k) by {
                    assert(!kids_at(set_views(waiting@), id).contains(k));
                }
                assert(Seq::<TxHash>::empty().to_set() =~= released(b, l, id, held));
                lemma_ordered(Seq::<TxHash>::empty());
                assert(line@ + Seq::<TxHash>::empty() =~= line@);
            }
        }
        proof {
            assert(line@ == before + ordered(released(b, l, id, held)));
            assert(line@.take(at + 1) =~= before.take(at + 1));
        }
        at += 1;
    }
    proof {
        assert forall|j: int| 0 <= j < line@.len() implies b.contains_key(#[trigger] line@[j]) by {
            assert(line@.contains(line@[j]));
        }
    }
    line
}

} // verus!
