//! What the weight of a vertex counts: itself and the vertices that approve it.

use vstd::prelude::*;

use crate::dag::laws::{law_unbounded_walk_is_the_ancestry, upward_closed};
use crate::dag::model::{bumped, climb, lemma_parents_stored, parents_in, real_parents, GraphView,
    ANCESTOR_WALK_BOUND};
use crate::dag::tx::{TxHash, TxView, NULL_PARENT};

verus! {

/// `d` approves `h`: whatever holds `d` and, with a vertex, its parents, holds `h`
/// too.
pub open spec fn approves(v: Map<TxHash, TxView>, d: TxHash, h: TxHash) -> bool {
    &&& d != h
    &&& forall|s: Set<TxHash>| #[trigger] upward_closed(v, s) && s.contains(d) ==> s.contains(h)
}

impl GraphView {
    /// The stored vertices that approve `h`.
    pub open spec fn approvers(self, h: TxHash) -> Set<TxHash> {
        self.vertices.dom().filter(|d: TxHash| approves(self.vertices, d, h))
    }

    /// Every weight is one, and one more per approver, as long as no walk over the
    /// ancestors was cut short.
    #[verifier::opaque]
    pub open spec fn weighed(self) -> bool {
        self.order.len() <= ANCESTOR_WALK_BOUND + 1 ==> forall|h: TxHash| #[trigger]
            self.weights.contains_key(h) ==> self.weights[h] == 1 + self.approvers(h).len()
    }
}

proof fn lemma_stored_count(g: GraphView)
    requires
        g.sound(),
    ensures
        g.vertices.dom().len() == g.order.len(),
{
    g.order.unique_seq_to_set();
    assert(g.order.to_set() =~= g.vertices.dom()) by {
        assert forall|h: TxHash| g.order.to_set().contains(h) == g.vertices.dom().contains(h) by {
            assert(g.order.contains(h) <==> g.vertices.contains_key(h));
        }
    }
}

/// What is stored is closed under parents, also once a new vertex is among the keys.
proof fn lemma_stored_is_closed(g: GraphView, v: Map<TxHash, TxView>)
    requires
        g.sound(),
        forall|h: TxHash| #[trigger] g.vertices.contains_key(h) ==> v.contains_key(h) && v[h]
            == g.vertices[h],
    ensures
        upward_closed(v, g.vertices.dom()),
{
    assert forall|h: TxHash, p: TxHash| #[trigger]
        g.vertices.dom().contains(h) && #[trigger] parents_in(v, h).contains(
            p,
        ) implies g.vertices.dom().contains(p) by {
        lemma_parents_stored(g, h);
        assert(g.vertices.contains_key(h));
        let ps = parents_in(v, h);
        let k = choose|k: int| 0 <= k < ps.len() && ps[k] == p;
        assert(p == v[h].parent_1 || p == v[h].parent_2);
        assert(p != NULL_PARENT);
    }
}

/// A walk over fewer vertices than the bound is not cut short.
proof fn lemma_walk_is_whole(
    v: Map<TxHash, TxView>,
    stack: Seq<TxHash>,
    visited: Set<TxHash>,
    steps: nat,
    all: Set<TxHash>,
)
    requires
        upward_closed(v, all),
        all.finite(),
        all.len() <= ANCESTOR_WALK_BOUND,
        visited.subset_of(all),
        visited.finite(),
        visited.len() == steps,
        forall|i: int| 0 <= i < stack.len() ==> all.contains(#[trigger] stack[i]),
    ensures
        climb(v, stack, visited, steps).1 is None,
    decreases ANCESTOR_WALK_BOUND - steps, stack.len(),
{
    if stack.len() > 0 {
        let h = stack.last();
        let rest = stack.drop_last();
        assert(all.contains(stack[stack.len() - 1]));
        if visited.contains(h) {
            lemma_walk_is_whole(v, rest, visited, steps, all);
        } else {
            assert(visited.insert(h).subset_of(all));
            vstd::set_lib::lemma_len_subset(visited.insert(h), all);
            assert(steps < ANCESTOR_WALK_BOUND);
            let next = rest + parents_in(v, h);
            assert forall|i: int| 0 <= i < next.len() implies all.contains(#[trigger] next[i]) by {
                if i < rest.len() {
                    assert(next[i] == stack[i]);
                } else {
                    assert(parents_in(v, h)[i - rest.len()] == next[i]);
                    assert(parents_in(v, h).contains(next[i]));
                }
            }
            lemma_walk_is_whole(v, next, visited.insert(h), steps + 1, all);
        }
    }
}

/// A new vertex changes nothing among the old ones.
proof fn lemma_old_approvals(g: GraphView, t: TxView, d: TxHash, h: TxHash)
    requires
        g.sound(),
        !g.vertices.contains_key(t.id),
        g.vertices.contains_key(d),
        h != t.id,
    ensures
        approves(g.with(t).vertices, d, h) == approves(g.vertices, d, h),
{
    let v = g.vertices;
    let w = g.with(t).vertices;
    if approves(v, d, h) {
        assert forall|s: Set<TxHash>| #[trigger] upward_closed(w, s) && s.contains(
            d,
        ) implies s.contains(h) by {
            assert(upward_closed(v, s)) by {
                assert forall|a: TxHash, p: TxHash| #[trigger]
                    s.contains(a) && #[trigger] parents_in(v, a).contains(p) implies s.contains(
                    p,
                ) by {
                    assert(a != t.id);
                    assert(parents_in(w, a) == parents_in(v, a));
                }
            }
        }
    }
    if approves(w, d, h) {
        assert forall|s: Set<TxHash>| #[trigger] upward_closed(v, s) && s.contains(
            d,
        ) implies s.contains(h) by {
            let u = s.remove(t.id);
            assert(upward_closed(w, u)) by {
                assert forall|a: TxHash, p: TxHash| #[trigger]
                    u.contains(a) && #[trigger] parents_in(w, a).contains(p) implies u.contains(
                    p,
                ) by {
                    assert(parents_in(w, a) == parents_in(v, a));
                    assert(s.contains(a));
                    assert(s.contains(p));
                    if v.contains_key(a) {
                        lemma_parents_stored(g, a);
                        let ps = parents_in(v, a);
                        let k = choose|k: int| 0 <= k < ps.len() && ps[k] == p;
                        assert(v.contains_key(p));
                    }
                }
            }
            assert(u.contains(d));
            assert(u.contains(h));
        }
    }
}

/// The new vertex approves what the walk from its parents visits.
proof fn lemma_new_approvals(g: GraphView, t: TxView, h: TxHash)
    requires
        g.sound(),
        g.vertex_fault(t) is None,
        !t.is_genesis(),
        climb(g.with(t).vertices, real_parents(t.parent_1, t.parent_2), Set::empty(), 0).1 is None,
        h != t.id,
    ensures
        approves(g.with(t).vertices, t.id, h) == climb(
            g.with(t).vertices,
            real_parents(t.parent_1, t.parent_2),
            Set::empty(),
            0,
        ).0.contains(h),
{
    let w = g.with(t).vertices;
    let starts = real_parents(t.parent_1, t.parent_2);
    let seen = climb(w, starts, Set::empty(), 0).0;
    law_unbounded_walk_is_the_ancestry(w, starts);
    assert(parents_in(w, t.id) == starts);
    if seen.contains(h) {
        assert forall|s: Set<TxHash>| #[trigger] upward_closed(w, s) && s.contains(
            t.id,
        ) implies s.contains(h) by {
            assert forall|i: int| 0 <= i < starts.len() implies s.contains(#[trigger] starts[i]) by {
                assert(parents_in(w, t.id).contains(starts[i]));
            }
            assert(seen.subset_of(s));
        }
    }
    if approves(w, t.id, h) {
        let s = seen.insert(t.id);
        assert(upward_closed(w, s)) by {
            assert forall|a: TxHash, p: TxHash| #[trigger]
                s.contains(a) && #[trigger] parents_in(w, a).contains(p) implies s.contains(p) by {
                if a == t.id {
                    let k = choose|k: int| 0 <= k < starts.len() && starts[k] == p;
                    assert(seen.contains(starts[k]));
                } else {
                    assert(seen.contains(a));
                }
            }
        }
        assert(s.contains(h));
    }
}

/// No graph without vertices is weighed wrongly.
pub proof fn lemma_blank_is_weighed(g: GraphView)
    requires
        g.weights == Map::<TxHash, u64>::empty(),
    ensures
        g.weighed(),
{
    reveal(GraphView::weighed);
}

/// Attaching a vertex adds one to the weight of everything that it approves, and to
/// nothing else.
pub proof fn lemma_attach_keeps_weighed(g: GraphView, t: TxView)
    requires
        g.sound(),
        g.weighed(),
        g.vertex_fault(t) is None,
    ensures
        g.with(t).weighed(),
{
    reveal(GraphView::weighed);
    let n = g.with(t);
    let id = t.id;
    let v = g.vertices;
    let w = n.vertices;
    if n.order.len() <= ANCESTOR_WALK_BOUND + 1 {
        lemma_stored_count(g);
        lemma_stored_is_closed(g, w);
        let starts = real_parents(t.parent_1, t.parent_2);
        let seen = climb(w, starts, Set::empty(), 0).0;
        if !t.is_genesis() {
            lemma_walk_is_whole(w, starts, Set::empty(), 0, v.dom());
            law_unbounded_walk_is_the_ancestry(w, starts);
            assert(seen.subset_of(v.dom())) by {
                assert forall|i: int| 0 <= i < starts.len() implies v.dom().contains(
                    #[trigger] starts[i],
                ) by {}
            }
        }
        // The new vertex is approved by nobody.
        assert(n.approvers(id) =~= Set::<TxHash>::empty()) by {
            assert forall|d: TxHash| !n.approvers(id).contains(d) by {
                if w.contains_key(d) && d != id && approves(w, d, id) {
                    assert(v.dom().contains(d));
                    assert(v.dom().contains(id));
                }
            }
        }
        assert forall|h: TxHash| #[trigger] n.weights.contains_key(h) implies n.weights[h] == 1
            + n.approvers(h).len() by {
            if h != id {
                assert(g.weights.contains_key(h));
                assert(v.contains_key(h));
                assert(!t.is_genesis()) by {
                    assert(v.dom().contains(h));
                    assert(v.dom().len() > 0);
                }
                lemma_new_approvals(g, t, h);
                let more = if seen.contains(h) {
                    g.approvers(h).insert(id)
                } else {
                    g.approvers(h)
                };
                assert(n.approvers(h) =~= more) by {
                    assert forall|d: TxHash| n.approvers(h).contains(d) == more.contains(d) by {
                        if d != id && v.contains_key(d) {
                            lemma_old_approvals(g, t, d, h);
                        }
                    }
                }
                assert(g.approvers(h).subset_of(v.dom()));
                vstd::set_lib::lemma_len_subset(g.approvers(h), v.dom());
                assert(!g.approvers(h).contains(id));
                assert(n.weights == bumped(g.weights.insert(id, 1), seen));
                assert(g.weights[h] == 1 + g.approvers(h).len());
            } else if !t.is_genesis() {
                assert(!seen.contains(id));
            }
        }
    }
}

/// Cumulative weight: in every sound graph of up to one vertex more than the walk
/// bound, a vertex weighs one and one more for each vertex that approves it.
pub proof fn law_weight_counts_approvers(g: GraphView, h: TxHash)
    requires
        g.sound(),
        g.vertices.contains_key(h),
        g.order.len() <= ANCESTOR_WALK_BOUND + 1,
    ensures
        g.weights[h] == 1 + g.approvers(h).len(),
{
    reveal(GraphView::weighed);
    assert(g.weights.contains_key(h));
}

/// The vertices up to one of the attach order are closed under parents.
proof fn lemma_prefix_is_closed(g: GraphView, n: int)
    requires
        g.sound(),
        0 <= n <= g.order.len(),
    ensures
        upward_closed(g.vertices, g.order.take(n).to_set()),
{
    let s = g.order.take(n).to_set();
    assert forall|h: TxHash, p: TxHash| #[trigger]
        s.contains(h) && #[trigger] parents_in(g.vertices, h).contains(p) implies s.contains(p) by {
        let i = choose|i: int| 0 <= i < n && g.order.take(n)[i] == h;
        assert(g.order[i] == h);
        assert(g.grounded(i));
        assert(g.order.contains(h));
        assert(g.vertices.contains_key(h));
        let t = g.vertices[h];
        let ps = parents_in(g.vertices, h);
        let k = choose|k: int| 0 <= k < ps.len() && ps[k] == p;
        if i > 0 {
            assert(g.order.take(i).contains(p));
            let j = choose|j: int| 0 <= j < i && g.order.take(i)[j] == p;
            assert(g.order.take(n)[j] == p);
            assert(g.order.take(n).contains(p));
        }
    }
}

/// Approval goes back in time: a vertex approves only vertices that were attached
/// before it. So there is no cycle.
pub proof fn law_approval_goes_back(g: GraphView, d: int, h: int)
    requires
        g.sound(),
        0 <= d < g.order.len(),
        0 <= h < g.order.len(),
        approves(g.vertices, g.order[d], g.order[h]),
    ensures
        h < d,
{
    let upto = g.order.take(d + 1);
    lemma_prefix_is_closed(g, d + 1);
    assert(upto[d] == g.order[d]);
    assert(upto.contains(g.order[d]));
    assert(upto.to_set().contains(g.order[h]));
    let k = choose|k: int| 0 <= k < upto.len() && upto[k] == g.order[h];
    assert(g.order[k] == g.order[h]);
}

/// All history begins at genesis: every other vertex approves it.
pub proof fn law_history_reaches_genesis(g: GraphView, h: TxHash)
    requires
        g.sound(),
        g.vertices.contains_key(h),
        h != g.genesis_id(),
    ensures
        approves(g.vertices, h, g.genesis_id()),
{
    assert(g.order.contains(h));
    let i = choose|i: int| 0 <= i < g.order.len() && g.order[i] == h;
    assert forall|s: Set<TxHash>| #[trigger] upward_closed(g.vertices, s) && s.contains(
        h,
    ) implies s.contains(g.genesis_id()) by {
        lemma_reaches_first(g, s, i);
    }
}

proof fn lemma_reaches_first(g: GraphView, s: Set<TxHash>, i: int)
    requires
        g.sound(),
        0 <= i < g.order.len(),
        upward_closed(g.vertices, s),
        s.contains(g.order[i]),
    ensures
        s.contains(g.order[0]),
    decreases i,
{
    if i > 0 {
        assert(g.grounded(i));
        let h = g.order[i];
        assert(g.order.contains(h));
        assert(g.vertices.contains_key(h));
        let p = g.vertices[h].parent_1;
        let ps = parents_in(g.vertices, h);
        assert(ps[0] == p);
        assert(ps.contains(p));
        assert(s.contains(p));
        let j = choose|j: int| 0 <= j < i && g.order.take(i)[j] == p;
        assert(g.order[j] == p);
        lemma_reaches_first(g, s, j);
    }
}

/// Attaching a vertex weighs it one, adds one to the weight of its second parent, in a graph of
/// up to 1,024 vertices to that of both parents, and adds no more than one to any weight, short
/// of the largest number.
pub proof fn law_attach_weighs_the_parents(g: GraphView, t: TxView, h: TxHash)
    requires
        g.sound(),
        g.order.len() > 0,
        g.vertex_fault(t) is None,
        g.vertices.contains_key(h),
        g.weights[h] < u64::MAX,
    ensures
        g.with(t).weights[t.id] == 1,
        h == t.parent_2 ==> g.with(t).weights[h] == g.weights[h] + 1,
        h == t.parent_1 && g.order.len() <= 1_024 ==> g.with(t).weights[h] == g.weights[h] + 1,
        g.weights[h] <= g.with(t).weights[h] <= g.weights[h] + 1,
{
    let n = g.with(t);
    let w = n.vertices;
    let v = g.vertices;
    assert(v.dom().contains(h));
    assert(v.dom().len() > 0);
    assert(!t.is_genesis());
    assert(h != t.id);
    let starts = real_parents(t.parent_1, t.parent_2);
    let seen = climb(w, starts, Set::empty(), 0).0;
    lemma_stored_is_closed(g, w);
    assert forall|i: int| 0 <= i < starts.len() implies v.dom().contains(#[trigger] starts[i]) by {}
    crate::dag::laws::lemma_climb_within(w, starts, Set::empty(), 0, v.dom());
    assert(!seen.contains(t.id));
    assert(n.weights == bumped(g.weights.insert(t.id, 1), seen));
    assert(g.weights.contains_key(h));
    let none = Set::<TxHash>::empty();
    let last = starts.last();
    assert(last == t.parent_2);
    lemma_walk_keeps(w, starts.drop_last() + parents_in(w, last), none.insert(last), 1);
    assert(seen.contains(t.parent_2));
    if g.order.len() <= 1_024 {
        lemma_stored_count(g);
        lemma_walk_is_whole(w, starts, none, 0, v.dom());
        law_unbounded_walk_is_the_ancestry(w, starts);
        assert(starts[0] == t.parent_1);
    }
}

proof fn lemma_walk_keeps(
    v: Map<TxHash, TxView>,
    stack: Seq<TxHash>,
    visited: Set<TxHash>,
    steps: nat,
)
    ensures
        visited.subset_of(climb(v, stack, visited, steps).0),
    decreases ANCESTOR_WALK_BOUND - steps, stack.len(),
{
    if stack.len() > 0 {
        let h = stack.last();
        let rest = stack.drop_last();
        if visited.contains(h) {
            lemma_walk_keeps(v, rest, visited, steps);
        } else if steps < ANCESTOR_WALK_BOUND {
            lemma_walk_keeps(v, rest + parents_in(v, h), visited.insert(h), steps + 1);
        }
    }
}

/// In a graph of up to 1,025 vertices a weight is one and one more per approving vertex.
pub proof fn law_weight_counts_up_to_a_thousand(g: GraphView, h: TxHash)
    requires
        g.sound(),
        g.vertices.contains_key(h),
        g.order.len() <= 1_025,
    ensures
        g.weights[h] == 1 + g.vertices.dom().filter(
            |d: TxHash| approves(g.vertices, d, h),
        ).len(),
{
    law_weight_counts_approvers(g, h);
}

} // verus!
