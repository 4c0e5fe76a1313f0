//! Ordered tables and sets keyed by fixed-width byte strings.
//!
//! Keys stand in ascending big-endian order, so a walk by index visits them in
//! that order and a lookup is a binary search.

use vstd::prelude::*;

use crate::bytes::{be_value, lemma_key_injective, less, same};

verus! {

/// Keys in strictly ascending big-endian order.
pub open spec fn ascending<const N: usize>(keys: Seq<[u8; N]>) -> bool {
    forall|i: int, j: int|
        #![trigger keys[i], keys[j]]
        0 <= i < j < keys.len() ==> be_value(keys[i]@) < be_value(keys[j]@)
}

pub proof fn lemma_ascending_distinct<const N: usize>(keys: Seq<[u8; N]>)
    requires
        ascending(keys),
    ensures
        keys.no_duplicates(),
{
    assert forall|i: int, j: int| 0 <= i < keys.len() && 0 <= j < keys.len() && i != j implies keys[i]
        != keys[j] by {
        if i < j {
            assert(be_value(keys[i]@) < be_value(keys[j]@));
        } else {
            assert(be_value(keys[j]@) < be_value(keys[i]@));
        }
    }
}

/// The keys of a finite set in ascending order.
pub open spec fn ordered<const N: usize>(s: Set<[u8; N]>) -> Seq<[u8; N]> {
    choose|q: Seq<[u8; N]>| #[trigger] ascending(q) && q.to_set() == s
}

/// A set has one ascending listing.
pub proof fn lemma_ascending_unique<const N: usize>(a: Seq<[u8; N]>, b: Seq<[u8; N]>)
    requires
        ascending(a),
        ascending(b),
        a.to_set() == b.to_set(),
    ensures
        a == b,
    decreases a.len(),
{
    lemma_ascending_distinct(a);
    lemma_ascending_distinct(b);
    a.unique_seq_to_set();
    b.unique_seq_to_set();
    if a.len() == 0 {
        assert(b.len() == 0);
        assert(a =~= b);
    } else {
        let x = a.last();
        let y = b.last();
        assert(a.to_set().contains(x));
        assert(b.to_set().contains(y));
        let i = choose|i: int| 0 <= i < a.len() && a[i] == y;
        let j = choose|j: int| 0 <= j < b.len() && b[j] == x;
        assert(a[i] == y && b[j] == x);
        if x != y {
            assert(i < a.len() - 1 && j < b.len() - 1);
            assert(be_value(a[i]@) < be_value(a[a.len() - 1]@));
            assert(be_value(b[j]@) < be_value(b[b.len() - 1]@));
        }
        let c = a.drop_last();
        let d = b.drop_last();
        assert forall|k: [u8; N]| c.to_set().contains(k) == d.to_set().contains(k) by {
            if c.to_set().contains(k) {
                let m = choose|m: int| 0 <= m < c.len() && c[m] == k;
                assert(a[m] == k && a[m] != a[a.len() - 1]);
                assert(b.to_set().contains(k));
                let m2 = choose|m: int| 0 <= m < b.len() && b[m] == k;
                assert(m2 != b.len() - 1);
                assert(d[m2] == k);
            }
            if d.to_set().contains(k) {
                let m = choose|m: int| 0 <= m < d.len() && d[m] == k;
                assert(b[m] == k && b[m] != b[b.len() - 1]);
                assert(a.to_set().contains(k));
                let m2 = choose|m: int| 0 <= m < a.len() && a[m] == k;
                assert(m2 != a.len() - 1);
                assert(c[m2] == k);
            }
        }
        assert(c.to_set() =~= d.to_set());
        lemma_ascending_unique(c, d);
        assert(a =~= c.push(x));
        assert(b =~= d.push(y));
    }
}

/// An ascending list is the ordered listing of its set.
pub proof fn lemma_ordered<const N: usize>(q: Seq<[u8; N]>)
    requires
        ascending(q),
    ensures
        ordered(q.to_set()) == q,
{
    let o = ordered(q.to_set());
    assert(ascending(o) && o.to_set() == q.to_set());
    lemma_ascending_unique(o, q);
}

/// `x` at its place in an ascending list.
spec fn placed<const N: usize>(q: Seq<[u8; N]>, x: [u8; N]) -> Seq<[u8; N]>
    decreases q.len(),
{
    if q.len() == 0 || be_value(q.last()@) < be_value(x@) {
        q.push(x)
    } else {
        placed(q.drop_last(), x).push(q.last())
    }
}

proof fn lemma_placed<const N: usize>(q: Seq<[u8; N]>, x: [u8; N])
    requires
        ascending(q),
        !q.contains(x),
    ensures
        ascending(placed(q, x)),
        placed(q, x).to_set() == q.to_set().insert(x),
    decreases q.len(),
{
    broadcast use vstd::seq_lib::group_to_multiset_ensures;

    if q.len() == 0 || be_value(q.last()@) < be_value(x@) {
        q.lemma_push_to_set_commute(x);
        assert forall|i: int, j: int| 0 <= i < j < q.push(x).len() implies be_value(
            q.push(x)[i]@,
        ) < be_value(q.push(x)[j]@) by {
            if j == q.len() {
                if i < q.len() - 1 {
                    assert(be_value(q[i]@) < be_value(q[q.len() - 1]@));
                }
            }
        }
    } else {
        let h = q.drop_last();
        assert(!h.contains(x)) by {
            if h.contains(x) {
                let i = choose|i: int| 0 <= i < h.len() && h[i] == x;
                assert(q[i] == x);
            }
        }
        lemma_placed(h, x);
        if be_value(q.last()@) == be_value(x@) {
            lemma_key_injective(q.last(), x);
            assert(q[q.len() - 1] == x);
        }
        let p = placed(h, x);
        p.lemma_push_to_set_commute(q.last());
        h.lemma_push_to_set_commute(q.last());
        assert(h.push(q.last()) =~= q);
        assert(p.push(q.last()).to_set() =~= q.to_set().insert(x));
        assert forall|i: int, j: int| 0 <= i < j < p.push(q.last()).len() implies be_value(
            p.push(q.last())[i]@,
        ) < be_value(p.push(q.last())[j]@) by {
            if j == p.len() {
                assert(p.to_set().contains(p[i]));
                if p[i] != x {
                    assert(h.contains(p[i]));
                    let m = choose|m: int| 0 <= m < h.len() && h[m] == p[i];
                    assert(be_value(q[m]@) < be_value(q[q.len() - 1]@));
                }
            }
        }
    }
}

/// Every finite set has its ascending listing.
pub proof fn lemma_ordered_set<const N: usize>(s: Set<[u8; N]>)
    requires
        s.finite(),
    ensures
        ascending(ordered(s)),
        ordered(s).to_set() == s,
    decreases s.len(),
{
    if s.len() == 0 {
        let q = Seq::<[u8; N]>::empty();
        assert(s =~= Set::empty());
        assert(q.to_set() =~= s);
        assert(ascending(q));
    } else {
        let x = s.choose();
        let r = s.remove(x);
        lemma_ordered_set(r);
        let q = ordered(r);
        assert(!q.contains(x)) by {
            if q.contains(x) {
                assert(q.to_set().contains(x));
            }
        }
        lemma_placed(q, x);
        assert(r.insert(x) =~= s);
        assert(ascending(placed(q, x)));
    }
}

/// First index whose key is not below `k`, and whether it holds `k`.
fn locate<const N: usize>(keys: &Vec<[u8; N]>, k: &[u8; N]) -> (r: (bool, usize))
    requires
        ascending(keys@),
    ensures
        r.1 <= keys@.len(),
        forall|j: int| 0 <= j < r.1 ==> be_value(#[trigger] keys@[j]@) < be_value(k@),
        forall|j: int| r.1 <= j < keys@.len() ==> be_value(#[trigger] keys@[j]@) >= be_value(k@),
        r.0 ==> r.1 < keys@.len() && keys@[r.1 as int] == *k,
        r.0 == keys@.contains(*k),
{
    let mut lo: usize = 0;
    let mut hi: usize = keys.len();
    while lo < hi
        invariant
            ascending(keys@),
            lo <= hi <= keys@.len(),
            forall|j: int| 0 <= j < lo ==> be_value(#[trigger] keys@[j]@) < be_value(k@),
            forall|j: int| hi <= j < keys@.len() ==> be_value(#[trigger] keys@[j]@) >= be_value(k@),
        decreases hi - lo,
    {
        let mid: usize = lo + (hi - lo) / 2;
        if less(&keys[mid], k) {
            lo = mid + 1;
        } else {
            hi = mid;
        }
    }
    if lo < keys.len() && same(&keys[lo], k) {
        assert(keys@[lo as int] == *k);
        (true, lo)
    } else {
        proof {
            if keys@.contains(*k) {
                let j = choose|j: int| 0 <= j < keys@.len() && keys@[j] == *k;
                assert(keys@[j] == *k);
                assert(j >= lo);
                assert(be_value(keys@[lo as int]@) >= be_value(k@));
                if j > lo {
                    assert(be_value(keys@[lo as int]@) < be_value(keys@[j]@));
                }
            }
        }
        (false, lo)
    }
}

/// A set of `N`-byte keys.
#[derive(Debug, PartialEq, Eq)]
pub struct KeySet<const N: usize> {
    keys: Vec<[u8; N]>,
}

impl<const N: usize> View for KeySet<N> {
    type V = Set<[u8; N]>;

    closed spec fn view(&self) -> Set<[u8; N]> {
        self.keys@.to_set()
    }
}

impl<const N: usize> KeySet<N> {
    /// The members in ascending order.
    pub closed spec fn listing(&self) -> Seq<[u8; N]> {
        self.keys@
    }

    pub closed spec fn wf(&self) -> bool {
        ascending(self.keys@)
    }

    /// What a well-formed set's listing is.
    pub broadcast proof fn lemma_listing(&self)
        requires
            #[trigger] self.wf(),
        ensures
            ascending(self.listing()),
            self.listing().no_duplicates(),
            self@ == self.listing().to_set(),
            self@.finite(),
            self@.len() == self.listing().len(),
            forall|i: int| 0 <= i < self.listing().len() ==> self@.contains(#[trigger] self.listing()[i]),
    {
        lemma_ascending_distinct(self.keys@);
        self.keys@.unique_seq_to_set();
    }

    pub fn new() -> (r: Self)
        ensures
            r.wf(),
            r@ == Set::<[u8; N]>::empty(),
    {
        let r = KeySet { keys: Vec::new() };
        assert(r@ =~= Set::<[u8; N]>::empty());
        r
    }

    pub fn len(&self) -> (r: usize)
        requires
            self.wf(),
        ensures
            r == self@.len(),
            r == self.listing().len(),
    {
        proof {
            self.lemma_listing();
        }
        self.keys.len()
    }

    pub fn is_empty(&self) -> (r: bool)
        requires
            self.wf(),
        ensures
            r == (self@ == Set::<[u8; N]>::empty()),
            r == (self.listing().len() == 0),
    {
        proof {
            self.lemma_listing();
            if self.keys@.len() > 0 {
                assert(self@.contains(self.keys@[0]));
            } else {
                assert(self@ =~= Set::<[u8; N]>::empty());
            }
        }
        self.keys.len() == 0
    }

    pub fn contains(&self, k: &[u8; N]) -> (r: bool)
        requires
            self.wf(),
        ensures
            r == self@.contains(*k),
    {
        locate(&self.keys, k).0
    }

    /// The `i`-th member in ascending order.
    pub fn at(&self, i: usize) -> (r: [u8; N])
        requires
            i < self.listing().len(),
        ensures
            r == self.listing()[i as int],
    {
        self.keys[i]
    }

    /// Adds `k`; reports whether it was new.
    pub fn insert(&mut self, k: [u8; N]) -> (r: bool)
        requires
            old(self).wf(),
        ensures
            final(self).wf(),
            final(self)@ == old(self)@.insert(k),
            r == !old(self)@.contains(k),
    {
        let (found, at) = locate(&self.keys, &k);
        if found {
            assert(self@ =~= old(self)@.insert(k));
            return false;
        }
        let ghost before = self.keys@;
        self.keys.insert(at, k);
        proof {
            lemma_insert_ascending(before, at as int, k);
            assert(self@ =~= old(self)@.insert(k)) by {
                before.insert_ensures(at as int, k);
                assert forall|x: [u8; N]| self@.contains(x) == old(self)@.insert(k).contains(x) by {
                    lemma_insert_contains(before, at as int, k, x);
                }
            }
        }
        true
    }

    /// Removes `k`; reports whether it was there.
    pub fn remove(&mut self, k: &[u8; N]) -> (r: bool)
        requires
            old(self).wf(),
        ensures
            final(self).wf(),
            final(self)@ == old(self)@.remove(*k),
            r == old(self)@.contains(*k),
    {
        let (found, at) = locate(&self.keys, k);
        if !found {
            assert(self@ =~= old(self)@.remove(*k));
            return false;
        }
        let ghost before = self.keys@;
        let _ = self.keys.remove(at);
        proof {
            lemma_remove_ascending(before, at as int);
            assert forall|x: [u8; N]| self@.contains(x) == old(self)@.remove(*k).contains(x) by {
                lemma_remove_contains(before, at as int, x);
            }
            assert(self@ =~= old(self)@.remove(*k));
        }
        true
    }

    /// The members in ascending order, as a vector.
    pub fn to_vec(&self) -> (r: Vec<[u8; N]>)
        requires
            self.wf(),
        ensures
            r@ == self.listing(),
            r@.to_set() == self@,
            ascending(r@),
    {
        copy_keys(&self.keys)
    }
}

impl<const N: usize> Clone for KeySet<N> {
    fn clone(&self) -> (r: Self)
        ensures
            r@ == self@,
            r.listing() == self.listing(),
            self.wf() ==> r.wf(),
    {
        KeySet { keys: copy_keys(&self.keys) }
    }
}

/// Copies a vector of keys.
pub fn copy_keys<const N: usize>(keys: &Vec<[u8; N]>) -> (r: Vec<[u8; N]>)
    ensures
        r@ == keys@,
{
    let mut out: Vec<[u8; N]> = Vec::new();
    let mut i: usize = 0;
    while i < keys.len()
        invariant
            i <= keys@.len(),
            out@ == keys@.take(i as int),
        decreases keys@.len() - i,
    {
        out.push(keys[i]);
        i += 1;
        assert(out@ =~= keys@.take(i as int));
    }
    assert(out@ =~= keys@);
    out
}

proof fn lemma_insert_ascending<const N: usize>(keys: Seq<[u8; N]>, at: int, k: [u8; N])
    requires
        ascending(keys),
        0 <= at <= keys.len(),
        !keys.contains(k),
        forall|j: int| 0 <= j < at ==> be_value(#[trigger] keys[j]@) < be_value(k@),
        forall|j: int| at <= j < keys.len() ==> be_value(#[trigger] keys[j]@) >= be_value(k@),
    ensures
        ascending(keys.insert(at, k)),
{
    let out = keys.insert(at, k);
    assert forall|i: int, j: int| 0 <= i < j < out.len() implies be_value(out[i]@) < be_value(
        out[j]@,
    ) by {
        if j == at {
            assert(out[i] == keys[i]);
        } else if i == at {
            assert(out[j] == keys[j - 1]);
            if be_value(keys[j - 1]@) == be_value(k@) {
                lemma_key_injective(keys[j - 1], k);
                assert(keys.contains(k));
            }
        } else {
            let a = if i < at { i } else { i - 1 };
            let b = if j < at { j } else { j - 1 };
            assert(out[i] == keys[a]);
            assert(out[j] == keys[b]);
        }
    }
}

proof fn lemma_insert_contains<const N: usize>(keys: Seq<[u8; N]>, at: int, k: [u8; N], x: [u8; N])
    requires
        0 <= at <= keys.len(),
    ensures
        keys.insert(at, k).contains(x) == (x == k || keys.contains(x)),
{
    let out = keys.insert(at, k);
    if out.contains(x) {
        let i = choose|i: int| 0 <= i < out.len() && out[i] == x;
        if i < at {
            assert(keys[i] == x);
        } else if i > at {
            assert(keys[i - 1] == x);
        }
    }
    if keys.contains(x) {
        let i = choose|i: int| 0 <= i < keys.len() && keys[i] == x;
        if i < at {
            assert(out[i] == x);
        } else {
            assert(out[i + 1] == x);
        }
    }
    assert(out[at] == k);
}

proof fn lemma_remove_ascending<const N: usize>(keys: Seq<[u8; N]>, at: int)
    requires
        ascending(keys),
        0 <= at < keys.len(),
    ensures
        ascending(keys.remove(at)),
{
    let out = keys.remove(at);
    assert forall|i: int, j: int| 0 <= i < j < out.len() implies be_value(out[i]@) < be_value(
        out[j]@,
    ) by {
        let a = if i < at { i } else { i + 1 };
        let b = if j < at { j } else { j + 1 };
        assert(out[i] == keys[a]);
        assert(out[j] == keys[b]);
    }
}

proof fn lemma_remove_contains<const N: usize>(keys: Seq<[u8; N]>, at: int, x: [u8; N])
    requires
        ascending(keys),
        0 <= at < keys.len(),
    ensures
        keys.remove(at).contains(x) == (x != keys[at] && keys.contains(x)),
{
    let out = keys.remove(at);
    lemma_ascending_distinct(keys);
    if out.contains(x) {
        let i = choose|i: int| 0 <= i < out.len() && out[i] == x;
        let a = if i < at { i } else { i + 1 };
        assert(keys[a] == x);
    }
    if keys.contains(x) && x != keys[at] {
        let i = choose|i: int| 0 <= i < keys.len() && keys[i] == x;
        if i < at {
            assert(out[i] == x);
        } else {
            assert(out[i - 1] == x);
        }
    }
}

/// A table from `N`-byte keys to values.
#[derive(Debug, PartialEq, Eq)]
pub struct Table<const N: usize, V> {
    keys: Vec<[u8; N]>,
    vals: Vec<V>,
}

/// The map that pairs `keys[i]` with `vals[i]`.
pub open spec fn paired<const N: usize, V>(keys: Seq<[u8; N]>, vals: Seq<V>) -> Map<[u8; N], V> {
    Map::new(|k: [u8; N]| keys.contains(k), |k: [u8; N]| vals[keys.index_of(k)])
}

impl<const N: usize, V> View for Table<N, V> {
    type V = Map<[u8; N], V>;

    closed spec fn view(&self) -> Map<[u8; N], V> {
        paired(self.keys@, self.vals@)
    }
}

impl<const N: usize, V> Table<N, V> {
    /// The keys in ascending order.
    pub closed spec fn listing(&self) -> Seq<[u8; N]> {
        self.keys@
    }

    pub closed spec fn wf(&self) -> bool {
        &&& ascending(self.keys@)
        &&& self.keys@.len() == self.vals@.len()
    }

    /// What a well-formed table's key listing is.
    pub broadcast proof fn lemma_listing(&self)
        requires
            #[trigger] self.wf(),
        ensures
            ascending(self.listing()),
            self.listing().no_duplicates(),
            self@.dom() == self.listing().to_set(),
            self@.dom().finite(),
            self@.dom().len() == self.listing().len(),
            forall|i: int|
                0 <= i < self.listing().len() ==> self@.contains_key(#[trigger] self.listing()[i]),
    {
        lemma_ascending_distinct(self.keys@);
        self.keys@.unique_seq_to_set();
        assert(self@.dom() =~= self.keys@.to_set());
    }

    proof fn lemma_at(&self, i: int)
        requires
            self.wf(),
            0 <= i < self.keys@.len(),
        ensures
            self@.contains_key(self.keys@[i]),
            self@[self.keys@[i]] == self.vals@[i],
    {
        lemma_ascending_distinct(self.keys@);
        let k = self.keys@[i];
        assert(self.keys@.contains(k));
        let j = self.keys@.index_of(k);
        assert(self.keys@[j] == k);
        assert(j == i);
    }

    pub fn new() -> (r: Self)
        ensures
            r.wf(),
            r@ == Map::<[u8; N], V>::empty(),
            r.listing().len() == 0,
    {
        let r = Table { keys: Vec::new(), vals: Vec::new() };
        assert(r@ =~= Map::<[u8; N], V>::empty());
        r
    }

    pub fn len(&self) -> (r: usize)
        requires
            self.wf(),
        ensures
            r == self@.dom().len(),
            r == self.listing().len(),
    {
        proof {
            self.lemma_listing();
        }
        self.keys.len()
    }

    pub fn is_empty(&self) -> (r: bool)
        requires
            self.wf(),
        ensures
            r == (self@ == Map::<[u8; N], V>::empty()),
            r == (self.listing().len() == 0),
    {
        proof {
            if self.keys@.len() > 0 {
                self.lemma_at(0);
            } else {
                assert(self@ =~= Map::<[u8; N], V>::empty());
            }
        }
        self.keys.len() == 0
    }

    pub fn contains_key(&self, k: &[u8; N]) -> (r: bool)
        requires
            self.wf(),
        ensures
            r == self@.contains_key(*k),
    {
        locate(&self.keys, k).0
    }

    pub fn get(&self, k: &[u8; N]) -> (r: Option<&V>)
        requires
            self.wf(),
        ensures
            match r {
                Some(v) => self@.contains_key(*k) && *v == self@[*k],
                None => !self@.contains_key(*k),
            },
    {
        let (found, at) = locate(&self.keys, k);
        if found {
            proof {
                self.lemma_at(at as int);
            }
            Some(&self.vals[at])
        } else {
            None
        }
    }

    /// The `i`-th key in ascending order.
    pub fn key_at(&self, i: usize) -> (r: [u8; N])
        requires
            i < self.listing().len(),
        ensures
            r == self.listing()[i as int],
    {
        self.keys[i]
    }

    /// The value under the `i`-th key.
    pub fn value_at(&self, i: usize) -> (r: &V)
        requires
            self.wf(),
            i < self.listing().len(),
        ensures
            *r == self@[self.listing()[i as int]],
    {
        proof {
            self.lemma_at(i as int);
        }
        &self.vals[i]
    }

    /// Stores `v` under `k`, replacing what was there.
    pub fn insert(&mut self, k: [u8; N], v: V)
        requires
            old(self).wf(),
        ensures
            final(self).wf(),
            final(self)@ == old(self)@.insert(k, v),
    {
        let (found, at) = locate(&self.keys, &k);
        if found {
            self.vals[at] = v;
            proof {
                lemma_ascending_distinct(self.keys@);
                assert forall|x: [u8; N]| self.keys@.contains(x) implies self@[x] == old(self)@.insert(
                    k,
                    v,
                )[x] by {
                    let j = self.keys@.index_of(x);
                    assert(self.keys@[j] == x);
                    assert(self.keys@[at as int] == k);
                }
                assert(self@ =~= old(self)@.insert(k, v));
            }
        } else {
            let ghost keys0 = self.keys@;
            let ghost vals0 = self.vals@;
            self.keys.insert(at, k);
            self.vals.insert(at, v);
            proof {
                lemma_insert_ascending(keys0, at as int, k);
                lemma_ascending_distinct(keys0);
                lemma_ascending_distinct(self.keys@);
                assert forall|x: [u8; N]| self@.contains_key(x) == old(self)@.insert(
                    k,
                    v,
                ).contains_key(x) by {
                    lemma_insert_contains(keys0, at as int, k, x);
                }
                assert forall|x: [u8; N]| self@.contains_key(x) implies self@[x] == old(self)@.insert(
                    k,
                    v,
                )[x] by {
                    lemma_insert_contains(keys0, at as int, k, x);
                    let j = self.keys@.index_of(x);
                    assert(self.keys@[j] == x);
                    if x == k {
                        assert(self.keys@[at as int] == k);
                        assert(j == at);
                    } else {
                        let j0 = keys0.index_of(x);
                        assert(keys0[j0] == x);
                        let j1 = if j0 < at { j0 } else { j0 + 1 };
                        assert(self.keys@[j1] == x);
                        assert(j1 == j);
                        assert(self.vals@[j1] == vals0[j0]);
                    }
                }
                assert(self@ =~= old(self)@.insert(k, v));
            }
        }
    }

    /// Drops the entry under `k` and hands its value back.
    pub fn remove(&mut self, k: &[u8; N]) -> (r: Option<V>)
        requires
            old(self).wf(),
        ensures
            final(self).wf(),
            final(self)@ == old(self)@.remove(*k),
            match r {
                Some(v) => old(self)@.contains_key(*k) && v == old(self)@[*k],
                None => !old(self)@.contains_key(*k),
            },
    {
        let (found, at) = locate(&self.keys, k);
        if !found {
            assert(self@ =~= old(self)@.remove(*k));
            return None;
        }
        let ghost keys0 = self.keys@;
        let ghost vals0 = self.vals@;
        proof {
            self.lemma_at(at as int);
        }
        let _ = self.keys.remove(at);
        let v = self.vals.remove(at);
        proof {
            lemma_remove_ascending(keys0, at as int);
            lemma_ascending_distinct(keys0);
            lemma_ascending_distinct(self.keys@);
            assert forall|x: [u8; N]| self@.contains_key(x) == old(self)@.remove(*k).contains_key(x) by {
                lemma_remove_contains(keys0, at as int, x);
            }
            assert forall|x: [u8; N]| self@.contains_key(x) implies self@[x] == old(self)@.remove(
                *k,
            )[x] by {
                lemma_remove_contains(keys0, at as int, x);
                let j = self.keys@.index_of(x);
                assert(self.keys@[j] == x);
                let j0 = keys0.index_of(x);
                assert(keys0[j0] == x);
                let j1 = if j0 < at { j0 } else { j0 - 1 };
                assert(self.keys@[j1] == x);
                assert(j1 == j);
                assert(self.vals@[j1] == vals0[j0]);
            }
            assert(self@ =~= old(self)@.remove(*k));
        }
        Some(v)
    }

    /// The set of keys.
    pub fn key_set(&self) -> (r: KeySet<N>)
        requires
            self.wf(),
        ensures
            r.wf(),
            r@ == self@.dom(),
            r.listing() == self.listing(),
    {
        proof {
            self.lemma_listing();
        }
        KeySet { keys: copy_keys(&self.keys) }
    }

    /// The keys in ascending order, as a vector.
    pub fn key_list(&self) -> (r: Vec<[u8; N]>)
        requires
            self.wf(),
        ensures
            r@ == self.listing(),
            r@.to_set() == self@.dom(),
            ascending(r@),
    {
        proof {
            self.lemma_listing();
        }
        copy_keys(&self.keys)
    }
}

impl<const N: usize, V: Clone> Clone for Table<N, V> {
    fn clone(&self) -> (r: Self)
        ensures
            self.wf() ==> r.wf(),
            self.wf() ==> r@.dom() == self@.dom(),
            self.wf() ==> forall|k: [u8; N]| #[trigger]
                r@.contains_key(k) ==> cloned::<V>(self@[k], r@[k]),
    {
        let mut vals: Vec<V> = Vec::new();
        let mut i: usize = 0;
        while i < self.vals.len()
            invariant
                i <= self.vals@.len(),
                vals@.len() == i,
                forall|j: int| 0 <= j < i ==> cloned::<V>(self.vals@[j], #[trigger] vals@[j]),
            decreases self.vals@.len() - i,
        {
            vals.push(self.vals[i].clone());
            i += 1;
        }
        let r = Table { keys: copy_keys(&self.keys), vals };
        proof {
            if self.wf() {
                assert(r@.dom() =~= self@.dom());
                assert forall|k: [u8; N]| #[trigger] r@.contains_key(k) implies cloned::<V>(
                    self@[k],
                    r@[k],
                ) by {
                    let j = self.keys@.index_of(k);
                    assert(self.keys@.contains(k));
                    assert(self.keys@[j] == k);
                    assert(cloned::<V>(self.vals@[j], r.vals@[j]));
                }
            }
        }
        r
    }
}

impl<const N: usize, V: Copy> Table<N, V> {
    /// The value under `k`, or `default` where there is none.
    pub fn get_or(&self, k: &[u8; N], default: V) -> (r: V)
        requires
            self.wf(),
        ensures
            r == (if self@.contains_key(*k) {
                self@[*k]
            } else {
                default
            }),
    {
        match self.get(k) {
            Some(v) => *v,
            None => default,
        }
    }

    /// An equal table.
    pub fn copy(&self) -> (r: Self)
        ensures
            self.wf() ==> r.wf(),
            r@ == self@,
            r.listing() == self.listing(),
    {
        let mut vals: Vec<V> = Vec::new();
        let mut i: usize = 0;
        while i < self.vals.len()
            invariant
                i <= self.vals@.len(),
                vals@ == self.vals@.take(i as int),
            decreases self.vals@.len() - i,
        {
            vals.push(self.vals[i]);
            i += 1;
            assert(vals@ =~= self.vals@.take(i as int));
        }
        assert(vals@ =~= self.vals@);
        Table { keys: copy_keys(&self.keys), vals }
    }
}

} // verus!
