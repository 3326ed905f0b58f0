//! A bounded cache whose entries expire a fixed time after they are written.
use vstd::prelude::*;
use crate::entries::{
    EntryModel, KeyModel, has_key, keys_distinct, without_key, key_index, touch_order,
    write_order, shrink_order, keep_live, lemma_without_key, lemma_keep_all, lemma_has_key_from, lemma_has_key_sub,
};
use crate::store::{
    stored_entries, stored_capacity, stored_ttls, store_new, store_insert, store_get, store_contains, store_remove,
    store_set_capacity, store_clear, duration_of_secs, duration_secs, duration_from_secs, MAX_TTL_SECS,
};
use ttl_cache::TtlCache;
use std::time::Duration;

verus! {

/// How long an entry lives when no other time-to-live has been set.
pub const DEFAULT_TTL_SECS: u64 = 120;

/// Whether two keys have the same parts.
fn same_key(a: &Vec<String>, b: &Vec<String>) -> (r: bool)
    ensures
        r == (a.deep_view() == b.deep_view()),
{
    if a.len() != b.len() {
        assert(a.deep_view().len() != b.deep_view().len());
        return false;
    }
    let mut i: usize = 0;
    while i < a.len()
        invariant
            a.len() == b.len(),
            i <= a.len(),
            forall|j: int| 0 <= j < i ==> a@[j]@ == b@[j]@,
        decreases a.len() - i,
    {
        if a[i] != b[i] {
            assert(a.deep_view()[i as int] != b.deep_view()[i as int]);
            return false;
        }
        i = i + 1;
    }
    assert(a.deep_view() =~= b.deep_view());
    true
}

/// Where `k` stands in a recency order.
fn position(order: &Vec<Vec<String>>, k: &Vec<String>) -> (r: Option<usize>)
    ensures
        r matches Some(j) ==> j < order.deep_view().len() && order.deep_view()[j as int] == k.deep_view(),
        r is None ==> !order.deep_view().contains(k.deep_view()),
{
    let mut j: usize = 0;
    while j < order.len()
        invariant
            j <= order.len(),
            forall|i: int| 0 <= i < j ==> order.deep_view()[i] != k.deep_view(),
        decreases order.len() - j,
    {
        if same_key(&order[j], k) {
            return Some(j);
        }
        j = j + 1;
    }
    None
}

/// Moves `k` to the most recent end of a recency order that holds it.
fn move_to_back(order: &mut Vec<Vec<String>>, k: &Vec<String>)
    requires
        old(order).deep_view().no_duplicates(),
    ensures
        final(order).deep_view() == touch_order(old(order).deep_view(), k.deep_view()),
        final(order).deep_view().no_duplicates(),
        final(order).deep_view().len() == old(order).deep_view().len(),
        forall|x: KeyModel| #[trigger] final(order).deep_view().contains(x) <==> old(order).deep_view().contains(x),
{
    let ghost o = order.deep_view();
    match position(order, k) {
        Some(j) => {
            proof {
                assert(o.contains(k.deep_view()));
                let m = key_index(o, k.deep_view());
                assert(o[m] == o[j as int]);
            }
            let key = order.remove(j);
            order.push(key);
            proof {
                let n = o.remove(j as int).push(k.deep_view());
                assert(order.deep_view() =~= n);
                assert forall|a: int, b: int| 0 <= a < n.len() && 0 <= b < n.len() && a != b implies n[a] != n[b] by {
                    if a < n.len() - 1 && b < n.len() - 1 {
                        let a2 = if a < j { a } else { a + 1 };
                        let b2 = if b < j { b } else { b + 1 };
                        assert(n[a] == o[a2] && n[b] == o[b2]);
                    } else if a < n.len() - 1 {
                        let a2 = if a < j { a } else { a + 1 };
                        assert(n[a] == o[a2]);
                    } else {
                        let b2 = if b < j { b } else { b + 1 };
                        assert(n[b] == o[b2]);
                    }
                }
                assert forall|x: KeyModel| n.contains(x) <==> o.contains(x) by {
                    if n.contains(x) {
                        let a = choose|a: int| 0 <= a < n.len() && n[a] == x;
                        if a < n.len() - 1 {
                            let a2 = if a < j { a } else { a + 1 };
                            assert(o[a2] == x);
                        } else {
                            assert(o[j as int] == x);
                        }
                    }
                    if o.contains(x) {
                        let a = choose|a: int| 0 <= a < o.len() && o[a] == x;
                        if a < j {
                            assert(n[a] == x);
                        } else if a > j {
                            assert(n[a - 1] == x);
                        } else {
                            assert(n[n.len() - 1] == x);
                        }
                    }
                }
            }
        },
        None => {},
    }
}

/// A cache of at most `capacity` live entries, each live for the
/// time-to-live in effect when it was written. When a new key finds the
/// cache full, expired entries go first, then the entry least recently
/// read or written.
pub struct DefaultCache {
    ttl: Duration,
    cache: TtlCache<Vec<String>, bool>,
    order: Vec<Vec<String>>,
    cap: usize,
}

impl DefaultCache {
    /// The stored entries, as the store orders them. Expired entries may
    /// still be among them; no other entry is live.
    pub open spec fn entries(&self) -> Seq<EntryModel> {
        stored_entries(self.store())
    }

    /// The time-to-live that the stored entry for `k` was written with.
    pub open spec fn ttl_of(&self, k: KeyModel) -> Duration {
        stored_ttls(self.store())[k]
    }

    /// Every entry still stored keeps the time-to-live it had in `before`.
    pub open spec fn keeps_ttls(&self, before: &DefaultCache) -> bool {
        forall|j: KeyModel| #[trigger] has_key(self.entries(), j) ==> self.ttl_of(j) == before.ttl_of(j)
    }

    /// The stored keys, least recently read or written first.
    pub closed spec fn recency(&self) -> Seq<KeyModel> {
        self.order.deep_view()
    }

    /// The store itself, with each entry's expiry.
    pub closed spec fn store(&self) -> TtlCache<Vec<String>, bool> {
        self.cache
    }

    /// The largest number of entries the cache holds.
    pub open spec fn capacity(&self) -> nat {
        stored_capacity(self.store())
    }

    /// The time-to-live that the next write gives its entry.
    pub closed spec fn default_ttl(&self) -> Duration {
        self.ttl
    }

    /// The recency order holds each stored key once; keys are unique, the
    /// entries fit a positive capacity, and the time-to-live is in bounds.
    pub open spec fn wf(&self) -> bool {
        &&& keys_distinct(self.entries())
        &&& self.recency().no_duplicates()
        &&& forall|k: KeyModel| #[trigger] self.recency().contains(k) <==> has_key(self.entries(), k)
        &&& self.entries().len() == self.recency().len()
        &&& self.entries().len() <= self.capacity()
        &&& self.capacity() >= 1
        &&& duration_secs(self.default_ttl()) <= MAX_TTL_SECS
        &&& self.bound_recorded()
    }

    /// The bound is recorded beside the store.
    pub closed spec fn bound_recorded(&self) -> bool {
        self.cap as nat == self.capacity()
    }

    /// An empty cache holding at most `cap` entries, with the default
    /// time-to-live.
    pub fn new(cap: usize) -> (r: DefaultCache)
        requires
            cap >= 1,
        ensures
            r.wf(),
            r.entries() == Seq::<EntryModel>::empty(),
            r.recency() == Seq::<KeyModel>::empty(),
            r.capacity() == cap as nat,
            r.default_ttl() == duration_of_secs(DEFAULT_TTL_SECS),
    {
        let r = DefaultCache {
            ttl: duration_from_secs(DEFAULT_TTL_SECS),
            cache: store_new(cap),
            order: Vec::new(),
            cap,
        };
        assert(r.recency() =~= Seq::<KeyModel>::empty());
        r
    }

    /// The time-to-live given to entries written from now on.
    pub fn ttl(&self) -> (r: Duration)
        ensures
            r == self.default_ttl(),
    {
        self.ttl
    }

    /// Marks `k` as just used: it moves to the most recent end of the
    /// order. Nothing changes if `k` is not stored.
    pub fn touch(&mut self, k: &Vec<String>)
        requires
            old(self).wf(),
        ensures
            final(self).wf(),
            final(self).recency() == touch_order(old(self).recency(), k.deep_view()),
            forall|x: KeyModel| #[trigger] final(self).recency().contains(x) <==> old(self).recency().contains(x),
            final(self).store() == old(self).store(),
            final(self).entries() == old(self).entries(),
            final(self).capacity() == old(self).capacity(),
            final(self).default_ttl() == old(self).default_ttl(),
    {
        move_to_back(&mut self.order, k);
    }

    /// Keeps the entries whose flag in `live` is set and drops the others;
    /// `live` gives one flag for each key of the recency order, in that order.
    pub fn retain(&mut self, live: &Vec<bool>)
        requires
            old(self).wf(),
            live.len() == old(self).recency().len(),
        ensures
            final(self).wf(),
            final(self).recency() == keep_live(old(self).recency(), live@),
            final(self).keeps_ttls(old(self)),
            forall|e: EntryModel| #[trigger] final(self).entries().contains(e)
                <==> (old(self).entries().contains(e) && final(self).recency().contains(e.0)),
            final(self).capacity() == old(self).capacity(),
            final(self).default_ttl() == old(self).default_ttl(),
    {
        let ghost o = self.recency();
        let ghost oe = self.entries();
        let ghost n = o.len();
        let mut i: usize = self.order.len();
        proof {
            assert(o.subrange(0, n as int) =~= o);
            assert(o.subrange(n as int, n as int) =~= Seq::<KeyModel>::empty());
        }
        while i > 0
            invariant
                i <= n,
                n == o.len(),
                live.len() == n,
                self.wf(),
                self.capacity() == old(self).capacity(),
                self.ttl == old(self).ttl,
                self.recency() == o.subrange(0, i as int) + keep_live(o.subrange(i as int, n as int), live@.subrange(i as int, n as int)),
                forall|e: EntryModel| #[trigger] self.entries().contains(e)
                    <==> (oe.contains(e) && self.recency().contains(e.0)),
                self.keeps_ttls(old(self)),
            decreases i,
        {
            let ghost cur = self.recency();
            i = i - 1;
            let ghost nt = keep_live(o.subrange(i as int, n as int), live@.subrange(i as int, n as int));
            proof {
                assert(o.subrange(i as int, n as int).drop_first() =~= o.subrange(i + 1, n as int));
                assert(live@.subrange(i as int, n as int).drop_first() =~= live@.subrange(i + 1, n as int));
                assert(o.subrange(0, i + 1) =~= o.subrange(0, i as int).push(o[i as int]));
                assert(cur[i as int] == o[i as int]);
            }
            if !live[i] {
                let ghost ce = self.entries();
                let ghost before = *self;
                let key = self.order.remove(i);
                let ghost ke = key.deep_view();
                proof {
                    assert(ke == cur[i as int]);
                    lemma_without_key(self.entries(), ke);
                    assert(has_key(self.entries(), ke)) by { assert(cur.contains(ke)); }
                }
                store_remove(&mut self.cache, &key);
                proof {
                    let r = self.recency();
                    assert(r =~= cur.remove(i as int));
                    assert(r =~= o.subrange(0, i as int) + nt);
                    assert forall|a: int, b: int| 0 <= a < r.len() && 0 <= b < r.len() && a != b implies r[a] != r[b] by {
                        let a2 = if a < i { a } else { a + 1 };
                        let b2 = if b < i { b } else { b + 1 };
                        assert(r[a] == cur[a2] && r[b] == cur[b2]);
                    }
                    assert forall|x: KeyModel| r.contains(x) <==> (cur.contains(x) && x != ke) by {
                        if r.contains(x) {
                            let a = choose|a: int| 0 <= a < r.len() && r[a] == x;
                            let a2 = if a < i { a } else { a + 1 };
                            assert(cur[a2] == x);
                        }
                        if cur.contains(x) && x != ke {
                            let a = choose|a: int| 0 <= a < cur.len() && cur[a] == x;
                            if a < i {
                                assert(r[a] == x);
                            } else {
                                assert(r[a - 1] == x);
                            }
                        }
                    }
                    let ne = self.entries();
                    assert(ne == without_key(ce, ke));
                    assert forall|k: KeyModel| #[trigger] r.contains(k) <==> has_key(ne, k) by {
                        if has_key(ne, k) {
                            let a = choose|a: int| 0 <= a < ne.len() && (#[trigger] ne[a]).0 == k;
                            assert(ne.contains(ne[a]));
                            assert(ce.contains(ne[a]));
                            let b = choose|b: int| 0 <= b < ce.len() && ce[b] == ne[a];
                            assert(ce[b].0 == k);
                            assert(cur.contains(k));
                        }
                        if r.contains(k) {
                            assert(cur.contains(k) && k != ke);
                            assert(has_key(ce, k));
                            let a = choose|a: int| 0 <= a < ce.len() && (#[trigger] ce[a]).0 == k;
                            assert(ce.contains(ce[a]));
                            assert(ne.contains(ce[a]));
                            let b = choose|b: int| 0 <= b < ne.len() && ne[b] == ce[a];
                            assert(ne[b].0 == k);
                        }
                    }
                    assert forall|j: KeyModel| #[trigger] has_key(ne, j) implies self.ttl_of(j) == old(self).ttl_of(j) by {
                        assert(r.contains(j));
                        assert(cur.contains(j));
                        assert(has_key(ce, j));
                        assert(before.ttl_of(j) == old(self).ttl_of(j));
                    }
                }
            } else {
                proof {
                    assert(cur =~= o.subrange(0, i as int) + nt);
                }
            }
        }
        proof {
            assert(o.subrange(0, 0) =~= Seq::<KeyModel>::empty());
            assert(o.subrange(0, n as int) =~= o);
            assert(live@.subrange(0, n as int) =~= live@);
            assert(self.recency() =~= keep_live(o, live@));
        }
    }

    /// Asks the store, for each key of the recency order, whether its entry
    /// is still live.
    pub fn live_flags(&self) -> (r: Vec<bool>)
        ensures
            r.len() == self.recency().len(),
            forall|i: int| 0 <= i < r.len() && #[trigger] r@[i] ==> has_key(self.entries(), self.recency()[i]),
    {
        let mut r: Vec<bool> = Vec::new();
        let mut i: usize = 0;
        while i < self.order.len()
            invariant
                i <= self.order.len(),
                r.len() == i,
                forall|j: int| 0 <= j < i && #[trigger] r@[j] ==> has_key(self.entries(), self.recency()[j]),
            decreases self.order.len() - i,
        {
            r.push(store_contains(&self.cache, &self.order[i]));
            i = i + 1;
        }
        r
    }

    /// Evicts the least recently used entry.
    fn evict_oldest(&mut self)
        requires
            old(self).wf(),
            old(self).recency().len() > 0,
        ensures
            final(self).wf(),
            final(self).recency() == old(self).recency().drop_first(),
            final(self).keeps_ttls(old(self)),
            forall|e: EntryModel| #[trigger] final(self).entries().contains(e)
                <==> (old(self).entries().contains(e) && final(self).recency().contains(e.0)),
            final(self).capacity() == old(self).capacity(),
            final(self).default_ttl() == old(self).default_ttl(),
    {
        let n = self.order.len();
        let mut keep: Vec<bool> = Vec::new();
        keep.push(false);
        while keep.len() < n
            invariant
                1 <= keep.len() <= n,
                !keep@[0],
                forall|i: int| 1 <= i < keep.len() ==> keep@[i],
            decreases n - keep.len(),
        {
            keep.push(true);
        }
        proof {
            lemma_keep_all(self.recency().drop_first(), keep@.drop_first());
        }
        self.retain(&keep);
    }

    /// Writes `v` for `k` where no expired entry stands in the way: a key
    /// already stored moves to the most recent end; a new key evicts the
    /// least recently used entry when the cache is full.
    pub fn write(&mut self, k: Vec<String>, v: bool)
        requires
            old(self).wf(),
        ensures
            final(self).wf(),
            final(self).recency() == write_order(old(self).recency(), k.deep_view(), old(self).capacity()),
            final(self).ttl_of(k.deep_view()) == old(self).default_ttl(),
            forall|j: KeyModel| #[trigger] has_key(final(self).entries(), j) && j != k.deep_view()
                ==> final(self).ttl_of(j) == old(self).ttl_of(j),
            forall|e: EntryModel| #[trigger] final(self).entries().contains(e)
                <==> (e == (k.deep_view(), v) || (old(self).entries().contains(e) && e.0 != k.deep_view()
                    && final(self).recency().contains(e.0))),
            final(self).capacity() == old(self).capacity(),
            final(self).default_ttl() == old(self).default_ttl(),
    {
        let ghost kv = k.deep_view();
        let ghost o = self.recency();
        let ghost oe = self.entries();
        match position(&self.order, &k) {
            Some(_) => {
                self.touch(&k);
                proof {
                    assert forall|x: KeyModel| x != kv implies
                        (#[trigger] self.recency().contains(x) <==> has_key(self.entries(), x)) by {
                        assert(self.recency().contains(x) <==> o.contains(x));
                    }
                }
            },
            None => {
                if self.order.len() >= self.cap {
                    self.evict_oldest();
                }
                let ghost base = self.recency();
                assert(forall|x: KeyModel| #[trigger] base.contains(x) <==> has_key(self.entries(), x));
                let k2 = k.clone();
                self.order.push(k2);
                proof {
                    assert(self.recency() =~= base.push(kv));
                    assert(self.recency()[base.len() as int] == kv);
                    assert(self.recency().drop_last() =~= base);
                    assert forall|x: KeyModel| x != kv implies
                        (#[trigger] self.recency().contains(x) <==> has_key(self.entries(), x)) by {
                        if self.recency().contains(x) {
                            let a = choose|a: int| 0 <= a < self.recency().len() && self.recency()[a] == x;
                            assert(base[a] == x);
                            assert(base.contains(x));
                        }
                        if base.contains(x) {
                            let a = choose|a: int| 0 <= a < base.len() && base[a] == x;
                            assert(self.recency()[a] == x);
                        }
                    }
                    assert forall|x: KeyModel| base.contains(x) implies o.contains(x) by {
                        let a = choose|a: int| 0 <= a < base.len() && base[a] == x;
                        if o.len() >= self.cap {
                            assert(o[a + 1] == x);
                        } else {
                            assert(o[a] == x);
                        }
                    }
                }
            },
        }
        let ghost me = self.entries();
        let ghost mo = self.recency();
        let ghost mid = *self;
        assert(mid.keeps_ttls(old(self)));
        proof {
            lemma_without_key(me, kv);
            assert(mo.contains(kv));
            if o.contains(kv) {
                assert(me == oe);
                assert(has_key(me, kv));
            } else {
                assert(!has_key(me, kv)) by {
                    if has_key(me, kv) {
                        let a = choose|a: int| 0 <= a < me.len() && (#[trigger] me[a]).0 == kv;
                        assert(me.contains(me[a]));
                    }
                }
                assert(mo.len() == me.len() + 1);
                assert forall|i: int, j: int| 0 <= i < mo.len() && 0 <= j < mo.len() && i != j implies mo[i] != mo[j] by {
                    if i == mo.len() - 1 {
                        assert(mo.drop_last()[j] == mo[j]);
                        assert(mo.drop_last().contains(mo[j]));
                    } else if j == mo.len() - 1 {
                        assert(mo.drop_last()[i] == mo[i]);
                        assert(mo.drop_last().contains(mo[i]));
                    } else {
                        assert(mo.drop_last()[i] == mo[i] && mo.drop_last()[j] == mo[j]);
                    }
                }
            }
        }
        let ttl = self.ttl;
        store_insert(&mut self.cache, k, v, ttl);
        proof {
            let w = without_key(me, kv);
            let t = w.push((kv, v));
            let fe = self.entries();
            assert(t.len() == mo.len());
            assert(fe == t);
            assert forall|e: EntryModel| t.contains(e) <==> (e == (kv, v) || w.contains(e)) by {
                if t.contains(e) {
                    let a = choose|a: int| 0 <= a < t.len() && t[a] == e;
                    if a < w.len() {
                        assert(w[a] == e);
                    }
                }
                if w.contains(e) {
                    let a = choose|a: int| 0 <= a < w.len() && w[a] == e;
                    assert(t[a] == e);
                }
                if e == (kv, v) {
                    assert(t[t.len() - 1] == e);
                }
            }
            assert forall|i: int, j: int|
                0 <= i < t.len() && 0 <= j < t.len() && i != j implies (#[trigger] t[i]).0 != (#[trigger] t[j]).0 by {
                if i < w.len() && j < w.len() {
                    assert(t[i] == w[i] && t[j] == w[j]);
                } else if i < w.len() {
                    assert(t[i] == w[i]);
                    assert(w.contains(w[i]));
                } else if j < w.len() {
                    assert(t[j] == w[j]);
                    assert(w.contains(w[j]));
                }
            }
            assert forall|x: KeyModel| #[trigger] mo.contains(x) <==> has_key(t, x) by {
                if x == kv {
                    assert(t[t.len() - 1].0 == kv);
                } else {
                    if mo.contains(x) {
                        assert(mo.contains(x) <==> has_key(me, x));
                        assert(has_key(me, x));
                        let a = choose|a: int| 0 <= a < me.len() && (#[trigger] me[a]).0 == x;
                        assert(me.contains(me[a]));
                        assert(t.contains(me[a]));
                        let b = choose|b: int| 0 <= b < t.len() && t[b] == me[a];
                        assert(t[b].0 == x);
                    }
                    if has_key(t, x) {
                        let a = choose|a: int| 0 <= a < t.len() && (#[trigger] t[a]).0 == x;
                        assert(t.contains(t[a]));
                        assert(me.contains(t[a]));
                        let b = choose|b: int| 0 <= b < me.len() && me[b] == t[a];
                        assert(me[b].0 == x);
                        assert(has_key(me, x));
                    }
                }
            }
            lemma_has_key_from(fe, me, kv);
            assert forall|j: KeyModel| #[trigger] has_key(fe, j) && j != kv
                implies self.ttl_of(j) == old(self).ttl_of(j) by {
                assert(has_key(me, j));
                assert(mid.ttl_of(j) == old(self).ttl_of(j));
            }
            assert forall|e: EntryModel| #[trigger] fe.contains(e)
                <==> (e == (kv, v) || (oe.contains(e) && e.0 != kv && mo.contains(e.0))) by {
                if oe.contains(e) && o.contains(kv) {
                    let a = choose|a: int| 0 <= a < oe.len() && oe[a] == e;
                    assert(has_key(oe, e.0));
                    assert(o.contains(e.0));
                }
            }
        }
    }

    /// Evicts the least recently used entries until at most `cap` remain,
    /// and makes `cap` the bound.
    pub fn shrink(&mut self, cap: usize)
        requires
            old(self).wf(),
            cap >= 1,
        ensures
            final(self).wf(),
            final(self).recency() == shrink_order(old(self).recency(), cap as nat),
            final(self).keeps_ttls(old(self)),
            forall|e: EntryModel| #[trigger] final(self).entries().contains(e)
                <==> (old(self).entries().contains(e) && final(self).recency().contains(e.0)),
            final(self).capacity() == cap as nat,
            final(self).default_ttl() == old(self).default_ttl(),
    {
        let ghost o = self.recency();
        let ghost oe = self.entries();
        proof {
            assert(o.subrange(0, o.len() as int) =~= o);
        }
        while self.order.len() > cap
            invariant
                self.wf(),
                self.capacity() == old(self).capacity(),
                self.ttl == old(self).ttl,
                self.recency().len() <= o.len(),
                o.len() > cap ==> self.recency().len() >= cap,
                o.len() <= cap ==> self.recency().len() == o.len(),
                self.recency() == o.subrange(o.len() - self.recency().len(), o.len() as int),
                forall|e: EntryModel| #[trigger] self.entries().contains(e)
                    <==> (oe.contains(e) && self.recency().contains(e.0)),
                self.keeps_ttls(old(self)),
            decreases self.order.len(),
        {
            let ghost before = *self;
            self.evict_oldest();
            proof {
                lemma_has_key_sub(self.entries(), before.entries());
                assert forall|j: KeyModel| #[trigger] has_key(self.entries(), j)
                    implies self.ttl_of(j) == old(self).ttl_of(j) by {
                    assert(has_key(before.entries(), j));
                }
                assert(self.recency() =~= o.subrange(o.len() - self.recency().len(), o.len() as int));
            }
        }
        store_set_capacity(&mut self.cache, cap);
        self.cap = cap;
        proof {
            assert(self.recency() =~= shrink_order(o, cap as nat));
        }
    }

    /// Writes `v` for `k` with the current time-to-live, which makes `k`
    /// the most recently used key. Entries the store reports expired go
    /// first; then, if `k` is new and the live entries fill the cache, the
    /// least recently used one is evicted. Other entries stay as they were.
    pub fn set(&mut self, k: Vec<String>, v: bool)
        requires
            old(self).wf(),
        ensures
            final(self).wf(),
            exists|live: Seq<bool>| live.len() == old(self).recency().len()
                && final(self).recency() == #[trigger] write_order(
                    keep_live(old(self).recency(), live),
                    k.deep_view(),
                    old(self).capacity(),
                ),
            forall|e: EntryModel| #[trigger] final(self).entries().contains(e)
                <==> (e == (k.deep_view(), v) || (old(self).entries().contains(e) && e.0 != k.deep_view()
                    && final(self).recency().contains(e.0))),
            final(self).entries().contains((k.deep_view(), v)),
            final(self).ttl_of(k.deep_view()) == old(self).default_ttl(),
            forall|j: KeyModel| #[trigger] has_key(final(self).entries(), j) && j != k.deep_view()
                ==> final(self).ttl_of(j) == old(self).ttl_of(j),
            forall|x: bool| #[trigger] final(self).entries().contains((k.deep_view(), x)) ==> x == v,
            final(self).capacity() == old(self).capacity(),
            final(self).default_ttl() == old(self).default_ttl(),
    {
        let live = self.live_flags();
        self.retain(&live);
        let ghost mid = *self;
        let ghost kv = k.deep_view();
        self.write(k, v);
        proof {
            lemma_has_key_from(self.entries(), mid.entries(), kv);
            assert forall|j: KeyModel| #[trigger] has_key(self.entries(), j) && j != kv
                implies self.ttl_of(j) == old(self).ttl_of(j) by {
                assert(has_key(mid.entries(), j));
            }
        }
        proof {
            assert(final(self).recency() == write_order(keep_live(old(self).recency(), live@), k.deep_view(), old(self).capacity()));
        }
    }

    /// Changes the bound. Entries the store reports expired go at once;
    /// then, while more than `cap` remain, the least recently used go.
    pub fn set_capacity(&mut self, cap: usize)
        requires
            old(self).wf(),
            cap >= 1,
        ensures
            final(self).wf(),
            final(self).capacity() == cap as nat,
            exists|live: Seq<bool>| live.len() == old(self).recency().len()
                && final(self).recency() == #[trigger] shrink_order(keep_live(old(self).recency(), live), cap as nat),
            forall|e: EntryModel| #[trigger] final(self).entries().contains(e)
                <==> (old(self).entries().contains(e) && final(self).recency().contains(e.0)),
            final(self).recency().len() <= cap,
            final(self).keeps_ttls(old(self)),
            final(self).default_ttl() == old(self).default_ttl(),
    {
        let live = self.live_flags();
        self.retain(&live);
        let ghost mid = *self;
        self.shrink(cap);
        proof {
            lemma_has_key_sub(self.entries(), mid.entries());
            assert forall|j: KeyModel| #[trigger] has_key(self.entries(), j)
                implies self.ttl_of(j) == old(self).ttl_of(j) by {
                assert(has_key(mid.entries(), j));
            }
        }
    }

    /// Sets the time-to-live of entries written from now on; the store,
    /// with each stored entry's expiry, is left as it was.
    pub fn set_ttl(&mut self, ttl: Duration)
        requires
            old(self).wf(),
            duration_secs(ttl) <= MAX_TTL_SECS,
        ensures
            final(self).wf(),
            final(self).default_ttl() == ttl,
            final(self).store() == old(self).store(),
            final(self).entries() == old(self).entries(),
            final(self).capacity() == old(self).capacity(),
            final(self).recency() == old(self).recency(),
    {
        self.ttl = ttl;
    }

    /// The value stored for `k`, while its entry is live; a live entry
    /// counts as used. Only the value last written for `k` can come back,
    /// and nothing once the entry has been evicted or cleared.
    pub fn get(&mut self, k: &Vec<String>) -> (r: Option<&bool>)
        requires
            old(self).wf(),
        ensures
            final(self).wf(),
            r matches Some(v) ==> final(self).entries().contains((k.deep_view(), *v)),
            final(self).recency() == if r is Some {
                touch_order(old(self).recency(), k.deep_view())
            } else {
                old(self).recency()
            },
            final(self).store() == old(self).store(),
            final(self).entries() == old(self).entries(),
            final(self).capacity() == old(self).capacity(),
            final(self).default_ttl() == old(self).default_ttl(),
    {
        let r = store_get(&self.cache, k);
        if r.is_some() {
            move_to_back(&mut self.order, k);
        }
        r
    }

    /// Whether a live entry for `k` is stored, which then counts as used;
    /// never once it has been evicted or cleared.
    pub fn has(&mut self, k: &Vec<String>) -> (r: bool)
        requires
            old(self).wf(),
        ensures
            final(self).wf(),
            r ==> has_key(final(self).entries(), k.deep_view()),
            final(self).recency() == if r {
                touch_order(old(self).recency(), k.deep_view())
            } else {
                old(self).recency()
            },
            final(self).store() == old(self).store(),
            final(self).entries() == old(self).entries(),
            final(self).capacity() == old(self).capacity(),
            final(self).default_ttl() == old(self).default_ttl(),
    {
        let r = store_contains(&self.cache, k);
        if r {
            self.touch(k);
        }
        r
    }

    /// Removes every entry; the bound and the time-to-live stay.
    pub fn clear(&mut self)
        requires
            old(self).wf(),
        ensures
            final(self).wf(),
            final(self).entries() == Seq::<EntryModel>::empty(),
            final(self).recency() == Seq::<KeyModel>::empty(),
            forall|k: KeyModel| !has_key(#[trigger] final(self).entries(), k),
            final(self).capacity() == old(self).capacity(),
            final(self).default_ttl() == old(self).default_ttl(),
    {
        store_clear(&mut self.cache);
        self.order = Vec::new();
        proof {
            assert(self.recency() =~= Seq::<KeyModel>::empty());
        }
    }
}

} // verus!
