//! Properties of the cache over sequences of operations, stated over the
//! recency order that the operations' contracts use: `DefaultCache::write`
//! moves the order `o` to `write_order(o, k, cap)`, `shrink` to
//! `shrink_order(o, cap)`, `retain` to `keep_live(o, live)`, a read of a
//! live entry to `touch_order(o, k)`, and `clear` to the empty sequence. A
//! key is stored exactly when it is in the order, and `get` and `has`
//! report only stored entries.
use vstd::prelude::*;
use crate::DefaultCache;
use crate::entries::{EntryModel, has_key, KeyModel, key_index, touch_order, write_order, shrink_order, keep_live, lemma_keep_live};

verus! {

/// A write makes its key the most recent, keeps the bound, and evicts
/// nothing while there is room; with no room for a new key, exactly the
/// least recently used key goes.
pub proof fn lemma_write_evicts_least_recent(o: Seq<KeyModel>, k: KeyModel, cap: nat)
    requires
        o.no_duplicates(),
        o.len() <= cap,
        cap >= 1,
    ensures
        write_order(o, k, cap).no_duplicates(),
        write_order(o, k, cap).len() <= cap,
        write_order(o, k, cap).last() == k,
        forall|x: KeyModel| #[trigger] o.contains(x) && x != k ==> (write_order(o, k, cap).contains(x)
            || (!o.contains(k) && o.len() == cap && x == o[0])),
        forall|x: KeyModel| #[trigger] write_order(o, k, cap).contains(x) ==> x == k || o.contains(x),
        !o.contains(k) && o.len() < cap ==> write_order(o, k, cap) == o.push(k),
        !o.contains(k) && o.len() == cap ==> write_order(o, k, cap) == o.drop_first().push(k),
{
    let r = write_order(o, k, cap);
    let base = if o.contains(k) {
        o.remove(key_index(o, k))
    } else if o.len() >= cap {
        o.drop_first()
    } else {
        o
    };
    let skip: int = if o.contains(k) {
        key_index(o, k)
    } else if o.len() >= cap {
        -1
    } else {
        o.len() as int
    };
    assert(r == base.push(k));
    assert forall|i: int| 0 <= i < base.len() implies base[i] == o[if i < skip { i } else { i + 1 }] && o[if i < skip { i } else { i + 1 }] != k by {
        if o.contains(k) {
            let m = key_index(o, k);
            assert(o[m] == k);
        } else {
            assert(o.contains(o[if i < skip { i } else { i + 1 }]));
        }
    }
    assert forall|i: int, j: int| 0 <= i < r.len() && 0 <= j < r.len() && i != j implies r[i] != r[j] by {
        if i < base.len() && j < base.len() {
            assert(r[i] == base[i] && r[j] == base[j]);
        } else if i < base.len() {
            assert(r[i] == base[i]);
        } else if j < base.len() {
            assert(r[j] == base[j]);
        }
    }
    assert forall|x: KeyModel| #[trigger] r.contains(x) implies x == k || o.contains(x) by {
        let a = choose|a: int| 0 <= a < r.len() && r[a] == x;
        if a < base.len() {
            assert(r[a] == base[a]);
            assert(o.contains(o[if a < skip { a } else { a + 1 }]));
        }
    }
    assert forall|x: KeyModel| #[trigger] o.contains(x) && x != k implies (r.contains(x)
        || (!o.contains(k) && o.len() == cap && x == o[0])) by {
        let a = choose|a: int| 0 <= a < o.len() && o[a] == x;
        if a != skip && !(skip == -1 && a == 0) {
            let b = if a < skip { a } else { a - 1 };
            assert(base[b] == o[a]);
            assert(r[b] == x);
        } else if skip != -1 {
            assert(o.contains(k));
            assert(o[key_index(o, k)] == k);
        }
    }
}

/// With room for one entry, a write of `b` leaves `b` alone in the cache,
/// whatever was there.
pub proof fn lemma_capacity_one_holds_last_write(o: Seq<KeyModel>, b: KeyModel)
    requires
        o.no_duplicates(),
        o.len() <= 1,
    ensures
        write_order(o, b, 1) == seq![b],
{
    lemma_write_evicts_least_recent(o, b, 1);
    assert(write_order(o, b, 1) =~= seq![b]);
}

/// With room for two entries and no expiry in between, writing three
/// distinct keys `a`, `b`, `c` in turn keeps `b` and `c` and evicts `a`.
pub proof fn lemma_capacity_two_keeps_two_newest(o: Seq<KeyModel>, a: KeyModel, b: KeyModel, c: KeyModel)
    requires
        o.no_duplicates(),
        o.len() <= 2,
        a != b,
        b != c,
        a != c,
    ensures
        write_order(write_order(write_order(o, a, 2), b, 2), c, 2) == seq![b, c],
{
    lemma_write_evicts_least_recent(o, a, 2);
    let s1 = write_order(o, a, 2);
    lemma_write_evicts_least_recent(s1, b, 2);
    let s2 = write_order(s1, b, 2);
    assert(s2 =~= seq![a, b]) by {
        if s1.contains(b) {
            let i = choose|i: int| 0 <= i < s1.len() && s1[i] == b;
            assert(s1[s1.len() - 1] == a);
            assert(s1.len() == 2 && i == 0);
        }
        assert(s1[s1.len() - 1] == a);
    }
    assert(!s2.contains(c)) by {
        if s2.contains(c) {
            let i = choose|i: int| 0 <= i < s2.len() && s2[i] == c;
        }
    }
    assert(write_order(s2, c, 2) =~= seq![b, c]);
}

/// A read counts as use: with room for two entries and no expiry in
/// between, writing `a` and `b`, reading `a`, then writing a new key `d`
/// evicts `b` and keeps `a`.
pub proof fn lemma_read_refreshes_recency(o: Seq<KeyModel>, a: KeyModel, b: KeyModel, d: KeyModel)
    requires
        o.no_duplicates(),
        o.len() <= 2,
        a != b,
        b != d,
        a != d,
    ensures
        write_order(touch_order(write_order(write_order(o, a, 2), b, 2), a), d, 2) == seq![a, d],
{
    lemma_write_evicts_least_recent(o, a, 2);
    let s1 = write_order(o, a, 2);
    lemma_write_evicts_least_recent(s1, b, 2);
    let s2 = write_order(s1, b, 2);
    assert(s2 =~= seq![a, b]) by {
        if s1.contains(b) {
            let i = choose|i: int| 0 <= i < s1.len() && s1[i] == b;
            assert(s1[s1.len() - 1] == a);
            assert(s1.len() == 2 && i == 0);
        }
        assert(s1[s1.len() - 1] == a);
    }
    assert(s2.contains(a)) by {
        assert(s2[0] == a);
    }
    let m = key_index(s2, a);
    assert(m == 0);
    let s3 = touch_order(s2, a);
    assert(s3 =~= seq![b, a]);
    assert(!s3.contains(d)) by {
        if s3.contains(d) {
            let i = choose|i: int| 0 <= i < s3.len() && s3[i] == d;
        }
    }
    assert(write_order(s3, d, 2) =~= seq![a, d]);
}

/// Shrinking keeps the most recently used keys, at most `cap` of them,
/// and drops none while they fit.
pub proof fn lemma_shrink_keeps_most_recent(o: Seq<KeyModel>, cap: nat)
    ensures
        shrink_order(o, cap).len() <= cap || shrink_order(o, cap) == o,
        o.len() <= cap ==> shrink_order(o, cap) == o,
        o.len() > cap ==> shrink_order(o, cap).len() == cap,
        shrink_order(o, cap) == o.subrange(o.len() - shrink_order(o, cap).len(), o.len() as int),
{
    if o.len() <= cap {
        assert(o.subrange(0, o.len() as int) =~= o);
    }
}

/// Once `k` is not stored, it does not come back but through a write of
/// `k`: not through writes or reads of other keys, expiry of other
/// entries, a change of capacity, or clearing.
pub proof fn lemma_absent_stays_absent(
    o: Seq<KeyModel>,
    cap: nat,
    k: KeyModel,
    other: KeyModel,
    live: Seq<bool>,
)
    requires
        o.no_duplicates(),
        o.len() <= cap,
        cap >= 1,
        !o.contains(k),
        other != k,
    ensures
        !write_order(o, other, cap).contains(k),
        !touch_order(o, other).contains(k),
        !keep_live(o, live).contains(k),
        !shrink_order(o, cap).contains(k),
        !Seq::<KeyModel>::empty().contains(k),
{
    lemma_write_evicts_least_recent(o, other, cap);
    lemma_keep_live(o, live);
    let t = touch_order(o, other);
    if t.contains(k) {
        let i = choose|i: int| 0 <= i < t.len() && t[i] == k;
        if o.contains(other) {
            let m = key_index(o, other);
            if i < t.len() - 1 {
                assert(o[if i < m { i } else { i + 1 }] == k);
            }
        }
    }
    let s = shrink_order(o, cap);
    if s.contains(k) {
        let i = choose|i: int| 0 <= i < s.len() && s[i] == k;
    }
}

/// A cache with room for one entry holds no key but the one last written:
/// after `set(k, v)`, `has` and `get` find nothing under any other key.
pub proof fn lemma_single_slot_holds_last_write(c: DefaultCache, k: KeyModel, v: bool)
    requires
        c.wf(),
        c.capacity() == 1,
        c.entries().contains((k, v)),
    ensures
        forall|j: KeyModel| #[trigger] has_key(c.entries(), j) ==> j == k,
        forall|e: EntryModel| #[trigger] c.entries().contains(e) ==> e == (k, v),
{
    let s = c.entries();
    let m = choose|m: int| 0 <= m < s.len() && s[m] == (k, v);
    assert(s.len() == 1 && m == 0);
}

} // verus!
