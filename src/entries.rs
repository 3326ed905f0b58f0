//! The mathematical model of what the cache stores.
use vstd::prelude::*;

verus! {

/// A key as the model sees it: the characters of each of its parts.
pub type KeyModel = Seq<Seq<char>>;

/// A stored entry: its key and its value.
pub type EntryModel = (KeyModel, bool);

/// Whether some stored entry has key `k`.
pub open spec fn has_key(s: Seq<EntryModel>, k: KeyModel) -> bool {
    exists|i: int| 0 <= i < s.len() && (#[trigger] s[i]).0 == k
}

/// No two stored entries share a key.
pub open spec fn keys_distinct(s: Seq<EntryModel>) -> bool {
    forall|i: int, j: int|
        0 <= i < s.len() && 0 <= j < s.len() && i != j ==> (#[trigger] s[i]).0 != (#[trigger] s[j]).0
}

/// The entries of `s` whose key is not `k`, in their order.
pub open spec fn without_key(s: Seq<EntryModel>, k: KeyModel) -> Seq<EntryModel>
    decreases s.len(),
{
    if s.len() == 0 {
        s
    } else if s.last().0 == k {
        without_key(s.drop_last(), k)
    } else {
        without_key(s.drop_last(), k).push(s.last())
    }
}

/// Drops the oldest entries until at most `cap` remain.
pub open spec fn keep_newest(s: Seq<EntryModel>, cap: nat) -> Seq<EntryModel> {
    if s.len() > cap {
        s.subrange(s.len() - cap, s.len() as int)
    } else {
        s
    }
}

/// The entries after `k` is written with `v` into `s` under bound `cap`:
/// any entry for `k` leaves, the new one becomes the newest, and if that
/// overflows the bound the oldest entry is dropped.
pub open spec fn after_insert(s: Seq<EntryModel>, k: KeyModel, v: bool, cap: nat) -> Seq<EntryModel> {
    let t = without_key(s, k).push((k, v));
    if t.len() > cap {
        t.drop_first()
    } else {
        t
    }
}

/// What removing a key leaves: exactly the entries with another key, in a
/// sequence no longer than before, one shorter when the key was there once.
pub proof fn lemma_without_key(s: Seq<EntryModel>, k: KeyModel)
    ensures
        without_key(s, k).len() <= s.len(),
        forall|e: EntryModel| #[trigger] without_key(s, k).contains(e) <==> (s.contains(e) && e.0 != k),
        !has_key(without_key(s, k), k),
        !has_key(s, k) ==> without_key(s, k) == s,
        keys_distinct(s) ==> keys_distinct(without_key(s, k)),
        keys_distinct(s) && has_key(s, k) ==> without_key(s, k).len() == s.len() - 1,
    decreases s.len(),
{
    if s.len() > 0 {
        let d = s.drop_last();
        lemma_without_key(d, k);
        let w = without_key(d, k);
        assert(s == d.push(s.last()));
        assert forall|e: EntryModel| s.contains(e) <==> (d.contains(e) || e == s.last()) by {
            if s.contains(e) {
                let i = choose|i: int| 0 <= i < s.len() && s[i] == e;
                if i < d.len() {
                    assert(d[i] == e);
                }
            }
            if d.contains(e) {
                let i = choose|i: int| 0 <= i < d.len() && d[i] == e;
                assert(s[i] == e);
            }
            if e == s.last() {
                assert(s[s.len() - 1] == e);
            }
        }
        if s.last().0 != k {
            let r = w.push(s.last());
            assert forall|e: EntryModel| r.contains(e) <==> (w.contains(e) || e == s.last()) by {
                if r.contains(e) {
                    let i = choose|i: int| 0 <= i < r.len() && r[i] == e;
                    if i < w.len() {
                        assert(w[i] == e);
                    }
                }
                if w.contains(e) {
                    let i = choose|i: int| 0 <= i < w.len() && w[i] == e;
                    assert(r[i] == e);
                }
                if e == s.last() {
                    assert(r[r.len() - 1] == e);
                }
            }
            assert(!has_key(r, k)) by {
                if has_key(r, k) {
                    let i = choose|i: int| 0 <= i < r.len() && (#[trigger] r[i]).0 == k;
                    if i < w.len() {
                        assert(w[i].0 == k);
                    }
                }
            }
            if !has_key(s, k) {
                assert(!has_key(d, k)) by {
                    if has_key(d, k) {
                        let i = choose|i: int| 0 <= i < d.len() && (#[trigger] d[i]).0 == k;
                        assert(s[i].0 == k);
                    }
                }
                assert(r == s);
            }
            if keys_distinct(s) {
                assert(keys_distinct(d)) by {
                    assert forall|i: int, j: int|
                        0 <= i < d.len() && 0 <= j < d.len() && i != j implies (#[trigger] d[i]).0 != (#[trigger] d[j]).0 by {
                        assert(s[i] == d[i] && s[j] == d[j]);
                    }
                }
                assert forall|i: int, j: int|
                    0 <= i < r.len() && 0 <= j < r.len() && i != j implies (#[trigger] r[i]).0 != (#[trigger] r[j]).0 by {
                    if i < w.len() && j < w.len() {
                        assert(r[i] == w[i] && r[j] == w[j]);
                    } else if i < w.len() {
                        assert(w.contains(w[i]));
                        let m = choose|m: int| 0 <= m < d.len() && d[m] == w[i];
                        assert(s[m] == d[m]);
                        assert(s[s.len() - 1] == s.last());
                    } else if j < w.len() {
                        assert(w.contains(w[j]));
                        let m = choose|m: int| 0 <= m < d.len() && d[m] == w[j];
                        assert(s[m] == d[m]);
                        assert(s[s.len() - 1] == s.last());
                    }
                }
                if has_key(s, k) {
                    assert(has_key(d, k)) by {
                        let i = choose|i: int| 0 <= i < s.len() && (#[trigger] s[i]).0 == k;
                        assert(i != s.len() - 1);
                        assert(d[i] == s[i]);
                    }
                }
            }
        } else {
            if keys_distinct(s) {
                assert(!has_key(d, k)) by {
                    if has_key(d, k) {
                        let i = choose|i: int| 0 <= i < d.len() && (#[trigger] d[i]).0 == k;
                        assert(s[i] == d[i]);
                        assert(s[s.len() - 1].0 == k);
                    }
                }
                assert(keys_distinct(d)) by {
                    assert forall|i: int, j: int|
                        0 <= i < d.len() && 0 <= j < d.len() && i != j implies (#[trigger] d[i]).0 != (#[trigger] d[j]).0 by {
                        assert(s[i] == d[i] && s[j] == d[j]);
                    }
                }
            }
            assert(has_key(s, k)) by {
                assert(s[s.len() - 1].0 == k);
            }
        }
    }
}

/// Where `k` stands in a recency order that holds it.
pub open spec fn key_index(o: Seq<KeyModel>, k: KeyModel) -> int {
    choose|j: int| 0 <= j < o.len() && o[j] == k
}

/// A use of `k`: it moves to the most recent end, if it is there.
pub open spec fn touch_order(o: Seq<KeyModel>, k: KeyModel) -> Seq<KeyModel> {
    if o.contains(k) {
        o.remove(key_index(o, k)).push(k)
    } else {
        o
    }
}

/// A write of `k` under bound `cap`: a key already there moves to the most
/// recent end; a new key is added there, and when `cap` keys are already
/// held the least recently used one is evicted first.
pub open spec fn write_order(o: Seq<KeyModel>, k: KeyModel, cap: nat) -> Seq<KeyModel> {
    if o.contains(k) {
        touch_order(o, k)
    } else if o.len() >= cap {
        o.drop_first().push(k)
    } else {
        o.push(k)
    }
}

/// Evicts the least recently used keys until at most `cap` remain.
pub open spec fn shrink_order(o: Seq<KeyModel>, cap: nat) -> Seq<KeyModel> {
    if o.len() > cap {
        o.subrange(o.len() - cap, o.len() as int)
    } else {
        o
    }
}

/// The keys of `o` whose flag in `live` is set, in their order.
pub open spec fn keep_live(o: Seq<KeyModel>, live: Seq<bool>) -> Seq<KeyModel>
    decreases o.len(),
{
    if o.len() == 0 || live.len() == 0 {
        Seq::empty()
    } else {
        let rest = keep_live(o.drop_first(), live.drop_first());
        if live[0] {
            seq![o[0]] + rest
        } else {
            rest
        }
    }
}

/// Whatever the flags, only keys of `o` are kept, each once if `o` holds
/// each once.
pub proof fn lemma_keep_live(o: Seq<KeyModel>, live: Seq<bool>)
    ensures
        forall|e: KeyModel| #[trigger] keep_live(o, live).contains(e) ==> o.contains(e),
        o.no_duplicates() ==> keep_live(o, live).no_duplicates(),
    decreases o.len(),
{
    if o.len() > 0 && live.len() > 0 {
        let d = o.drop_first();
        lemma_keep_live(d, live.drop_first());
        let rest = keep_live(d, live.drop_first());
        assert forall|e: KeyModel| d.contains(e) implies o.contains(e) by {
            let i = choose|i: int| 0 <= i < d.len() && d[i] == e;
            assert(o[i + 1] == e);
        }
        if o.no_duplicates() {
            assert(d.no_duplicates()) by {
                assert forall|i: int, j: int| 0 <= i < d.len() && 0 <= j < d.len() && i != j implies d[i] != d[j] by {
                    assert(d[i] == o[i + 1] && d[j] == o[j + 1]);
                }
            }
            assert(!rest.contains(o[0])) by {
                if rest.contains(o[0]) {
                    let i = choose|i: int| 0 <= i < d.len() && d[i] == o[0];
                    assert(o[i + 1] == o[0]);
                }
            }
        }
        if live[0] {
            let r = seq![o[0]] + rest;
            assert forall|e: KeyModel| r.contains(e) implies o.contains(e) by {
                let i = choose|i: int| 0 <= i < r.len() && r[i] == e;
                if i == 0 {
                    assert(o[0] == e);
                } else {
                    assert(rest[i - 1] == e);
                    assert(rest.contains(e));
                    assert(d.contains(e));
                }
            }
            if o.no_duplicates() {
                assert forall|i: int, j: int| 0 <= i < r.len() && 0 <= j < r.len() && i != j implies r[i] != r[j] by {
                    if i > 0 && j > 0 {
                        assert(r[i] == rest[i - 1] && r[j] == rest[j - 1]);
                    } else if i > 0 {
                        assert(r[i] == rest[i - 1]);
                    } else {
                        assert(r[j] == rest[j - 1]);
                    }
                }
            }
        }
    }
}

/// With every flag after the first set, only the first key can go.
pub proof fn lemma_keep_all(o: Seq<KeyModel>, live: Seq<bool>)
    requires
        live.len() == o.len(),
        forall|i: int| 0 <= i < live.len() ==> live[i],
    ensures
        keep_live(o, live) == o,
    decreases o.len(),
{
    if o.len() > 0 {
        lemma_keep_all(o.drop_first(), live.drop_first());
        assert(seq![o[0]] + o.drop_first() =~= o);
    }
}

/// Keys of a sequence whose entries all come from `b`, but for entries of
/// key `x`, are keys of `b`.
pub proof fn lemma_has_key_from(a: Seq<EntryModel>, b: Seq<EntryModel>, x: KeyModel)
    requires
        forall|e: EntryModel| #[trigger] a.contains(e) ==> e.0 == x || b.contains(e),
    ensures
        forall|j: KeyModel| #[trigger] has_key(a, j) && j != x ==> has_key(b, j),
{
    assert forall|j: KeyModel| #[trigger] has_key(a, j) && j != x implies has_key(b, j) by {
        let i = choose|i: int| 0 <= i < a.len() && (#[trigger] a[i]).0 == j;
        assert(a.contains(a[i]));
        let m = choose|m: int| 0 <= m < b.len() && b[m] == a[i];
        assert(b[m].0 == j);
    }
}

/// Keys of a sequence whose entries all come from `b` are keys of `b`.
pub proof fn lemma_has_key_sub(a: Seq<EntryModel>, b: Seq<EntryModel>)
    requires
        forall|e: EntryModel| #[trigger] a.contains(e) ==> b.contains(e),
    ensures
        forall|j: KeyModel| #[trigger] has_key(a, j) ==> has_key(b, j),
{
    assert forall|j: KeyModel| #[trigger] has_key(a, j) implies has_key(b, j) by {
        let i = choose|i: int| 0 <= i < a.len() && (#[trigger] a[i]).0 == j;
        assert(a.contains(a[i]));
        let m = choose|m: int| 0 <= m < b.len() && b[m] == a[i];
        assert(b[m].0 == j);
    }
}

} // verus!
