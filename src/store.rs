//! The trusted boundary to `ttl_cache::TtlCache`.
use vstd::prelude::*;
use crate::entries::{EntryModel, KeyModel, has_key, without_key, keep_newest, after_insert};
use ttl_cache::TtlCache;
use std::hash::{BuildHasher, Hash};
use std::time::Duration;

verus! {

#[verifier::external_type_specification]
#[verifier::external_body]
#[verifier::reject_recursive_types(K)]
#[verifier::reject_recursive_types(V)]
#[verifier::reject_recursive_types(S)]
pub struct ExTtlCache<K: Eq + Hash, V, S: BuildHasher>(TtlCache<K, V, S>);

/// What a store holds, expired entries included, oldest first.
pub uninterp spec fn stored_entries(c: TtlCache<Vec<String>, bool>) -> Seq<EntryModel>;

/// The time-to-live that each stored key was last written with; its entry
/// expires that long after that write.
pub uninterp spec fn stored_ttls(c: TtlCache<Vec<String>, bool>) -> Map<KeyModel, Duration>;

/// The bound a store keeps its entry count to.
pub uninterp spec fn stored_capacity(c: TtlCache<Vec<String>, bool>) -> nat;

/// Relies on `TtlCache::new`: an empty store with the given bound.
#[verifier::external_body]
pub(crate) fn store_new(cap: usize) -> (r: TtlCache<Vec<String>, bool>)
    ensures
        stored_entries(r) == Seq::<EntryModel>::empty(),
        stored_capacity(r) == cap as nat,
{
    TtlCache::new(cap)
}

/// The longest time-to-live, in seconds, that an entry may be given. An
/// entry expires at the current instant plus its time-to-live, and that sum
/// stays far from overflowing under this bound.
pub const MAX_TTL_SECS: u64 = 4294967296;

/// Relies on `TtlCache::insert`: the entry for `k` moves to the newest end
/// with value `v` (any older entry for `k` is replaced), and when the store
/// then holds more than its bound, the oldest entry is dropped. The entry
/// for `k` expires `ttl` from now; every other entry keeps its expiry.
#[verifier::external_body]
pub(crate) fn store_insert(c: &mut TtlCache<Vec<String>, bool>, k: Vec<String>, v: bool, ttl: Duration)
    requires
        duration_secs(ttl) <= MAX_TTL_SECS,
    ensures
        stored_entries(*final(c)) == after_insert(
            stored_entries(*old(c)),
            k.deep_view(),
            v,
            stored_capacity(*old(c)),
        ),
        stored_capacity(*final(c)) == stored_capacity(*old(c)),
        has_key(stored_entries(*final(c)), k.deep_view()) ==> stored_ttls(*final(c))[k.deep_view()] == ttl,
        forall|j: KeyModel| #[trigger] has_key(stored_entries(*final(c)), j) && j != k.deep_view()
            ==> stored_ttls(*final(c))[j] == stored_ttls(*old(c))[j],
{
    c.insert(k, v, ttl);
}

/// Relies on `TtlCache::get`: a value is returned only from the stored
/// entry for `k`, and only while it has not expired.
#[verifier::external_body]
pub(crate) fn store_get<'a>(c: &'a TtlCache<Vec<String>, bool>, k: &Vec<String>) -> (r: Option<&'a bool>)
    ensures
        r matches Some(x) ==> stored_entries(*c).contains((k.deep_view(), *x)),
{
    c.get(k)
}

/// Relies on `TtlCache::contains_key`: true only when an unexpired entry
/// for `k` is stored.
#[verifier::external_body]
pub(crate) fn store_contains(c: &TtlCache<Vec<String>, bool>, k: &Vec<String>) -> (r: bool)
    ensures
        r ==> has_key(stored_entries(*c), k.deep_view()),
{
    c.contains_key(k)
}

/// Relies on `TtlCache::remove`: the entry for `k`, if any, leaves the
/// store; the others keep their expiry.
#[verifier::external_body]
pub(crate) fn store_remove(c: &mut TtlCache<Vec<String>, bool>, k: &Vec<String>)
    ensures
        stored_entries(*final(c)) == without_key(stored_entries(*old(c)), k.deep_view()),
        stored_capacity(*final(c)) == stored_capacity(*old(c)),
        forall|j: KeyModel| #[trigger] has_key(stored_entries(*final(c)), j)
            ==> stored_ttls(*final(c))[j] == stored_ttls(*old(c))[j],
{
    c.remove(k);
}

/// Relies on `TtlCache::set_capacity`: the oldest entries are dropped until
/// at most `cap` remain, and `cap` becomes the bound; the entries that stay
/// keep their expiry.
#[verifier::external_body]
pub(crate) fn store_set_capacity(c: &mut TtlCache<Vec<String>, bool>, cap: usize)
    ensures
        stored_entries(*final(c)) == keep_newest(stored_entries(*old(c)), cap as nat),
        stored_capacity(*final(c)) == cap as nat,
        forall|j: KeyModel| #[trigger] has_key(stored_entries(*final(c)), j)
            ==> stored_ttls(*final(c))[j] == stored_ttls(*old(c))[j],
{
    c.set_capacity(cap)
}

/// Relies on `TtlCache::clear`: every entry leaves; the bound stays.
#[verifier::external_body]
pub(crate) fn store_clear(c: &mut TtlCache<Vec<String>, bool>)
    ensures
        stored_entries(*final(c)) == Seq::<EntryModel>::empty(),
        stored_capacity(*final(c)) == stored_capacity(*old(c)),
{
    c.clear()
}

} // verus!

verus! {

/// The duration of `secs` whole seconds.
pub uninterp spec fn duration_of_secs(secs: u64) -> Duration;

/// The whole seconds of a duration.
pub uninterp spec fn duration_secs(d: Duration) -> u64;

/// Relies on `Duration::from_secs`: the duration of whole seconds, whose
/// `as_secs` gives `secs` back.
#[verifier::external_body]
pub(crate) fn duration_from_secs(secs: u64) -> (r: Duration)
    ensures
        r == duration_of_secs(secs),
        duration_secs(r) == secs,
{
    Duration::from_secs(secs)
}

} // verus!
