//! The key-value store: a byte-string-to-byte-string map with insert,
//! lookup, delete, clear and glob-style key search.
//!
//! The store is modelled as a `Map<Seq<u8>, Seq<u8>>`; every operation states
//! exactly how it reads or changes that map.

use vstd::prelude::*;

use crate::glob::glob_matches;
use crate::glob::key_matches;
use crate::glob::GLOB_STAR;

verus! {

#[verifier::external_type_specification]
#[verifier::external_body]
#[verifier::reject_recursive_types(K)]
#[verifier::reject_recursive_types(V)]
#[verifier::reject_recursive_types(S)]
pub struct ExAHashMap<K, V, S>(ahash::AHashMap<K, V, S>);

#[verifier::external_type_specification]
#[verifier::external_body]
pub struct ExAHashRandomState(ahash::RandomState);

/// What a hash map of byte-string keys and values holds, as a mathematical
/// map over the byte sequences.
pub uninterp spec fn store_contents(m: ahash::AHashMap<Vec<u8>, Vec<u8>>) -> Map<
    Seq<u8>,
    Seq<u8>,
>;

/// The contents of a store with no entries.
pub open spec fn empty_store() -> Map<Seq<u8>, Seq<u8>> {
    Map::empty()
}

/// Whether the byte sequence `k` is the view of some element of `ks`.
pub open spec fn key_listed(ks: Seq<Vec<u8>>, k: Seq<u8>) -> bool {
    exists|i: int| 0 <= i < ks.len() && #[trigger] ks[i]@ == k
}

/// Whether `k` is the view of some element of `ks` at or past position
/// `from`, and matches the pattern `p`.
pub open spec fn matched_in_suffix(ks: Seq<Vec<u8>>, from: int, p: Seq<u8>, k: Seq<u8>) -> bool {
    exists|j: int| from <= j < ks.len() && #[trigger] ks[j]@ == k && glob_matches(p, k)
}

/// Whether the elements of `ks` are pairwise distinct byte sequences.
pub open spec fn keys_distinct(ks: Seq<Vec<u8>>) -> bool {
    forall|i: int, j: int| 0 <= i < j < ks.len() ==> #[trigger] ks[i]@ != #[trigger] ks[j]@
}

/// Relies on ahash::AHashMap::new: a freshly created map holds no entries.
#[verifier::external_body]
fn map_new() -> (r: ahash::AHashMap<Vec<u8>, Vec<u8>>)
    ensures
        store_contents(r) == empty_store(),
{
    ahash::AHashMap::new()
}

/// Relies on ahash::AHashMap::insert: the entry is added, replacing any
/// prior entry of the same key; no other entry changes.
#[verifier::external_body]
fn map_insert(m: &mut ahash::AHashMap<Vec<u8>, Vec<u8>>, k: Vec<u8>, v: Vec<u8>)
    ensures
        store_contents(*final(m)) == store_contents(*old(m)).insert(k@, v@),
{
    m.insert(k, v);
}

/// Relies on ahash::AHashMap::get (and Option::cloned): the present value of
/// the key, or absence, with the map unchanged.
#[verifier::external_body]
fn map_get(m: &ahash::AHashMap<Vec<u8>, Vec<u8>>, k: &[u8]) -> (r: Option<Vec<u8>>)
    ensures
        match r {
            Some(v) => store_contents(*m).contains_key(k@) && v@ == store_contents(*m)[k@],
            None => !store_contents(*m).contains_key(k@),
        },
{
    m.get(k).cloned()
}

/// Relies on ahash::AHashMap::remove: the entry of the key is taken out and
/// returned if it was present; no other entry changes.
#[verifier::external_body]
fn map_remove(m: &mut ahash::AHashMap<Vec<u8>, Vec<u8>>, k: &[u8]) -> (r: Option<Vec<u8>>)
    ensures
        store_contents(*final(m)) == store_contents(*old(m)).remove(k@),
        match r {
            Some(v) => store_contents(*old(m)).contains_key(k@) && v@ == store_contents(
                *old(m),
            )[k@],
            None => !store_contents(*old(m)).contains_key(k@),
        },
{
    m.remove(k)
}

/// Relies on std's HashMap::clear (reached through ahash::AHashMap's Deref):
/// every entry is removed.
#[verifier::external_body]
fn map_clear(m: &mut ahash::AHashMap<Vec<u8>, Vec<u8>>)
    ensures
        store_contents(*final(m)) == empty_store(),
{
    m.clear();
}

/// Relies on std's HashMap::keys (reached through ahash::AHashMap's Deref):
/// the keys come out once each, in no promised order, and are exactly the
/// keys held.
#[verifier::external_body]
fn map_keys(m: &ahash::AHashMap<Vec<u8>, Vec<u8>>) -> (r: Vec<Vec<u8>>)
    ensures
        keys_distinct(r@),
        forall|k: Seq<u8>| #[trigger]
            store_contents(*m).contains_key(k) <==> key_listed(r@, k),
{
    m.keys().cloned().collect()
}

/// The key-value store. Keys and values are both arbitrary byte sequences,
/// compared byte for byte; keys are unique and unordered.
pub struct Database {
    data: ahash::AHashMap<Vec<u8>, Vec<u8>>,
}

impl View for Database {
    type V = Map<Seq<u8>, Seq<u8>>;

    closed spec fn view(&self) -> Map<Seq<u8>, Seq<u8>> {
        store_contents(self.data)
    }
}

impl Default for Database {
    fn default() -> (r: Self)
        ensures
            r@ == empty_store(),
    {
        Self::new()
    }
}

impl Database {
    /// Creates an empty store.
    pub fn new() -> (r: Self)
        ensures
            r@ == empty_store(),
    {
        Database { data: map_new() }
    }

    /// Sets the value of a key. If the key already exists, the previous
    /// value is overwritten.
    pub fn insert(&mut self, key: Vec<u8>, value: Vec<u8>)
        ensures
            final(self)@ == old(self)@.insert(key@, value@),
    {
        map_insert(&mut self.data, key, value);
    }

    /// Gets the value of a key. Returns `Some(value)` if the key exists,
    /// `None` otherwise; the store is unchanged.
    pub fn get(&self, key: &[u8]) -> (r: Option<Vec<u8>>)
        ensures
            match r {
                Some(v) => self@.contains_key(key@) && v@ == self@[key@],
                None => !self@.contains_key(key@),
            },
    {
        map_get(&self.data, key)
    }

    /// Removes a key from the store. Returns the value of the key if it
    /// existed, `None` otherwise.
    pub fn remove(&mut self, key: &[u8]) -> (r: Option<Vec<u8>>)
        ensures
            final(self)@ == old(self)@.remove(key@),
            match r {
                Some(v) => old(self)@.contains_key(key@) && v@ == old(self)@[key@],
                None => !old(self)@.contains_key(key@),
            },
    {
        map_remove(&mut self.data, key)
    }

    /// Removes all keys from the store.
    pub fn clear(&mut self)
        ensures
            final(self)@ == empty_store(),
    {
        map_clear(&mut self.data);
    }

    /// Returns every currently-present key whose bytes match the glob
    /// pattern, each exactly once, in no promised order. The pattern of the
    /// single byte `*` returns all keys; any other pattern is matched over
    /// the whole key, and a pattern the engine rejects matches nothing.
    pub fn search_keys(&self, pattern: &[u8]) -> (r: Vec<Vec<u8>>)
        ensures
            keys_distinct(r@),
            pattern@ == seq![GLOB_STAR] ==> (forall|k: Seq<u8>| #[trigger]
                self@.contains_key(k) <==> key_listed(r@, k)),
            pattern@ != seq![GLOB_STAR] ==> (forall|k: Seq<u8>|
                (#[trigger] self@.contains_key(k) && glob_matches(pattern@, k)) <==> key_listed(
                    r@,
                    k,
                )),
    {
        let all = map_keys(&self.data);
        if pattern.len() == 1 && pattern[0] == GLOB_STAR {
            proof {
                assert(pattern@ =~= seq![GLOB_STAR]);
            }
            all
        } else {
            proof {
                assert(pattern@ != seq![GLOB_STAR]);
            }
            let mut rest = all;
            let mut out: Vec<Vec<u8>> = Vec::new();
            let ghost orig: Seq<Vec<u8>> = rest@;
            proof {
                assert(rest@ =~= orig.take(rest@.len() as int));
            }
            while rest.len() > 0
                invariant
                    rest@ =~= orig.take(rest@.len() as int),
                    rest@.len() <= orig.len(),
                    keys_distinct(orig),
                    keys_distinct(out@),
                    forall|k: Seq<u8>|
                        #![trigger key_listed(out@, k)]
                        #![trigger matched_in_suffix(orig, rest@.len() as int, pattern@, k)]
                        key_listed(out@, k) <==> matched_in_suffix(
                            orig,
                            rest@.len() as int,
                            pattern@,
                            k,
                        ),
                decreases rest@.len(),
            {
                let ghost rest0 = rest@;
                let ghost out0 = out@;
                match rest.pop() {
                    Some(key) => {
                        let ghost kview = key@;
                        let ghost n = rest@.len() as int;
                        proof {
                            assert(rest0[n] == orig.take(rest0.len() as int)[n]);
                            assert(orig[n]@ == kview);
                            assert(rest@ =~= orig.take(n));
                        }
                        let matched = key_matches(pattern, &key);
                        proof {
                            if key_listed(out0, kview) {
                                let j = choose|j: int|
                                    n + 1 <= j < orig.len() && #[trigger] orig[j]@ == kview
                                        && glob_matches(pattern@, kview);
                                assert(orig[n]@ == orig[j]@);
                                assert(false);
                            }
                        }
                        if matched {
                            out.push(key);
                            proof {
                                assert forall|i: int, j: int|
                                    0 <= i < j < out@.len() implies #[trigger] out@[i]@
                                    != #[trigger] out@[j]@ by {
                                    if j == out@.len() - 1 {
                                        assert(out@[i] == out0[i]);
                                        assert(key_listed(out0, kview) ==> false);
                                        if out@[i]@ == kview {
                                            assert(key_listed(out0, kview));
                                        }
                                    } else {
                                        assert(out@[i] == out0[i]);
                                        assert(out@[j] == out0[j]);
                                    }
                                }
                                assert forall|k: Seq<u8>| #[trigger]
                                    key_listed(out@, k) implies matched_in_suffix(
                                    orig,
                                    n,
                                    pattern@,
                                    k,
                                ) by {
                                    let i = choose|i: int|
                                        0 <= i < out@.len() && #[trigger] out@[i]@ == k;
                                    if i < out@.len() - 1 {
                                        assert(out0[i]@ == k);
                                        assert(key_listed(out0, k));
                                        let j = choose|j: int|
                                            n + 1 <= j < orig.len() && #[trigger] orig[j]@ == k
                                                && glob_matches(pattern@, k);
                                        assert(orig[j]@ == k && glob_matches(pattern@, k));
                                    } else {
                                        assert(k == kview);
                                        assert(orig[n]@ == k && glob_matches(pattern@, k));
                                    }
                                }
                                assert forall|k: Seq<u8>| matched_in_suffix(
                                    orig,
                                    n,
                                    pattern@,
                                    k,
                                ) implies #[trigger] key_listed(out@, k) by {
                                    let j = choose|j: int|
                                        n <= j < orig.len() && #[trigger] orig[j]@ == k
                                            && glob_matches(pattern@, k);
                                    if j == n {
                                        assert(out@[out@.len() - 1]@ == k);
                                    } else {
                                        assert(matched_in_suffix(orig, n + 1, pattern@, k));
                                        assert(key_listed(out0, k));
                                        let i = choose|i: int|
                                            0 <= i < out0.len() && #[trigger] out0[i]@ == k;
                                        assert(out@[i]@ == k);
                                    }
                                }
                            }
                        } else {
                            proof {
                                assert forall|k: Seq<u8>| matched_in_suffix(
                                    orig,
                                    n,
                                    pattern@,
                                    k,
                                ) implies #[trigger] key_listed(out@, k) by {
                                    let j = choose|j: int|
                                        n <= j < orig.len() && #[trigger] orig[j]@ == k
                                            && glob_matches(pattern@, k);
                                    if j == n {
                                        assert(!glob_matches(pattern@, kview));
                                        assert(false);
                                    } else {
                                        assert(matched_in_suffix(orig, n + 1, pattern@, k));
                                    }
                                }
                                assert forall|k: Seq<u8>| #[trigger]
                                    key_listed(out@, k) implies matched_in_suffix(
                                    orig,
                                    n,
                                    pattern@,
                                    k,
                                ) by {
                                    assert(matched_in_suffix(orig, n + 1, pattern@, k));
                                    let j = choose|j: int|
                                        n + 1 <= j < orig.len() && #[trigger] orig[j]@ == k
                                            && glob_matches(pattern@, k);
                                    assert(orig[j]@ == k && glob_matches(pattern@, k));
                                }
                            }
                        }
                    },
                    None => {
                        proof {
                            assert(false);
                        }
                    },
                }
            }
            proof {
                assert forall|k: Seq<u8>|
                    (#[trigger] self@.contains_key(k) && glob_matches(pattern@, k)) implies
                key_listed(out@, k) by {
                    assert(key_listed(orig, k));
                    let j = choose|j: int| 0 <= j < orig.len() && #[trigger] orig[j]@ == k;
                    assert(orig[j]@ == k && glob_matches(pattern@, k));
                    assert(rest@.len() == 0);
                    assert(matched_in_suffix(orig, rest@.len() as int, pattern@, k));
                }
                assert forall|k: Seq<u8>| #[trigger]
                    key_listed(out@, k) implies (self@.contains_key(k) && glob_matches(
                    pattern@,
                    k,
                )) by {
                    assert(matched_in_suffix(orig, 0, pattern@, k));
                    let j = choose|j: int|
                        0 <= j < orig.len() && #[trigger] orig[j]@ == k && glob_matches(
                            pattern@,
                            k,
                        );
                    assert(key_listed(orig, k));
                }
            }
            out
        }
    }
}

/// Law: setting a key and then reading it gives back exactly the value set,
/// for every key and value, the empty ones and non-text ones included.
pub proof fn lemma_set_then_get(m: Map<Seq<u8>, Seq<u8>>, k: Seq<u8>, v: Seq<u8>)
    ensures
        m.insert(k, v).contains_key(k),
        m.insert(k, v)[k] == v,
{
}

/// Law: after setting a key, deleting it reports it present and a later read
/// finds it absent; deleting an absent key reports it absent and changes
/// nothing.
pub proof fn lemma_set_then_delete(m: Map<Seq<u8>, Seq<u8>>, k: Seq<u8>, v: Seq<u8>)
    ensures
        m.insert(k, v).contains_key(k),
        !m.insert(k, v).remove(k).contains_key(k),
        !m.contains_key(k) ==> m.remove(k) == m,
{
    assert(!m.contains_key(k) ==> m.remove(k) =~= m);
}

/// Law: clearing leaves the store empty whatever it held — its ensures puts
/// no condition on the prior contents — and a read of any key afterwards
/// finds it absent.
pub proof fn lemma_clear_empties(k: Seq<u8>)
    ensures
        !empty_store().contains_key(k),
        empty_store().dom() =~= Set::empty(),
{
}

/// Law: writes to two different keys are independent — after both, each key
/// holds the value written to it, and the order of the two writes does not
/// matter, so neither write is lost whatever the interleaving.
pub proof fn lemma_independent_inserts(
    m: Map<Seq<u8>, Seq<u8>>,
    k1: Seq<u8>,
    v1: Seq<u8>,
    k2: Seq<u8>,
    v2: Seq<u8>,
)
    requires
        k1 != k2,
    ensures
        m.insert(k1, v1).insert(k2, v2)[k1] == v1,
        m.insert(k1, v1).insert(k2, v2)[k2] == v2,
        m.insert(k1, v1).insert(k2, v2).contains_key(k1),
        m.insert(k1, v1).insert(k2, v2).contains_key(k2),
        m.insert(k1, v1).insert(k2, v2) == m.insert(k2, v2).insert(k1, v1),
{
    assert(m.insert(k1, v1).insert(k2, v2) =~= m.insert(k2, v2).insert(k1, v1));
}

} // verus!
