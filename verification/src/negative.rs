//! A bounded record of lookups that failed, so that a path known to lead
//! nowhere is refused without another look at the file system. It keeps the
//! keys used most recently, in an `lru::LruCache`.

use vstd::prelude::*;

verus! {

/// `lru::LruCache`. What one holds goes by the names `lru_keys` and
/// `lru_cap`.
#[verifier::external_type_specification]
#[verifier::external_body]
#[verifier::reject_recursive_types(K)]
#[verifier::reject_recursive_types(V)]
#[verifier::reject_recursive_types(S)]
pub struct ExLruCache<K, V, S>(lru::LruCache<K, V, S>);

/// `lru::DefaultHasher`, the hasher of an `LruCache` made with `new`. It only
/// occurs in the cache's type.
#[verifier::external_type_specification]
#[verifier::external_body]
pub struct ExDefaultHasher(lru::DefaultHasher);

/// The keys an LRU cache holds, the one used most recently first.
pub uninterp spec fn lru_keys(c: lru::LruCache<Vec<u8>, ()>) -> Seq<Seq<u8>>;

/// The number of keys an LRU cache was made to hold at most.
pub uninterp spec fn lru_cap(c: lru::LruCache<Vec<u8>, ()>) -> nat;

/// `keys` without `k`, the others in their order.
pub open spec fn without(keys: Seq<Seq<u8>>, k: Seq<u8>) -> Seq<Seq<u8>>
    decreases keys.len(),
{
    if keys.len() == 0 {
        keys
    } else if keys.last() == k {
        without(keys.drop_last(), k)
    } else {
        without(keys.drop_last(), k).push(keys.last())
    }
}

/// The keys after `k` was used: `k` comes first, the others follow in their
/// order.
pub open spec fn touched(keys: Seq<Seq<u8>>, k: Seq<u8>) -> Seq<Seq<u8>> {
    seq![k] + without(keys, k)
}

/// The keys after `k` was put into a cache that holds at most `cap`. A key
/// that is there already only moves to the front. A new key goes to the
/// front, and the key used least recently leaves if the cache is full.
pub open spec fn recorded(keys: Seq<Seq<u8>>, k: Seq<u8>, cap: nat) -> Seq<Seq<u8>> {
    if keys.contains(k) {
        touched(keys, k)
    } else if keys.len() >= cap && keys.len() > 0 {
        seq![k] + keys.drop_last()
    } else {
        seq![k] + keys
    }
}

/// No key occurs twice.
pub open spec fn distinct(keys: Seq<Seq<u8>>) -> bool {
    forall|i: int, j: int| 0 <= i < j < keys.len() ==> keys[i] != keys[j]
}

/// `without` removes `k`, keeps every other key, and keeps distinct keys
/// distinct. It removes something exactly when `k` is among the keys.
pub proof fn lemma_without(keys: Seq<Seq<u8>>, k: Seq<u8>)
    ensures
        !without(keys, k).contains(k),
        forall|x: Seq<u8>| x != k ==> (without(keys, k).contains(x) <==> keys.contains(x)),
        without(keys, k).len() <= keys.len(),
        keys.contains(k) ==> without(keys, k).len() < keys.len(),
        !keys.contains(k) ==> without(keys, k) == keys,
        distinct(keys) ==> distinct(without(keys, k)),
    decreases keys.len(),
{
    if keys.len() > 0 {
        let front = keys.drop_last();
        let w = without(front, k);
        lemma_without(front, k);
        assert forall|x: Seq<u8>| keys.contains(x) <==> (front.contains(x) || x == keys.last()) by {
            if keys.contains(x) {
                let i = choose|i: int| 0 <= i < keys.len() && keys[i] == x;
                if i < front.len() {
                    assert(front[i] == x);
                }
            }
            if front.contains(x) {
                let i = choose|i: int| 0 <= i < front.len() && front[i] == x;
                assert(keys[i] == x);
            }
            if x == keys.last() {
                assert(keys[keys.len() - 1] == x);
            }
        }
        if keys.last() == k {
        } else {
            let r = w.push(keys.last());
            assert forall|x: Seq<u8>| r.contains(x) <==> (w.contains(x) || x == keys.last()) by {
                if r.contains(x) {
                    let i = choose|i: int| 0 <= i < r.len() && r[i] == x;
                    if i < w.len() {
                        assert(w[i] == x);
                    }
                }
                if w.contains(x) {
                    let i = choose|i: int| 0 <= i < w.len() && w[i] == x;
                    assert(r[i] == x);
                }
                if x == keys.last() {
                    assert(r[r.len() - 1] == x);
                }
            }
            if !keys.contains(k) {
                assert(r =~= keys);
            }
            if distinct(keys) {
                assert(distinct(front)) by {
                    assert forall|i: int, j: int| 0 <= i < j < front.len() implies front[i]
                        != front[j] by {
                        assert(keys[i] != keys[j]);
                    }
                }
                assert forall|i: int, j: int| 0 <= i < j < r.len() implies r[i] != r[j] by {
                    if j == r.len() - 1 {
                        assert(w.contains(r[i]));
                        assert(front.contains(r[i]));
                        let m = choose|m: int| 0 <= m < front.len() && front[m] == r[i];
                        assert(keys[m] != keys[keys.len() - 1]);
                    }
                }
            }
        }
    }
}

/// Putting a key keeps the keys distinct and within the capacity, and the
/// key is held afterwards.
pub proof fn lemma_recorded(keys: Seq<Seq<u8>>, k: Seq<u8>, cap: nat)
    requires
        distinct(keys),
        keys.len() <= cap,
        cap > 0,
    ensures
        distinct(recorded(keys, k, cap)),
        recorded(keys, k, cap).len() <= cap,
        recorded(keys, k, cap).len() > 0,
        recorded(keys, k, cap)[0] == k,
{
    lemma_without(keys, k);
    let r = recorded(keys, k, cap);
    let tail = if keys.contains(k) {
        without(keys, k)
    } else if keys.len() >= cap && keys.len() > 0 {
        keys.drop_last()
    } else {
        keys
    };
    assert(r == seq![k] + tail);
    assert(distinct(tail) && !tail.contains(k)) by {
        if !keys.contains(k) {
            assert forall|i: int| 0 <= i < tail.len() implies tail[i] != k by {
                assert(keys[i] == tail[i]);
                assert(keys.contains(keys[i]));
            }
            assert forall|i: int, j: int| 0 <= i < j < tail.len() implies tail[i] != tail[j] by {
                assert(keys[i] != keys[j]);
            }
        }
    }
    assert forall|i: int, j: int| 0 <= i < j < r.len() implies r[i] != r[j] by {
        assert(r[j] == tail[j - 1]);
        if i == 0 {
            assert(tail.contains(tail[j - 1]));
        } else {
            assert(r[i] == tail[i - 1]);
        }
    }
}

/// `lru::LruCache::new`: an empty cache that holds at most `cap` keys.
#[verifier::external_body]
fn lru_new(cap: usize) -> (c: lru::LruCache<Vec<u8>, ()>)
    requires
        cap > 0,
    ensures
        lru_keys(c) == Seq::<Seq<u8>>::empty(),
        lru_cap(c) == cap,
{
    lru::LruCache::new(core::num::NonZeroUsize::new(cap).unwrap())
}

/// `lru::LruCache::get`, reduced to whether the key is held: a key that is
/// held becomes the one used most recently, and nothing else changes.
#[verifier::external_body]
fn lru_get(c: &mut lru::LruCache<Vec<u8>, ()>, key: &[u8]) -> (hit: bool)
    ensures
        hit == lru_keys(*old(c)).contains(key@),
        lru_keys(*final(c)) == if hit {
            touched(lru_keys(*old(c)), key@)
        } else {
            lru_keys(*old(c))
        },
        lru_cap(*final(c)) == lru_cap(*old(c)),
{
    c.get(key).is_some()
}

/// `lru::LruCache::put` with the unit value: the key becomes the one used
/// most recently, and the key used least recently leaves a full cache to
/// make room for a new one.
#[verifier::external_body]
fn lru_put(c: &mut lru::LruCache<Vec<u8>, ()>, key: Vec<u8>)
    ensures
        lru_keys(*final(c)) == recorded(lru_keys(*old(c)), key@, lru_cap(*old(c))),
        lru_cap(*final(c)) == lru_cap(*old(c)),
{
    c.put(key, ());
}

/// The paths that are known to lead nowhere, at most as many as the cache
/// was made for, those used most recently.
pub struct NegativeCache {
    cache: lru::LruCache<Vec<u8>, ()>,
}

impl NegativeCache {
    /// The keys held, the one used most recently first.
    pub closed spec fn keys(&self) -> Seq<Seq<u8>> {
        lru_keys(self.cache)
    }

    /// The number of keys held at most.
    pub closed spec fn capacity(&self) -> nat {
        lru_cap(self.cache)
    }

    /// The keys are distinct and no more than the capacity.
    pub open spec fn wf(&self) -> bool {
        &&& distinct(self.keys())
        &&& self.keys().len() <= self.capacity()
        &&& self.capacity() > 0
    }

    /// An empty cache for at most `cap` keys.
    pub fn new(cap: usize) -> (r: Self)
        requires
            cap > 0,
        ensures
            r.wf(),
            r.keys() == Seq::<Seq<u8>>::empty(),
            r.capacity() == cap,
    {
        Self { cache: lru_new(cap) }
    }

    /// Whether `key` is held. A key that is held counts as used by this.
    pub fn check(&mut self, key: &[u8]) -> (hit: bool)
        requires
            old(self).wf(),
        ensures
            final(self).wf(),
            hit == old(self).keys().contains(key@),
            final(self).keys() == if hit {
                touched(old(self).keys(), key@)
            } else {
                old(self).keys()
            },
            final(self).capacity() == old(self).capacity(),
    {
        proof {
            lemma_without(self.keys(), key@);
            if self.keys().contains(key@) {
                lemma_recorded(self.keys(), key@, self.capacity());
            }
        }
        lru_get(&mut self.cache, key)
    }

    /// Remembers `key` as a failed lookup. The key used least recently makes
    /// room for it if the cache is full.
    pub fn record_failure(&mut self, key: Vec<u8>)
        requires
            old(self).wf(),
        ensures
            final(self).wf(),
            final(self).keys() == recorded(old(self).keys(), key@, old(self).capacity()),
            final(self).capacity() == old(self).capacity(),
    {
        proof {
            lemma_recorded(self.keys(), key@, self.capacity());
        }
        lru_put(&mut self.cache, key)
    }
}

/// A new key put into a full cache drives out the key used least recently
/// and no other: the new key comes first, and the others keep their order.
pub proof fn law_evicts_least_recent(keys: Seq<Seq<u8>>, k: Seq<u8>, cap: nat)
    requires
        distinct(keys),
        keys.len() == cap,
        cap > 0,
        !keys.contains(k),
    ensures
        recorded(keys, k, cap) == seq![k] + keys.drop_last(),
        !recorded(keys, k, cap).contains(keys.last()),
        forall|i: int| 0 <= i < cap - 1 ==> recorded(keys, k, cap).contains(#[trigger] keys[i]),
        recorded(keys, k, cap).len() == cap,
{
    let r = recorded(keys, k, cap);
    assert forall|i: int| 0 <= i < cap - 1 implies r.contains(#[trigger] keys[i]) by {
        assert(r[i + 1] == keys[i]);
    }
    if r.contains(keys.last()) {
        let i = choose|i: int| 0 <= i < r.len() && r[i] == keys.last();
        if i == 0 {
            assert(keys.contains(keys[keys.len() - 1]));
        } else {
            assert(r[i] == keys[i - 1]);
        }
    }
}

/// A key that was just used is not the next to leave: in a cache of more
/// than one key it outlives the next new key.
pub proof fn law_use_protects(keys: Seq<Seq<u8>>, used: Seq<u8>, k: Seq<u8>, cap: nat)
    requires
        distinct(keys),
        keys.len() <= cap,
        cap > 1,
        keys.contains(used),
    ensures
        recorded(touched(keys, used), k, cap).contains(used),
{
    lemma_without(keys, used);
    lemma_recorded(keys, used, cap);
    let t = touched(keys, used);
    assert(t == recorded(keys, used, cap));
    assert(t[0] == used);
    lemma_without(t, k);
    let r = recorded(t, k, cap);
    if t.contains(k) {
        if k == used {
            assert(r[0] == used);
        } else {
            assert(t.contains(used));
            assert(without(t, k).contains(used));
            let i = choose|i: int| 0 <= i < without(t, k).len() && without(t, k)[i] == used;
            assert(r[i + 1] == used);
        }
    } else if t.len() >= cap && t.len() > 0 {
        assert(t.drop_last()[0] == used);
        assert(r[1] == used);
    } else {
        assert(r[1] == used);
    }
}

} // verus!
