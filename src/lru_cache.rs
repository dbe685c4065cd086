use std::collections::HashMap;
use std::hash::Hash;
use vstd::prelude::*;
use vstd::std_specs::hash::obeys_key_model;

use crate::linked_list::{Link, LinkedList};

verus! {

broadcast use vstd::std_specs::hash::group_hash_axioms;

/// A cache state as the sequence of its entries, from most recently used
/// (index 0) to least recently used (last index).
pub type Entries<K, T> = Seq<(K, T)>;

/// `s` holds an entry with key `k`.
pub open spec fn holds_key<K, T>(s: Entries<K, T>, k: K) -> bool {
    exists|i: int| 0 <= i < s.len() && #[trigger] s[i].0 == k
}

/// The position of the entry with key `k` (meaningful when `holds_key(s, k)`).
pub open spec fn key_pos<K, T>(s: Entries<K, T>, k: K) -> int {
    choose|i: int| 0 <= i < s.len() && #[trigger] s[i].0 == k
}

/// No two entries share a key.
pub open spec fn distinct_keys<K, T>(s: Entries<K, T>) -> bool {
    forall|i: int, j: int| 0 <= i < s.len() && 0 <= j < s.len() && i != j ==> #[trigger] s[i].0
        != #[trigger] s[j].0
}

/// The state after the entry at position `i` was used: it moves to the front,
/// the others keep their order.
pub open spec fn touched<K, T>(s: Entries<K, T>, i: int) -> Entries<K, T> {
    seq![s[i]] + s.remove(i)
}

/// The state after a new entry `(k, v)` was added to a cache of capacity
/// `cap`: when full, the least recently used entry goes first.
pub open spec fn inserted<K, T>(s: Entries<K, T>, cap: nat, k: K, v: T) -> Entries<K, T> {
    seq![(k, v)] + if s.len() >= cap {
        s.drop_last()
    } else {
        s
    }
}

/// The state after `get_or_compute(k, ..)` on a cache of capacity `cap`, where
/// `v` is what the computation gives on a miss.
pub open spec fn memo_step<K, T>(s: Entries<K, T>, cap: nat, k: K, v: T) -> Entries<K, T> {
    if holds_key(s, k) {
        touched(s, key_pos(s, k))
    } else {
        inserted(s, cap, k, v)
    }
}

/// The state after `get(k)`: a hit moves the entry to the front, a miss
/// changes nothing.
pub open spec fn lookup_step<K, T>(s: Entries<K, T>, k: K) -> Entries<K, T> {
    if holds_key(s, k) {
        touched(s, key_pos(s, k))
    } else {
        s
    }
}

/// The state reached from an empty cache of capacity `cap` by calling
/// `get_or_compute(ks[i], ..)` for each `i` in order, the `i`-th computation
/// giving `vs[i]`.
pub open spec fn fill<K, T>(cap: nat, ks: Seq<K>, vs: Seq<T>) -> Entries<K, T>
    decreases ks.len(),
{
    if ks.len() == 0 || vs.len() != ks.len() {
        Seq::empty()
    } else {
        memo_step(fill(cap, ks.drop_last(), vs.drop_last()), cap, ks.last(), vs.last())
    }
}

/// Both operations keep the keys distinct and the size within the capacity,
/// so every state reached from an empty cache by any sequence of calls has
/// `size() <= max_size()`.
pub proof fn lemma_steps_keep_bound<K, T>(s: Entries<K, T>, cap: nat, k: K, v: T)
    requires
        distinct_keys(s),
        s.len() <= cap,
        cap > 0,
    ensures
        distinct_keys(memo_step(s, cap, k, v)),
        memo_step(s, cap, k, v).len() <= cap,
        distinct_keys(lookup_step(s, k)),
        lookup_step(s, k).len() <= cap,
{
    if holds_key(s, k) {
        let p = key_pos(s, k);
        let t = touched(s, p);
        assert forall|i: int, j: int| 0 <= i < t.len() && 0 <= j < t.len() && i != j implies #[trigger] t[i].0
            != #[trigger] t[j].0 by {
            let a = if i == 0 { p } else if i <= p { i - 1 } else { i };
            let b = if j == 0 { p } else if j <= p { j - 1 } else { j };
            assert(t[i] == s[a]);
            assert(t[j] == s[b]);
        }
    } else {
        let t = inserted(s, cap, k, v);
        assert forall|i: int, j: int| 0 <= i < t.len() && 0 <= j < t.len() && i != j implies #[trigger] t[i].0
            != #[trigger] t[j].0 by {
            if i > 0 {
                assert(t[i] == s[i - 1]);
            }
            if j > 0 {
                assert(t[j] == s[j - 1]);
            }
        }
    }
}

/// Memoization: after `get_or_compute(k, ..)` the key is held at the front,
/// and a second `get_or_compute(k, ..)` is a hit that returns the same value
/// and leaves the state as it is, whatever its computation would give. Its
/// computation is not called: `get_or_compute` asks nothing of it on a hit.
pub proof fn lemma_memoized<K, T>(s: Entries<K, T>, cap: nat, k: K, v: T, w: T)
    requires
        distinct_keys(s),
        s.len() <= cap,
        cap > 0,
    ensures
        holds_key(memo_step(s, cap, k, v), k),
        key_pos(memo_step(s, cap, k, v), k) == 0,
        memo_step(memo_step(s, cap, k, v), cap, k, w) == memo_step(s, cap, k, v),
{
    lemma_steps_keep_bound(s, cap, k, v);
    let s1 = memo_step(s, cap, k, v);
    if holds_key(s, k) {
        assert(s1[0] == s[key_pos(s, k)]);
    }
    assert(s1[0].0 == k);
    assert(holds_key(s1, k));
    let p = key_pos(s1, k);
    assert(p == 0);
    assert(touched(s1, 0) =~= s1);
}

/// The first `n` fills (up to the capacity) evict nothing: the state lists
/// them newest first.
proof fn lemma_fill_no_eviction<K, T>(cap: nat, ks: Seq<K>, vs: Seq<T>)
    requires
        ks.len() <= cap,
        vs.len() == ks.len(),
        ks.no_duplicates(),
    ensures
        fill(cap, ks, vs) =~= Seq::new(ks.len(), |i: int| (ks[ks.len() - 1 - i], vs[ks.len() - 1 - i])),
    decreases ks.len(),
{
    if ks.len() > 0 {
        let pk = ks.drop_last();
        let pv = vs.drop_last();
        assert(pk.no_duplicates());
        lemma_fill_no_eviction(cap, pk, pv);
        let prev = fill(cap, pk, pv);
        assert(!holds_key(prev, ks.last())) by {
            if holds_key(prev, ks.last()) {
                let i = key_pos(prev, ks.last());
                assert(prev[i].0 == ks[pk.len() - 1 - i]);
            }
        }
    }
}

/// Eviction order: filling a cache of capacity `cap` with `cap + 1`
/// distinct keys evicts exactly the first of them and keeps the others.
pub proof fn lemma_evicts_first_inserted<K, T>(cap: nat, ks: Seq<K>, vs: Seq<T>)
    requires
        cap > 0,
        ks.len() == cap + 1,
        vs.len() == ks.len(),
        ks.no_duplicates(),
    ensures
        !holds_key(fill(cap, ks, vs), ks[0]),
        forall|j: int| 1 <= j < ks.len() ==> holds_key(fill(cap, ks, vs), #[trigger] ks[j]),
        fill(cap, ks, vs).len() == cap,
{
    let pk = ks.drop_last();
    let pv = vs.drop_last();
    assert(pk.no_duplicates());
    lemma_fill_no_eviction(cap, pk, pv);
    let prev = fill(cap, pk, pv);
    assert(!holds_key(prev, ks.last())) by {
        if holds_key(prev, ks.last()) {
            let i = key_pos(prev, ks.last());
            assert(prev[i].0 == ks[pk.len() - 1 - i]);
        }
    }
    let s = fill(cap, ks, vs);
    assert(s == inserted(prev, cap, ks.last(), vs.last()));
    assert(!holds_key(s, ks[0])) by {
        if holds_key(s, ks[0]) {
            let i = key_pos(s, ks[0]);
            if i > 0 {
                assert(s[i] == prev[i - 1]);
                assert(prev[i - 1].0 == ks[cap - i]);
            }
        }
    }
    assert forall|j: int| 1 <= j < ks.len() implies holds_key(s, #[trigger] ks[j]) by {
        if j == cap {
            assert(s[0].0 == ks[j]);
        } else {
            assert(s[cap - j].0 == ks[j]);
        }
    }
}

/// Recency refresh: on a full cache, a key that was just read (by `get` or a
/// hit of `get_or_compute`) survives the next miss; the entry evicted is the
/// least recently used of the others.
pub proof fn lemma_recency_refresh<K, T>(s: Entries<K, T>, cap: nat, k: K, k2: K, v: T)
    requires
        distinct_keys(s),
        s.len() == cap,
        cap >= 2,
        holds_key(s, k),
        !holds_key(s, k2),
    ensures
        memo_step(s, cap, k, v) == lookup_step(s, k),
        ({
            let s1 = lookup_step(s, k);
            let s2 = memo_step(s1, cap, k2, v);
            &&& s2 == seq![(k2, v)] + s1.drop_last()
            &&& s1.last().0 != k
            &&& holds_key(s2, k)
        }),
{
    let s1 = lookup_step(s, k);
    let p = key_pos(s, k);
    assert(s1[0] == s[p]);
    assert(!holds_key(s1, k2)) by {
        if holds_key(s1, k2) {
            let i = key_pos(s1, k2);
            let a = if i == 0 { p } else if i <= p { i - 1 } else { i };
            assert(s1[i] == s[a]);
        }
    }
    lemma_steps_keep_bound(s, cap, k, v);
    assert(s1.last().0 != k);
    let s2 = memo_step(s1, cap, k2, v);
    assert(s2[1] == s1[0]);
}

struct KeyValue<K, T> {
    key: K,
    value: T,
}

/// A memoizing cache of at most `max_size` entries that evicts the least
/// recently used entry when full.
///
/// A key index (hash map from key to locator) sits beside a recency list
/// that owns the entries; the two always describe the same entries.
pub struct LRUCache<K, T> where K: Hash + Eq + Copy {
    order: LinkedList<KeyValue<K, T>>,
    map: HashMap<K, Link>,
    max_size: usize,
}

impl<K, T> View for LRUCache<K, T> where K: Hash + Eq + Copy {
    type V = Entries<K, T>;

    closed spec fn view(&self) -> Entries<K, T> {
        self.order@.map_values(|kv: KeyValue<K, T>| (kv.key, kv.value))
    }
}

impl<K, T> LRUCache<K, T> where K: Hash + Eq + Copy {
    /// The capacity fixed at construction.
    pub closed spec fn capacity(&self) -> nat {
        self.max_size as nat
    }

    closed spec fn indexed_at(&self, i: int) -> bool {
        let key = self.order@[i].key;
        &&& self.map@.contains_key(key)
        &&& self.map@[key] == self.order.locs()[i]
    }

    /// Well-formedness: the index maps exactly the keys of the list to their
    /// locators, and the size is within the capacity.
    pub closed spec fn wf(&self) -> bool {
        &&& obeys_key_model::<K>()
        &&& self.order.wf()
        &&& 0 < self.max_size
        &&& self.order@.len() <= self.max_size
        &&& self.map@.dom().finite()
        &&& self.map@.len() == self.order@.len()
        &&& forall|i: int| 0 <= i < self.order@.len() ==> #[trigger] self.indexed_at(i)
        &&& forall|k: K| #[trigger]
            self.map@.contains_key(k) ==> exists|i: int|
                0 <= i < self.order@.len() && #[trigger] self.order@[i].key == k
    }

    /// Every well-formed cache has distinct keys and stays within its capacity.
    pub proof fn lemma_wf(&self)
        requires
            self.wf(),
        ensures
            distinct_keys(self@),
            self@.len() <= self.capacity(),
            self.capacity() > 0,
    {
        self.order.lemma_locs();
        assert forall|i: int, j: int|
            0 <= i < self@.len() && 0 <= j < self@.len() && i != j implies #[trigger] self@[i].0
            != #[trigger] self@[j].0 by {
            assert(self.indexed_at(i));
            assert(self.indexed_at(j));
        }
    }

    /// A cache that holds at most `size` entries. The capacity must be
    /// positive.
    pub fn new(size: usize) -> (r: Self)
        requires
            size > 0,
            obeys_key_model::<K>(),
        ensures
            r.wf(),
            r@ == Entries::<K, T>::empty(),
            r.capacity() == size,
    {
        let r = LRUCache { order: LinkedList::new(), map: HashMap::with_capacity(size), max_size: size };
        assert(r@ =~= Entries::<K, T>::empty());
        r
    }

    /// The capacity fixed at construction.
    pub fn max_size(&self) -> (r: usize)
        ensures
            r == self.capacity(),
    {
        self.max_size
    }

    /// The number of entries held.
    pub fn size(&self) -> (r: usize)
        requires
            self.wf(),
        ensures
            r == self@.len(),
            r <= self.capacity(),
    {
        self.map.len()
    }

    /// Looks `key` up; on a hit moves its entry to the front of the recency
    /// list and returns its locator.
    fn access(&mut self, key: &K) -> (r: Option<Link>)
        requires
            old(self).wf(),
        ensures
            final(self).wf(),
            final(self).capacity() == old(self).capacity(),
            final(self)@ == lookup_step(old(self)@, *key),
            holds_key(old(self)@, *key) <==> r is Some,
            r is Some ==> final(self).order.locs().len() > 0 && final(self).order.locs()[0] == r->0,
    {
        let ghost old_self = *self;
        proof {
            old_self.lemma_wf();
            old_self.order.lemma_locs();
        }
        match self.map.get(key) {
            None => {
                assert(!holds_key(old_self@, *key)) by {
                    if holds_key(old_self@, *key) {
                        let p = key_pos(old_self@, *key);
                        assert(old_self.indexed_at(p));
                    }
                }
                None
            },
            Some(l) => {
                let link = *l;
                let ghost ord = old_self.order@;
                let ghost locs = old_self.order.locs();
                let ghost p = choose|i: int| 0 <= i < ord.len() && #[trigger] ord[i].key == *key;
                assert(old_self@[p].0 == *key);
                assert(holds_key(old_self@, *key));
                let ghost q = key_pos(old_self@, *key);
                assert(p == q);
                assert(old_self.indexed_at(p));
                assert(locs[p] == link);
                assert(locs.contains(link));
                assert(locs.index_of(link) == p);
                self.order.move_to_left(link);
                proof {
                    let nord = self.order@;
                    let nlocs = self.order.locs();
                    assert forall|i: int| 0 <= i < nord.len() implies #[trigger] self.indexed_at(i) by {
                        let j = if i == 0 {
                            p
                        } else if i <= p {
                            i - 1
                        } else {
                            i
                        };
                        assert(nord[i] == ord[j]);
                        assert(nlocs[i] == locs[j]);
                        assert(old_self.indexed_at(j));
                    }
                    assert forall|k: K| #[trigger] self.map@.contains_key(k) implies exists|i: int|
                        0 <= i < nord.len() && #[trigger] nord[i].key == k by {
                        let j = choose|j: int| 0 <= j < ord.len() && #[trigger] ord[j].key == k;
                        let i = if j == p {
                            0
                        } else if j < p {
                            j + 1
                        } else {
                            j
                        };
                        assert(nord[i] == ord[j]);
                    }
                    assert(self@ =~= touched(old_self@, p));
                }
                Some(link)
            },
        }
    }

    /// The value cached for `key`, if any. A hit counts as a use: the entry
    /// becomes the most recently used. A miss changes nothing.
    pub fn get(&mut self, key: &K) -> (r: Option<&T>)
        requires
            old(self).wf(),
        ensures
            final(self).wf(),
            final(self).capacity() == old(self).capacity(),
            final(self)@ == lookup_step(old(self)@, *key),
            holds_key(old(self)@, *key) <==> r is Some,
            r is Some ==> *r->0 == old(self)@[key_pos(old(self)@, *key)].1,
    {
        match self.access(key) {
            None => None,
            Some(link) => {
                proof {
                    self.order.lemma_locs();
                    assert(self.order.locs().index_of(link) == 0);
                    assert(self@[0].1 == self.order@[0].value);
                }
                Some(&self.order.value(link).value)
            },
        }
    }

    /// The value for `key`: the cached one on a hit, else the result of
    /// `compute`, which is then cached. Either way the entry becomes the most
    /// recently used; a miss on a full cache first evicts the least recently
    /// used entry. `compute` is called only on a miss: nothing is asked of it
    /// when `key` is cached.
    pub fn get_or_compute<F: FnOnce() -> T>(&mut self, key: K, compute: F) -> (r: &T)
        requires
            old(self).wf(),
            !holds_key(old(self)@, key) ==> compute.requires(()),
        ensures
            final(self).wf(),
            final(self).capacity() == old(self).capacity(),
            final(self)@ == memo_step(old(self)@, old(self).capacity(), key, *r),
            holds_key(old(self)@, key) ==> *r == old(self)@[key_pos(old(self)@, key)].1,
            !holds_key(old(self)@, key) ==> compute.ensures((), *r),
    {
        let ghost old_self = *self;
        match self.access(&key) {
            Some(link) => {
                proof {
                    self.order.lemma_locs();
                    assert(self.order.locs().index_of(link) == 0);
                    assert(self@[0].1 == self.order@[0].value);
                }
                return &self.order.value(link).value;
            },
            None => {},
        }
        proof {
            old_self.lemma_wf();
            old_self.order.lemma_locs();
            assert(!self.map@.contains_key(key)) by {
                if self.map@.contains_key(key) {
                    let j = choose|j: int|
                        0 <= j < self.order@.len() && #[trigger] self.order@[j].key == key;
                    assert(self@[j].0 == key);
                }
            }
        }
        if self.map.len() >= self.max_size {
            let ghost before = *self;
            let ghost ord = before.order@;
            let ghost last = ord.len() - 1;
            proof {
                before.order.lemma_locs();
            }
            let evicted = self.order.pop_right();
            let kv = evicted.unwrap();
            assert(before.indexed_at(last));
            self.map.remove(&kv.key);
            proof {
                assert(kv == ord[last]);
                assert(self.map@ == before.map@.remove(kv.key));
                assert(self.order.locs() == before.order.locs().drop_last());
                let nord = self.order@;
                assert forall|i: int| 0 <= i < nord.len() implies #[trigger] self.indexed_at(i) by {
                    assert(before.indexed_at(i));
                    assert(before@[i].0 == ord[i].key);
                    assert(before@[last].0 == ord[last].key);
                    assert(ord[i].key != ord[last].key);
                    assert(nord[i] == ord[i]);
                }
                assert forall|k: K| #[trigger] self.map@.contains_key(k) implies exists|i: int|
                    0 <= i < nord.len() && #[trigger] nord[i].key == k by {
                    let j = choose|j: int| 0 <= j < ord.len() && #[trigger] ord[j].key == k;
                    assert(j != last);
                    assert(nord[j] == ord[j]);
                }
            }
        }
        let ghost mid = *self;
        proof {
            mid.order.lemma_locs();
        }
        let value = compute();
        let link = self.order.push_left(KeyValue { key, value });
        self.map.insert(key, link);
        proof {
            let ord = mid.order@;
            let nord = self.order@;
            self.order.lemma_locs();
            assert(!mid.map@.contains_key(key));
            assert forall|i: int| 0 <= i < nord.len() implies #[trigger] self.indexed_at(i) by {
                if i > 0 {
                    assert(mid.indexed_at(i - 1));
                }
            }
            assert forall|k: K| #[trigger] self.map@.contains_key(k) implies exists|i: int|
                0 <= i < nord.len() && #[trigger] nord[i].key == k by {
                if k == key {
                    assert(nord[0].key == k);
                } else {
                    assert(mid.map@.contains_key(k));
                    let j = choose|j: int| 0 <= j < ord.len() && #[trigger] ord[j].key == k;
                    assert(nord[j + 1] == ord[j]);
                }
            }
            assert(self.order.locs()[0] == link);
            assert(self.order.locs().contains(link));
            assert(self.order.locs().index_of(link) == 0);
        }
        let r = &self.order.value(link).value;
        proof {
            assert(self@ =~= inserted(old_self@, old_self.capacity(), key, *r));
        }
        r
    }
}

} // verus!
