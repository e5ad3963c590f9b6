//! A generic, fixed-capacity LRU cache with per-batch "protect" semantics,
//! designed for GPU glyph atlases: it decides *which* entries to keep, not
//! *where* they live in a texture, so `V` is whatever the caller caches per key.
//!
//! ## Batch protection
//!
//! A single render frame can look up the same key many times. Without
//! protection, a frame that touches more distinct keys than the cache holds
//! could evict an entry and then need it again later in the same frame.
//! [`GlyphCache::new_batch`] marks the start of a new frame; any entry looked up
//! since the last `new_batch` call is "protected" and will not be evicted until
//! the next batch begins.
//!
//! ## Model
//!
//! A cache is described by [`GlyphCache::keys`] (most recently used first),
//! [`GlyphCache::contents`] (key to value), [`GlyphCache::stamps`] (the batch in
//! which each key was last used) and [`GlyphCache::batch`] (the current batch).

use std::collections::HashMap;
use std::hash::Hash;

use vstd::prelude::*;

verus! {

/// The number of distinct values a `usize` batch id takes before wrapping.
pub open spec fn batch_modulus() -> int {
    usize::MAX as int + 1
}

spec fn key_at<K>(nodes: Seq<LruNode<K>>, i: usize) -> K {
    nodes[i as int].key->0
}

#[derive(Clone, Copy)]
struct LruNode<K> {
    key: Option<K>,
    newer: Option<usize>,
    older: Option<usize>,
    last_used_batch_id: usize,
}

/// A fixed-capacity LRU cache mapping `K` to a lazily-built `V`, with
/// batch-scoped eviction protection (see module docs).
pub struct GlyphCache<K, V> {
    capacity: usize,
    nodes: Vec<LruNode<K>>,
    values: Vec<Option<V>>,
    head: Option<usize>,
    tail: Option<usize>,
    map: HashMap<K, usize>,
    empties: Vec<usize>,
    current_batch_id: usize,
    /// Slot indices of the linked list, from head (most recent) to tail.
    order: Ghost<Seq<usize>>,
    /// Per slot, the unwrapped batch counter at which it was last used.
    epochs: Ghost<Seq<int>>,
    /// The unwrapped batch counter; `current_batch_id` is it modulo the
    /// `usize` range.
    clock: Ghost<int>,
}

impl<K: Copy + Eq + Hash, V> GlyphCache<K, V> {
    spec fn slot_key(&self, i: usize) -> K {
        key_at(self.nodes@, i)
    }

    /// Keys, most recently used first.
    pub closed spec fn keys(&self) -> Seq<K> {
        Seq::new(self.order@.len(), |p: int| self.slot_key(self.order@[p]))
    }

    /// What the cache holds.
    pub closed spec fn contents(&self) -> Map<K, V> {
        Map::new(
            |k: K| self.map@.contains_key(k),
            |k: K| self.values@[self.map@[k] as int]->0,
        )
    }

    /// The batch in which each cached key was last looked up or inserted.
    pub closed spec fn stamps(&self) -> Map<K, usize> {
        Map::new(
            |k: K| self.map@.contains_key(k),
            |k: K| self.nodes@[self.map@[k] as int].last_used_batch_id,
        )
    }

    /// How many batches ago each cached key was last used, counted without
    /// wrapping.
    pub closed spec fn ages(&self) -> Map<K, int> {
        Map::new(
            |k: K| self.map@.contains_key(k),
            |k: K| self.clock@ - self.epochs@[self.map@[k] as int],
        )
    }

    /// The current batch id.
    pub closed spec fn batch(&self) -> usize {
        self.current_batch_id
    }

    /// The fixed number of entries the cache can hold.
    pub closed spec fn cap(&self) -> nat {
        self.capacity as nat
    }

    /// The doubly linked list threaded through `nodes` is exactly `order`.
    spec fn links_ok(&self) -> bool {
        let ord = self.order@;
        &&& self.nodes@.len() == self.capacity
        &&& ord.no_duplicates()
        &&& forall|p: int| 0 <= p < ord.len() ==> #[trigger] ord[p] < self.capacity
        &&& self.head == (if ord.len() == 0 { None } else { Some(ord[0]) })
        &&& self.tail == (if ord.len() == 0 { None } else { Some(ord.last()) })
        &&& forall|p: int|
            0 <= p < ord.len() ==> (#[trigger] self.nodes@[ord[p] as int]).newer == (if p == 0 {
                None
            } else {
                Some(ord[p - 1])
            })
        &&& forall|p: int|
            0 <= p < ord.len() ==> (#[trigger] self.nodes@[ord[p] as int]).older == (if p + 1
                == ord.len() {
                None
            } else {
                Some(ord[p + 1])
            })
    }

    /// Every slot is either free or on the list, never both.
    spec fn slots_ok(&self) -> bool {
        let ord = self.order@;
        let emp = self.empties@;
        &&& emp.no_duplicates()
        &&& forall|j: int| 0 <= j < emp.len() ==> #[trigger] emp[j] < self.capacity
        &&& forall|j: int| 0 <= j < emp.len() ==> !ord.contains(#[trigger] emp[j])
        &&& emp.len() + ord.len() == self.capacity
    }

    /// The listed slots carry distinct keys, each indexed by the map.
    spec fn map_ok(&self) -> bool {
        let ord = self.order@;
        &&& vstd::std_specs::hash::obeys_key_model::<K>()
        &&& self.map@.dom().finite()
        &&& self.map@.len() == ord.len()
        &&& forall|p: int|
            0 <= p < ord.len() ==> (#[trigger] self.nodes@[ord[p] as int]).key is Some
        &&& forall|p: int|
            0 <= p < ord.len() ==> self.map@.contains_key(#[trigger] key_at(self.nodes@, ord[p]))
                && self.map@[key_at(self.nodes@, ord[p])] == ord[p]
        &&& forall|k: K|
            #[trigger] self.map@.contains_key(k) ==> ord.contains(self.map@[k])
                && self.nodes@[self.map@[k] as int].key == Some(k)
    }

    /// Batch stamps are the unwrapped epochs modulo the `usize` range, and
    /// epochs never increase from the head of the list to its tail.
    spec fn epochs_ok(&self) -> bool {
        let ord = self.order@;
        let ep = self.epochs@;
        &&& ep.len() == self.capacity
        &&& self.clock@ >= 0
        &&& self.current_batch_id as int == self.clock@ % batch_modulus()
        &&& forall|p: int|
            0 <= p < ord.len() ==> 0 <= #[trigger] ep[ord[p] as int] <= self.clock@
                && self.nodes@[ord[p] as int].last_used_batch_id as int == ep[ord[p] as int]
                % batch_modulus()
        &&& forall|p: int, q: int|
            0 <= p < q < ord.len() ==> #[trigger] ep[ord[p] as int] >= #[trigger] ep[ord[q] as int]
    }

    /// Every listed slot holds a value, except possibly `pending`, which is
    /// about to be filled.
    spec fn values_ok(&self, pending: int) -> bool {
        let ord = self.order@;
        &&& self.values@.len() == self.capacity
        &&& forall|p: int|
            0 <= p < ord.len() && ord[p] != pending ==> (#[trigger] self.values@[ord[p] as int])
                is Some
    }

    spec fn inv(&self, pending: int) -> bool {
        &&& self.capacity > 0
        &&& self.links_ok()
        &&& self.slots_ok()
        &&& self.map_ok()
        &&& self.epochs_ok()
        &&& self.values_ok(pending)
    }

    /// The cache's internal invariant.
    pub closed spec fn wf(&self) -> bool {
        self.inv(-1)
    }

    proof fn lemma_keys_distinct(&self)
        requires
            self.links_ok(),
            self.map_ok(),
        ensures
            self.keys().no_duplicates(),
            self.keys().len() == self.order@.len(),
            forall|k: K| self.map@.contains_key(k) <==> self.keys().contains(k),
            self.contents().dom() == self.keys().to_set(),
            self.keys().len() == self.contents().len(),
    {
        let ord = self.order@;
        let ks = self.keys();
        assert forall|i: int, j: int| 0 <= i < ks.len() && 0 <= j < ks.len() && i != j implies ks[i]
            != ks[j] by {
            assert(self.map@[self.slot_key(ord[i])] == ord[i]);
            assert(self.map@[self.slot_key(ord[j])] == ord[j]);
        }
        assert forall|k: K| self.map@.contains_key(k) <==> ks.contains(k) by {
            if self.map@.contains_key(k) {
                let p = choose|p: int| 0 <= p < ord.len() && ord[p] == self.map@[k];
                assert(ks[p] == k);
            }
            if ks.contains(k) {
                let p = choose|p: int| 0 <= p < ks.len() && ks[p] == k;
                assert(self.map@.contains_key(self.slot_key(ord[p])));
            }
        }
        assert(self.contents().dom() =~= self.map@.dom());
        assert(self.contents().dom() =~= ks.to_set());
    }


    /// An empty cache holding at most `capacity` entries, in batch 0.
    pub fn new(capacity: usize) -> (r: Self)
        requires
            capacity > 0,
            vstd::std_specs::hash::obeys_key_model::<K>(),
        ensures
            r.wf(),
            r.cap() == capacity,
            r.keys() == Seq::<K>::empty(),
            r.contents() == Map::<K, V>::empty(),
            r.batch() == 0,
    {
        let mut nodes: Vec<LruNode<K>> = Vec::new();
        let mut values: Vec<Option<V>> = Vec::new();
        let mut empties: Vec<usize> = Vec::new();
        let mut i: usize = 0;
        while i < capacity
            invariant
                i <= capacity,
                nodes@.len() == i,
                values@.len() == i,
                empties@ == Seq::new(i as nat, |j: int| j as usize),
            decreases capacity - i,
        {
            nodes.push(LruNode { key: None, newer: None, older: None, last_used_batch_id: 0 });
            values.push(None);
            empties.push(i);
            i = i + 1;
            proof {
                assert(empties@ =~= Seq::new(i as nat, |j: int| j as usize));
            }
        }
        let r = Self {
            capacity,
            nodes,
            values,
            head: None,
            tail: None,
            map: HashMap::with_capacity(capacity),
            empties,
            current_batch_id: 0,
            order: Ghost(Seq::empty()),
            epochs: Ghost(Seq::new(capacity as nat, |j: int| 0int)),
            clock: Ghost(0int),
        };
        proof {
            assert(r.keys() =~= Seq::<K>::empty());
            assert(r.contents() =~= Map::<K, V>::empty());
            assert(0int % batch_modulus() == 0);
        }
        r
    }

    /// The fixed number of entries the cache can hold.
    pub fn capacity(&self) -> (r: usize)
        requires
            self.wf(),
        ensures
            r == self.cap(),
    {
        self.capacity
    }

    /// The number of cached entries.
    pub fn len(&self) -> (r: usize)
        requires
            self.wf(),
        ensures
            r == self.keys().len(),
            r == self.contents().len(),
            r <= self.cap(),
    {
        proof {
            self.lemma_keys_distinct();
        }
        self.map.len()
    }

    /// Whether nothing is cached.
    pub fn is_empty(&self) -> (r: bool)
        requires
            self.wf(),
        ensures
            r <==> self.keys().len() == 0,
            r <==> self.contents().is_empty(),
    {
        proof {
            self.lemma_keys_distinct();
            if self.keys().len() != 0 {
                assert(self.contents().contains_key(self.keys()[0]));
            }
        }
        self.map.is_empty()
    }

    /// Forget every entry and return to batch 0.
    pub fn clear(&mut self)
        requires
            old(self).wf(),
        ensures
            final(self).wf(),
            final(self).cap() == old(self).cap(),
            final(self).keys() == Seq::<K>::empty(),
            final(self).contents() == Map::<K, V>::empty(),
            final(self).batch() == 0,
    {
        self.map.clear();
        self.empties.clear();
        let mut i: usize = 0;
        while i < self.capacity
            invariant
                i <= self.capacity,
                self.capacity == old(self).capacity,
                self.values@.len() == old(self).values@.len(),
                self.map@ == Map::<K, usize>::empty(),
                self.nodes@.len() == old(self).nodes@.len(),
                self.epochs@.len() == old(self).epochs@.len(),
                self.empties@ == Seq::new(i as nat, |j: int| j as usize),
            decreases self.capacity - i,
        {
            self.empties.push(i);
            i = i + 1;
            proof {
                assert(self.empties@ =~= Seq::new(i as nat, |j: int| j as usize));
            }
        }
        let mut j: usize = 0;
        while j < self.values.len()
            invariant
                j <= self.values.len(),
                self.values@.len() == old(self).values@.len(),
                self.capacity == old(self).capacity,
                self.map@ == Map::<K, usize>::empty(),
                self.nodes@.len() == old(self).nodes@.len(),
                self.epochs@.len() == old(self).epochs@.len(),
                self.empties@ == Seq::new(self.capacity as nat, |j: int| j as usize),
            decreases self.values.len() - j,
        {
            self.values.set(j, None);
            j = j + 1;
        }
        self.head = None;
        self.tail = None;
        self.current_batch_id = 0;
        proof {
            self.order@ = Seq::empty();
            self.clock@ = 0;
            assert(0int % batch_modulus() == 0);
            assert(self.keys() =~= Seq::<K>::empty());
            assert(self.contents() =~= Map::<K, V>::empty());
        }
    }

    /// Mark the start of a new batch (frame). Entries looked up in the
    /// previous batch lose their protection and become evictable again.
    pub fn new_batch(&mut self)
        requires
            old(self).wf(),
        ensures
            final(self).wf(),
            final(self).batch() == old(self).batch().wrapping_add(1),
            final(self).cap() == old(self).cap(),
            final(self).keys() == old(self).keys(),
            final(self).contents() == old(self).contents(),
            final(self).stamps() == old(self).stamps(),
            final(self).ages() == old(self).ages().map_values(|a: int| a + 1),
    {
        self.current_batch_id = self.current_batch_id.wrapping_add(1);
        proof {
            let c = old(self).clock@;
            self.clock@ = c + 1;
            vstd::arithmetic::div_mod::lemma_add_mod_noop(c, 1, batch_modulus());
            vstd::arithmetic::div_mod::lemma_mod_bound(c, batch_modulus());
            assert(1int % batch_modulus() == 1);
            if c % batch_modulus() + 1 == batch_modulus() {
                vstd::arithmetic::div_mod::lemma_mod_self_0(batch_modulus());
            } else {
                vstd::arithmetic::div_mod::lemma_small_mod(
                    (c % batch_modulus() + 1) as nat,
                    batch_modulus() as nat,
                );
            }
            assert(self.current_batch_id as int == self.clock@ % batch_modulus());
            assert(self.epochs_ok());
            assert(self.ages() =~= old(self).ages().map_values(|a: int| a + 1));
        }
    }


    /// Look up `key`; if absent, build a value via `build` and insert it,
    /// evicting the least-recently-used entry if the cache is full.
    ///
    /// Returns `None` only when the cache is full and its least-recently-used
    /// entry is protected in the current batch — the caller should fall back
    /// to drawing this key uncached for the frame.
    pub fn get_or_insert_with(&mut self, key: K, build: impl FnOnce() -> V) -> (r: Option<&V>)
        requires
            old(self).wf(),
            build.requires(()),
        ensures
            final(self).wf(),
            final(self).cap() == old(self).cap(),
            final(self).batch() == old(self).batch(),
            forall|k: K|
                old(self).contents().contains_key(k) && old(self).stamps()[k] == old(self).batch()
                    ==> #[trigger] final(self).contents().contains_key(k),
            old(self).contents().contains_key(key) ==> {
                &&& r is Some
                &&& *r->0 == old(self).contents()[key]
                &&& final(self).contents() == old(self).contents()
                &&& final(self).keys() == seq![key].add(
                    old(self).keys().remove(old(self).keys().index_of(key)),
                )
                &&& final(self).stamps() == old(self).stamps().insert(key, old(self).batch())
                &&& final(self).ages() == old(self).ages().insert(key, 0)
            },
            !old(self).contents().contains_key(key) && old(self).keys().len() < old(self).cap()
                ==> {
                &&& r is Some
                &&& call_ensures(build, (), *r->0)
                &&& final(self).contents() == old(self).contents().insert(key, *r->0)
                &&& final(self).keys() == seq![key].add(old(self).keys())
                &&& final(self).stamps() == old(self).stamps().insert(key, old(self).batch())
                &&& final(self).ages() == old(self).ages().insert(key, 0)
            },
            !old(self).contents().contains_key(key) && old(self).keys().len() == old(self).cap()
                && old(self).stamps()[old(self).keys().last()] == old(self).batch() ==> {
                &&& r is None
                &&& final(self).contents() == old(self).contents()
                &&& final(self).keys() == old(self).keys()
                &&& final(self).stamps() == old(self).stamps()
                &&& final(self).ages() == old(self).ages()
            },
            !old(self).contents().contains_key(key) && old(self).keys().len() == old(self).cap()
                && old(self).stamps()[old(self).keys().last()] != old(self).batch() ==> ({
                let evicted = old(self).keys().last();
                &&& r is Some
                &&& call_ensures(build, (), *r->0)
                &&& final(self).contents() == old(self).contents().remove(evicted).insert(
                    key,
                    *r->0,
                )
                &&& final(self).keys() == seq![key].add(old(self).keys().drop_last())
                &&& final(self).stamps() == old(self).stamps().remove(evicted).insert(
                    key,
                    old(self).batch(),
                )
                &&& final(self).ages() == old(self).ages().remove(evicted).insert(key, 0)
            }),
    {
        proof {
            self.lemma_keys_distinct();
        }
        if let Some(found) = self.map.get(&key) {
            let index = *found;
            let ghost ord = self.order@;
            let ghost p = choose|p: int| 0 <= p < ord.len() && ord[p] == index;
            let mut node = self.nodes[index];
            node.last_used_batch_id = self.current_batch_id;
            self.nodes.set(index, node);
            proof {
                self.epochs@ = self.epochs@.update(index as int, self.clock@);
            }
            self.move_to_front(index, Ghost(p));
            proof {
                self.lemma_touched(*old(self), key, p);
            }
            return self.values[index].as_ref();
        }
        let index = self.allocate_slot(key)?;
        let ghost mid = *self;
        let value = build();
        let ghost built = value;
        self.values.set(index, Some(value));
        proof {
            self.lemma_inserted(*old(self), mid, key, index, built);
        }
        self.values[index].as_ref()
    }

    /// Find (or evict-and-reuse) a slot for a not-yet-present `key`, already
    /// linked into the list as the new head. Returns `None` if the cache is
    /// full and its LRU tail is protected in the current batch.
    fn allocate_slot(&mut self, key: K) -> (r: Option<usize>)
        requires
            old(self).wf(),
            !old(self).map@.contains_key(key),
        ensures
            final(self).capacity == old(self).capacity,
            final(self).current_batch_id == old(self).current_batch_id,
            final(self).clock == old(self).clock,
            match r {
                None => {
                    &&& old(self).order@.len() == old(self).capacity
                    &&& old(self).nodes@[old(self).order@.last() as int].last_used_batch_id
                        == old(self).current_batch_id
                    &&& final(self).nodes == old(self).nodes
                    &&& final(self).values == old(self).values
                    &&& final(self).map == old(self).map
                    &&& final(self).empties@ == old(self).empties@
                    &&& final(self).head == old(self).head
                    &&& final(self).tail == old(self).tail
                    &&& final(self).order == old(self).order
                    &&& final(self).epochs == old(self).epochs
                },
                Some(i) => old(self).allocated(*final(self), key, i),
            },
    {
        if let Some(index) = self.empties.pop() {
            proof {
                assert(!self.order@.contains(index)) by {
                    assert(old(self).empties@[old(self).empties@.len() - 1] == index);
                }
            }
            self.attach_to_head(index, key);
            self.map.insert(key, index);
            proof {
                self.epochs@ = self.epochs@.update(index as int, self.clock@);
                self.lemma_allocated_fresh(*old(self), key, index);
            }
            return Some(index);
        }
        proof {
            assert(self.empties@.len() == 0);
            assert(self.order@.len() == self.capacity);
        }
        let tail_index = self.tail.expect("tail is set whenever capacity > 0 and no empty slots remain");
        if self.nodes[tail_index].last_used_batch_id == self.current_batch_id {
            proof {
                assert(self.empties@ =~= old(self).empties@);
            }
            return None;
        }
        let ghost last = self.order@.len() - 1;
        self.detach(tail_index, Ghost(last));
        let mut node = self.nodes[tail_index];
        let taken = node.key.take();
        self.nodes.set(tail_index, node);
        if let Some(old_key) = taken {
            self.map.remove(&old_key);
        }
        self.values.set(tail_index, None);
        proof {
            assert(!self.order@.contains(tail_index)) by {
                assert(old(self).order@[last] == tail_index);
            }
        }
        self.attach_to_head(tail_index, key);
        self.map.insert(key, tail_index);
        proof {
            self.epochs@ = self.epochs@.update(tail_index as int, self.clock@);
            self.lemma_allocated_evicting(*old(self), key, tail_index);
        }
        Some(tail_index)
    }

    /// What `allocate_slot` promises when it hands out slot `i` for `key`.
    spec fn allocated(self, after: Self, key: K, i: usize) -> bool {
        let full = self.order@.len() == self.capacity;
        &&& after.inv(i as int)
        &&& after.order@ == seq![i].add(
            if full {
                self.order@.drop_last()
            } else {
                self.order@
            },
        )
        &&& full ==> i == self.order@.last() && self.nodes@[i as int].last_used_batch_id
            != self.current_batch_id
        &&& !full ==> !self.order@.contains(i) && i < self.capacity
        &&& after.map@ == (if full {
            self.map@.remove(self.slot_key(i))
        } else {
            self.map@
        }).insert(key, i)
        &&& after.nodes@[i as int].key == Some(key)
        &&& after.nodes@[i as int].last_used_batch_id == self.current_batch_id
        &&& after.epochs@[i as int] == self.clock@
        &&& forall|j: int|
            0 <= j < self.capacity && j != i ==> (#[trigger] after.nodes@[j]).key
                == self.nodes@[j].key && after.nodes@[j].last_used_batch_id
                == self.nodes@[j].last_used_batch_id && after.values@[j] == self.values@[j]
                && after.epochs@[j] == self.epochs@[j]
    }

    /// Move `index` to the head of the list.
    fn move_to_front(&mut self, index: usize, Ghost(p): Ghost<int>)
        requires
            old(self).links_ok(),
            0 <= p < old(self).order@.len(),
            old(self).order@[p] == index,
            old(self).nodes@[index as int].key is Some,
        ensures
            final(self).links_ok(),
            final(self).order@ == seq![index].add(old(self).order@.remove(p)),
            final(self).capacity == old(self).capacity,
            final(self).values == old(self).values,
            final(self).map == old(self).map,
            final(self).empties == old(self).empties,
            final(self).current_batch_id == old(self).current_batch_id,
            final(self).epochs == old(self).epochs,
            final(self).clock == old(self).clock,
            final(self).nodes@.len() == old(self).nodes@.len(),
            forall|i: int|
                0 <= i < final(self).nodes@.len() ==> (#[trigger] final(self).nodes@[i]).key
                    == old(self).nodes@[i].key,
            forall|i: int|
                0 <= i < final(self).nodes@.len() && i != index ==> (#[trigger] final(
                self).nodes@[i]).last_used_batch_id == old(self).nodes@[i].last_used_batch_id,
            final(self).nodes@[index as int].last_used_batch_id == if p == 0 {
                old(self).nodes@[index as int].last_used_batch_id
            } else {
                old(self).current_batch_id
            },
    {
        if let Some(h) = self.head {
            if h == index {
                proof {
                    assert(self.order@[0] == index);
                    assert(p == 0);
                    assert(seq![index].add(self.order@.remove(0)) =~= self.order@);
                }
                return;
            }
        }
        proof {
            assert(p != 0);
        }
        self.detach(index, Ghost(p));
        let key = self.nodes[index].key.expect("an indexed, in-map node must carry its key");
        proof {
            assert(!self.order@.contains(index)) by {
                let ord = old(self).order@;
                assert forall|q: int| 0 <= q < self.order@.len() implies self.order@[q] != index by {
                    if q < p {
                        assert(self.order@[q] == ord[q]);
                    } else {
                        assert(self.order@[q] == ord[q + 1]);
                    }
                }
            }
        }
        self.attach_to_head(index, key);
    }


    /// After a hit on `key` at list position `p` has restamped it and moved it
    /// to the front, the cache is consistent again and its model changed only
    /// in `key`'s position, stamp and age.
    proof fn lemma_touched(&self, before: Self, key: K, p: int)
        requires
            before.wf(),
            before.map@.contains_key(key),
            0 <= p < before.order@.len(),
            before.order@[p] == before.map@[key],
            self.links_ok(),
            self.order@ == seq![before.map@[key]].add(before.order@.remove(p)),
            self.capacity == before.capacity,
            self.values == before.values,
            self.map == before.map,
            self.empties == before.empties,
            self.current_batch_id == before.current_batch_id,
            self.clock == before.clock,
            self.epochs@ == before.epochs@.update(before.map@[key] as int, before.clock@),
            self.nodes@.len() == before.nodes@.len(),
            forall|i: int|
                0 <= i < self.nodes@.len() ==> (#[trigger] self.nodes@[i]).key
                    == before.nodes@[i].key,
            forall|i: int|
                0 <= i < self.nodes@.len() && i != before.map@[key] ==> (#[trigger] self.nodes@[
                i]).last_used_batch_id == before.nodes@[i].last_used_batch_id,
            self.nodes@[before.map@[key] as int].last_used_batch_id == before.current_batch_id,
        ensures
            self.wf(),
            self.contents() == before.contents(),
            self.keys() == seq![key].add(before.keys().remove(before.keys().index_of(key))),
            self.stamps() == before.stamps().insert(key, before.batch()),
            self.ages() == before.ages().insert(key, 0),
    {
        let index = before.map@[key];
        let ord = before.order@;
        let nord = self.order@;
        before.lemma_keys_distinct();
        assert(forall|q: int| 0 <= q < nord.len() ==> (#[trigger] nord[q]) == if q == 0 {
            index
        } else if q <= p {
            ord[q - 1]
        } else {
            ord[q]
        });
        assert forall|x: usize| nord.contains(x) <==> ord.contains(x) by {
            if ord.contains(x) {
                let q = choose|q: int| 0 <= q < ord.len() && ord[q] == x;
                if q == p {
                    assert(nord[0] == x);
                } else if q < p {
                    assert(nord[q + 1] == x);
                } else {
                    assert(nord[q] == x);
                }
            }
        }
        // slots
        assert(self.slots_ok());
        // keys and map
        assert forall|q: int| 0 <= q < nord.len() implies self.map@.contains_key(
            #[trigger] key_at(self.nodes@, nord[q]),
        ) && self.map@[key_at(self.nodes@, nord[q])] == nord[q] by {
            let q2 = if q == 0 {
                p
            } else if q <= p {
                q - 1
            } else {
                q
            };
            assert(nord[q] == ord[q2]);
            assert(key_at(self.nodes@, nord[q]) == key_at(before.nodes@, ord[q2]));
        }
        assert(self.map_ok());
        // epochs
        assert forall|a: int, b: int| 0 <= a < b < nord.len() implies #[trigger] self.epochs@[nord[a] as int]
            >= #[trigger] self.epochs@[nord[b] as int] by {
            if a > 0 {
                let a2 = if a <= p {
                    a - 1
                } else {
                    a
                };
                let b2 = if b <= p {
                    b - 1
                } else {
                    b
                };
                assert(nord[a] == ord[a2]);
                assert(nord[b] == ord[b2]);
                assert(ord[a2] != index);
                assert(ord[b2] != index);
            } else {
                let b2 = if b <= p {
                    b - 1
                } else {
                    b
                };
                assert(nord[b] == ord[b2]);
            }
        }
        assert forall|q: int| 0 <= q < nord.len() implies 0 <= #[trigger] self.epochs@[nord[q] as int]
            <= self.clock@ && self.nodes@[nord[q] as int].last_used_batch_id as int
            == self.epochs@[nord[q] as int] % batch_modulus() by {
            let q2 = if q == 0 {
                p
            } else if q <= p {
                q - 1
            } else {
                q
            };
            assert(nord[q] == ord[q2]);
        }
        assert(self.epochs_ok());
        assert(self.values_ok(-1));
        // model
        assert(self.contents() =~= before.contents());
        let ks = before.keys();
        let i = ks.index_of(key);
        assert(ks[p] == key);
        assert(i == p);
        assert(self.keys() =~= seq![key].add(ks.remove(p))) by {
            assert forall|q: int| 0 <= q < nord.len() implies #[trigger] self.keys()[q] == seq![key].add(
                ks.remove(p),
            )[q] by {
                if q == 0 {
                } else if q <= p {
                    assert(nord[q] == ord[q - 1]);
                } else {
                    assert(nord[q] == ord[q]);
                }
            }
        }
        assert forall|k: K| self.map@.contains_key(k) && k != key implies self.map@[k] != index by {
        }
        assert(self.stamps() =~= before.stamps().insert(key, before.batch()));
        assert(self.ages() =~= before.ages().insert(key, 0));
    }

    /// The state right after `allocate_slot` took a free slot for `key`.
    proof fn lemma_allocated_fresh(&self, before: Self, key: K, index: usize)
        requires
            before.wf(),
            !before.map@.contains_key(key),
            before.empties@.len() > 0,
            index == before.empties@.last(),
            self.empties@ == before.empties@.drop_last(),
            self.links_ok(),
            self.order@ == seq![index].add(before.order@),
            self.capacity == before.capacity,
            self.values == before.values,
            self.map@ == before.map@.insert(key, index),
            self.current_batch_id == before.current_batch_id,
            self.clock == before.clock,
            self.epochs@ == before.epochs@.update(index as int, before.clock@),
            self.nodes@.len() == before.nodes@.len(),
            self.nodes@[index as int].key == Some(key),
            self.nodes@[index as int].last_used_batch_id == before.current_batch_id,
            forall|i: int|
                0 <= i < self.nodes@.len() && i != index ==> (#[trigger] self.nodes@[i]).key
                    == before.nodes@[i].key && self.nodes@[i].last_used_batch_id
                    == before.nodes@[i].last_used_batch_id,
        ensures
            before.allocated(*self, key, index),
    {
        let ord = before.order@;
        let nord = self.order@;
        let emp = before.empties@;
        assert(emp[emp.len() - 1] == index);
        assert(!ord.contains(index));
        assert(index < self.capacity);
        assert(forall|q: int| 0 < q < nord.len() ==> (#[trigger] nord[q]) == ord[q - 1]);
        assert forall|j: int| 0 <= j < self.empties@.len() implies !nord.contains(
            #[trigger] self.empties@[j],
        ) by {
            assert(self.empties@[j] == emp[j]);
            assert(emp[j] != index);
            if nord.contains(emp[j]) {
                let q = choose|q: int| 0 <= q < nord.len() && nord[q] == emp[j];
                assert(q > 0);
                assert(ord.contains(emp[j]));
            }
        }
        assert(self.slots_ok());
        assert forall|q: int| 0 <= q < nord.len() implies self.map@.contains_key(
            #[trigger] key_at(self.nodes@, nord[q]),
        ) && self.map@[key_at(self.nodes@, nord[q])] == nord[q] by {
            if q > 0 {
                assert(nord[q] == ord[q - 1]);
                assert(ord[q - 1] != index);
                assert(key_at(self.nodes@, nord[q]) == key_at(before.nodes@, ord[q - 1]));
                assert(before.map@.contains_key(key_at(before.nodes@, ord[q - 1])));
            }
        }
        assert forall|k: K| #[trigger] self.map@.contains_key(k) implies nord.contains(self.map@[k])
            && self.nodes@[self.map@[k] as int].key == Some(k) by {
            if k != key {
                let j = before.map@[k];
                let q = choose|q: int| 0 <= q < ord.len() && ord[q] == j;
                assert(nord[q + 1] == j);
                assert(j != index);
            } else {
                assert(nord[0] == index);
            }
        }
        assert(self.map_ok());
        assert forall|a: int, b: int| 0 <= a < b < nord.len() implies #[trigger] self.epochs@[nord[a] as int]
            >= #[trigger] self.epochs@[nord[b] as int] by {
            assert(nord[b] == ord[b - 1]);
            if a > 0 {
                assert(nord[a] == ord[a - 1]);
            }
        }
        assert forall|q: int| 0 <= q < nord.len() implies 0 <= #[trigger] self.epochs@[nord[q] as int]
            <= self.clock@ && self.nodes@[nord[q] as int].last_used_batch_id as int
            == self.epochs@[nord[q] as int] % batch_modulus() by {
            if q > 0 {
                assert(nord[q] == ord[q - 1]);
            }
        }
        assert(self.epochs_ok());
        assert(self.values_ok(index as int)) by {
            assert forall|q: int| 0 <= q < nord.len() && nord[q] != index implies (#[trigger] self.values@[nord[q] as int]) is Some by {
                assert(nord[q] == ord[q - 1]);
            }
        }
    }

    /// The state right after `allocate_slot` evicted the tail and reused its
    /// slot for `key`.
    proof fn lemma_allocated_evicting(&self, before: Self, key: K, index: usize)
        requires
            before.wf(),
            !before.map@.contains_key(key),
            before.empties@.len() == 0,
            before.order@.len() > 0,
            index == before.order@.last(),
            before.nodes@[index as int].last_used_batch_id != before.current_batch_id,
            self.empties@ == before.empties@,
            self.links_ok(),
            self.order@ == seq![index].add(before.order@.drop_last()),
            self.capacity == before.capacity,
            self.values@ == before.values@.update(index as int, None),
            self.map@ == before.map@.remove(before.slot_key(index)).insert(key, index),
            self.current_batch_id == before.current_batch_id,
            self.clock == before.clock,
            self.epochs@ == before.epochs@.update(index as int, before.clock@),
            self.nodes@.len() == before.nodes@.len(),
            self.nodes@[index as int].key == Some(key),
            self.nodes@[index as int].last_used_batch_id == before.current_batch_id,
            forall|i: int|
                0 <= i < self.nodes@.len() && i != index ==> (#[trigger] self.nodes@[i]).key
                    == before.nodes@[i].key && self.nodes@[i].last_used_batch_id
                    == before.nodes@[i].last_used_batch_id,
        ensures
            before.allocated(*self, key, index),
    {
        let ord = before.order@;
        let nord = self.order@;
        let n = ord.len();
        let old_key = before.slot_key(index);
        assert(ord[n - 1] == index);
        assert(before.map@[old_key] == index);
        assert(forall|q: int| 0 < q < nord.len() ==> (#[trigger] nord[q]) == ord[q - 1]);
        assert forall|q: int| 0 < q < nord.len() implies #[trigger] nord[q] != index by {
            assert(nord[q] == ord[q - 1]);
        }
        assert(self.slots_ok());
        assert forall|q: int| 0 <= q < nord.len() implies self.map@.contains_key(
            #[trigger] key_at(self.nodes@, nord[q]),
        ) && self.map@[key_at(self.nodes@, nord[q])] == nord[q] by {
            if q > 0 {
                assert(nord[q] == ord[q - 1]);
                assert(ord[q - 1] != index);
                let k = key_at(before.nodes@, ord[q - 1]);
                assert(key_at(self.nodes@, nord[q]) == k);
                assert(before.map@.contains_key(k));
                assert(before.map@[k] == ord[q - 1]);
                assert(k != old_key);
                assert(k != key);
            }
        }
        assert forall|k: K| #[trigger] self.map@.contains_key(k) implies nord.contains(self.map@[k])
            && self.nodes@[self.map@[k] as int].key == Some(k) by {
            if k != key {
                assert(k != old_key);
                let j = before.map@[k];
                let q = choose|q: int| 0 <= q < ord.len() && ord[q] == j;
                assert(j != index);
                assert(q != n - 1);
                assert(nord[q + 1] == j);
            } else {
                assert(nord[0] == index);
            }
        }
        assert(self.map@.len() == nord.len());
        assert(self.map_ok());
        assert forall|a: int, b: int| 0 <= a < b < nord.len() implies #[trigger] self.epochs@[nord[a] as int]
            >= #[trigger] self.epochs@[nord[b] as int] by {
            assert(nord[b] == ord[b - 1]);
            if a > 0 {
                assert(nord[a] == ord[a - 1]);
            }
        }
        assert forall|q: int| 0 <= q < nord.len() implies 0 <= #[trigger] self.epochs@[nord[q] as int]
            <= self.clock@ && self.nodes@[nord[q] as int].last_used_batch_id as int
            == self.epochs@[nord[q] as int] % batch_modulus() by {
            if q > 0 {
                assert(nord[q] == ord[q - 1]);
            }
        }
        assert(self.epochs_ok());
        assert(self.values_ok(index as int)) by {
            assert forall|q: int| 0 <= q < nord.len() && nord[q] != index implies (#[trigger] self.values@[nord[q] as int]) is Some by {
                assert(nord[q] == ord[q - 1]);
            }
        }
    }

    /// After `allocate_slot` handed out `index` and the built value was
    /// stored there, the cache is consistent and its model gained `key`.
    proof fn lemma_inserted(&self, before: Self, mid: Self, key: K, index: usize, value: V)
        requires
            before.wf(),
            !before.map@.contains_key(key),
            before.allocated(mid, key, index),
            self.values@ == mid.values@.update(index as int, Some(value)),
            self.capacity == mid.capacity,
            self.nodes == mid.nodes,
            self.head == mid.head,
            self.tail == mid.tail,
            self.map == mid.map,
            self.empties == mid.empties,
            self.current_batch_id == mid.current_batch_id,
            mid.current_batch_id == before.current_batch_id,
            mid.clock == before.clock,
            mid.capacity == before.capacity,
            self.order == mid.order,
            self.epochs == mid.epochs,
            self.clock == mid.clock,
        ensures
            self.wf(),
            before.order@.len() < before.capacity ==> {
                &&& self.contents() == before.contents().insert(key, value)
                &&& self.keys() == seq![key].add(before.keys())
                &&& self.stamps() == before.stamps().insert(key, before.batch())
                &&& self.ages() == before.ages().insert(key, 0)
            },
            before.order@.len() == before.capacity ==> ({
                let evicted = before.keys().last();
                &&& before.stamps()[evicted] != before.batch()
                &&& self.contents() == before.contents().remove(evicted).insert(key, value)
                &&& self.keys() == seq![key].add(before.keys().drop_last())
                &&& self.stamps() == before.stamps().remove(evicted).insert(key, before.batch())
                &&& self.ages() == before.ages().remove(evicted).insert(key, 0)
            }),
    {
        let ord = before.order@;
        let nord = self.order@;
        before.lemma_keys_distinct();
        assert(self.values_ok(-1));
        assert(self.links_ok());
        assert(self.slots_ok());
        assert(self.map_ok());
        assert(self.epochs_ok());
        assert forall|k: K| self.map@.contains_key(k) && k != key implies self.map@[k] != index && before.map@.contains_key(k)
            && self.map@[k] == before.map@[k] && self.epochs@[self.map@[k] as int]
            == before.epochs@[before.map@[k] as int] && self.values@[self.map@[k] as int]
            == before.values@[before.map@[k] as int] && self.nodes@[self.map@[k] as int]
            .last_used_batch_id == before.nodes@[before.map@[k] as int].last_used_batch_id by {
            let j = before.map@[k];
            assert(ord.contains(j));
            let q = choose|q: int| 0 <= q < ord.len() && ord[q] == j;
            assert(j < before.capacity);
        }
        if ord.len() < before.capacity {
            assert(self.contents() =~= before.contents().insert(key, value));
            assert(self.keys() =~= seq![key].add(before.keys()));
            assert(self.stamps() =~= before.stamps().insert(key, before.batch()));
            assert(self.ages() =~= before.ages().insert(key, 0));
        } else {
            let evicted = before.keys().last();
            assert(evicted == before.slot_key(index));
            assert(before.map@[evicted] == index);
            assert(self.contents() =~= before.contents().remove(evicted).insert(key, value));
            assert(self.keys() =~= seq![key].add(before.keys().drop_last()));
            assert(self.stamps() =~= before.stamps().remove(evicted).insert(key, before.batch()));
            assert(self.ages() =~= before.ages().remove(evicted).insert(key, 0));
        }
    }

    /// Unlink `index` from wherever it sits in the list, patching `head`/`tail`
    /// and its neighbours. Leaves `nodes[index]` itself untouched.
    ///
    /// `older`/`newer` point away from/towards the head respectively, so a node
    /// with no `older` neighbour is the tail and one with no `newer` neighbour
    /// is the head.
    fn detach(&mut self, index: usize, Ghost(p): Ghost<int>)
        requires
            old(self).links_ok(),
            0 <= p < old(self).order@.len(),
            old(self).order@[p] == index,
        ensures
            final(self).links_ok(),
            final(self).order@ == old(self).order@.remove(p),
            final(self).capacity == old(self).capacity,
            final(self).values == old(self).values,
            final(self).map == old(self).map,
            final(self).empties == old(self).empties,
            final(self).current_batch_id == old(self).current_batch_id,
            final(self).epochs == old(self).epochs,
            final(self).clock == old(self).clock,
            final(self).nodes@.len() == old(self).nodes@.len(),
            forall|i: int|
                0 <= i < final(self).nodes@.len() ==> (#[trigger] final(self).nodes@[i]).key
                    == old(self).nodes@[i].key && final(self).nodes@[i].last_used_batch_id
                    == old(self).nodes@[i].last_used_batch_id,
            final(self).nodes@[index as int] == old(self).nodes@[index as int],
    {
        let ghost ord = self.order@;
        let older = self.nodes[index].older;
        let newer = self.nodes[index].newer;

        match older {
            Some(o) => {
                let mut node = self.nodes[o];
                node.newer = newer;
                self.nodes.set(o, node);
            },
            None => self.tail = newer,
        }
        match newer {
            Some(n) => {
                let mut node = self.nodes[n];
                node.older = older;
                self.nodes.set(n, node);
            },
            None => self.head = older,
        }
        proof {
            self.order@ = ord.remove(p);
            let nord = self.order@;
            assert forall|q: int| 0 <= q < nord.len() implies (#[trigger] self.nodes@[nord[q] as int]).newer
                == (if q == 0 {
                None
            } else {
                Some(nord[q - 1])
            }) by {
                if q < p {
                    assert(nord[q] == ord[q]);
                } else {
                    assert(nord[q] == ord[q + 1]);
                }
            }
            assert forall|q: int| 0 <= q < nord.len() implies (#[trigger] self.nodes@[nord[q] as int]).older
                == (if q + 1 == nord.len() {
                None
            } else {
                Some(nord[q + 1])
            }) by {
                if q < p {
                    assert(nord[q] == ord[q]);
                } else {
                    assert(nord[q] == ord[q + 1]);
                }
            }
            assert forall|a: int, b: int|
                0 <= a < nord.len() && 0 <= b < nord.len() && a != b implies nord[a] != nord[b] by {
                let a2 = if a < p {
                    a
                } else {
                    a + 1
                };
                let b2 = if b < p {
                    b
                } else {
                    b + 1
                };
                assert(nord[a] == ord[a2]);
                assert(nord[b] == ord[b2]);
            }
        }
    }

    /// Link `index` in as the new head, carrying `key` and stamped with the
    /// current batch.
    fn attach_to_head(&mut self, index: usize, key: K)
        requires
            old(self).links_ok(),
            index < old(self).capacity,
            !old(self).order@.contains(index),
        ensures
            final(self).links_ok(),
            final(self).order@ == seq![index].add(old(self).order@),
            final(self).capacity == old(self).capacity,
            final(self).values == old(self).values,
            final(self).map == old(self).map,
            final(self).empties == old(self).empties,
            final(self).current_batch_id == old(self).current_batch_id,
            final(self).epochs == old(self).epochs,
            final(self).clock == old(self).clock,
            final(self).nodes@.len() == old(self).nodes@.len(),
            final(self).nodes@[index as int].key == Some(key),
            final(self).nodes@[index as int].last_used_batch_id == old(self).current_batch_id,
            forall|i: int|
                0 <= i < final(self).nodes@.len() && i != index ==> (#[trigger] final(self).nodes@[i]).key
                    == old(self).nodes@[i].key && final(self).nodes@[i].last_used_batch_id
                    == old(self).nodes@[i].last_used_batch_id,
    {
        let ghost ord = self.order@;
        let node = LruNode {
            key: Some(key),
            newer: None,
            older: self.head,
            last_used_batch_id: self.current_batch_id,
        };
        self.nodes.set(index, node);
        if let Some(old_head) = self.head {
            let mut h = self.nodes[old_head];
            h.newer = Some(index);
            self.nodes.set(old_head, h);
        }
        self.head = Some(index);
        if self.tail.is_none() {
            self.tail = Some(index);
        }
        proof {
            self.order@ = seq![index].add(ord);
            let nord = self.order@;
            assert forall|q: int| 0 <= q < nord.len() implies (#[trigger] self.nodes@[nord[q] as int]).newer
                == (if q == 0 {
                None
            } else {
                Some(nord[q - 1])
            }) by {
                if q > 0 {
                    assert(nord[q] == ord[q - 1]);
                }
            }
            assert forall|q: int| 0 <= q < nord.len() implies (#[trigger] self.nodes@[nord[q] as int]).older
                == (if q + 1 == nord.len() {
                None
            } else {
                Some(nord[q + 1])
            }) by {
                if q > 0 {
                    assert(nord[q] == ord[q - 1]);
                }
            }
            assert forall|a: int, b: int|
                0 <= a < nord.len() && 0 <= b < nord.len() && a != b implies nord[a] != nord[b] by {
                if a > 0 && b > 0 {
                    assert(nord[a] == ord[a - 1]);
                    assert(nord[b] == ord[b - 1]);
                } else if a == 0 {
                    assert(nord[b] == ord[b - 1]);
                    assert(ord.contains(ord[b - 1]));
                } else {
                    assert(nord[a] == ord[a - 1]);
                    assert(ord.contains(ord[a - 1]));
                }
            }
            assert(nord.last() == if ord.len() == 0 {
                index
            } else {
                ord.last()
            });
        }
    }
}


/// When a lookup finds no room — the cache is full and its least recently used
/// entry is protected — every cached entry was used in the current batch, as
/// long as no entry is as old as the number of distinct batch ids.
pub proof fn lemma_no_room_means_all_protected<K: Copy + Eq + Hash, V>(cache: &GlyphCache<K, V>)
    requires
        cache.wf(),
        cache.keys().len() == cache.cap(),
        cache.stamps()[cache.keys().last()] == cache.batch(),
        forall|k: K| #[trigger] cache.contents().contains_key(k) ==> cache.ages()[k] < batch_modulus(),
    ensures
        forall|k: K| #[trigger] cache.contents().contains_key(k) ==> cache.stamps()[k] == cache.batch(),
{
    cache.lemma_keys_distinct();
    cache.lemma_no_room(cache.keys().last());
    assert forall|k: K| #[trigger] cache.contents().contains_key(k) implies cache.stamps()[k]
        == cache.batch() by {
        cache.lemma_no_room(k);
    }
}

/// The keys are exactly the cached entries: each cached key appears in
/// [`GlyphCache::keys`] once, and every key listed there is cached.
pub proof fn lemma_keys_are_the_contents<K: Copy + Eq + Hash, V>(cache: &GlyphCache<K, V>)
    requires
        cache.wf(),
    ensures
        cache.keys().no_duplicates(),
        forall|k: K| #[trigger] cache.contents().contains_key(k) <==> cache.keys().contains(k),
        cache.contents().dom() == cache.keys().to_set(),
        cache.keys().len() == cache.contents().len(),
        cache.keys().len() <= cache.cap(),
{
    cache.lemma_keys_distinct();
}

/// When the cache is full and every entry was used in the current batch,
/// there is no room: its least recently used entry is protected too, so a
/// lookup of a key it does not hold returns `None`.
pub proof fn lemma_all_protected_means_no_room<K: Copy + Eq + Hash, V>(cache: &GlyphCache<K, V>)
    requires
        cache.wf(),
        cache.keys().len() == cache.cap(),
        forall|k: K| #[trigger] cache.contents().contains_key(k) ==> cache.stamps()[k] == cache.batch(),
    ensures
        cache.keys().len() > 0,
        cache.stamps()[cache.keys().last()] == cache.batch(),
{
    cache.lemma_keys_distinct();
    let n = cache.keys().len();
    assert(cache.keys().contains(cache.keys()[n - 1]));
    assert(cache.contents().contains_key(cache.keys().last()));
}

/// The cache is kept in recency order: a key nearer the front of
/// [`GlyphCache::keys`] was used no longer ago than one behind it, so the last
/// key, the one eviction takes, is the least recently used.
pub proof fn lemma_keys_in_recency_order<K: Copy + Eq + Hash, V>(cache: &GlyphCache<K, V>)
    requires
        cache.wf(),
    ensures
        forall|i: int, j: int|
            0 <= i < j < cache.keys().len() ==> 0 <= #[trigger] cache.ages()[cache.keys()[i]]
                <= #[trigger] cache.ages()[cache.keys()[j]],
{
    cache.lemma_keys_distinct();
    let ord = cache.order@;
    assert forall|i: int, j: int| 0 <= i < j < cache.keys().len() implies 0
        <= #[trigger] cache.ages()[cache.keys()[i]] <= #[trigger] cache.ages()[cache.keys()[j]] by {
        assert(cache.keys()[i] == key_at(cache.nodes@, ord[i]));
        assert(cache.keys()[j] == key_at(cache.nodes@, ord[j]));
        assert(cache.map@[key_at(cache.nodes@, ord[i])] == ord[i]);
        assert(cache.map@[key_at(cache.nodes@, ord[j])] == ord[j]);
        assert(cache.epochs@[ord[i] as int] >= cache.epochs@[ord[j] as int]);
        assert(cache.epochs@[ord[i] as int] <= cache.clock@);
    }
}

/// Starting a new batch releases the protection of every entry used in the
/// batch that just ended.
pub proof fn lemma_new_batch_releases_protection<K: Copy + Eq + Hash, V>(
    before: &GlyphCache<K, V>,
    after: &GlyphCache<K, V>,
    k: K,
)
    requires
        before.wf(),
        after.batch() == before.batch().wrapping_add(1),
        after.stamps() == before.stamps(),
        before.contents().contains_key(k),
        before.stamps()[k] == before.batch(),
    ensures
        after.contents().contains_key(k) ==> after.stamps()[k] != after.batch(),
{
}

impl<K: Copy + Eq + Hash, V> GlyphCache<K, V> {
    /// The least recently used entry has the oldest epoch, so if it is a
    /// whole number of wraps behind the clock and younger than one wrap, every
    /// entry is exactly at the clock.
    proof fn lemma_no_room(&self, k: K)
        requires
            self.wf(),
            self.order@.len() == self.capacity,
            self.contents().contains_key(k),
            self.stamps()[self.keys().last()] == self.batch(),
            forall|j: K| #[trigger] self.contents().contains_key(j) ==> self.ages()[j] < batch_modulus(),
        ensures
            self.stamps()[k] == self.batch(),
    {
        let ord = self.order@;
        let n = ord.len();
        let m = batch_modulus();
        let t = ord[n - 1];
        let tk = self.slot_key(t);
        assert(self.keys().last() == tk);
        assert(self.map@[tk] == t);
        assert(self.contents().contains_key(tk));
        let c = self.clock@;
        let et = self.epochs@[t as int];
        assert(0 <= et <= c);
        assert(c - et < m);
        assert(et % m == c % m);
        vstd::arithmetic::div_mod::lemma_fundamental_div_mod(et, m);
        vstd::arithmetic::div_mod::lemma_fundamental_div_mod(c, m);
        vstd::arithmetic::div_mod::lemma_sub_mod_noop(c, et, m);
        vstd::arithmetic::div_mod::lemma_small_mod((c - et) as nat, m as nat);
        vstd::arithmetic::div_mod::lemma_mod_self_0(m);
        assert((c - et) % m == 0) by {
            vstd::arithmetic::div_mod::lemma_mod_bound(c, m);
            vstd::arithmetic::div_mod::lemma_mod_bound(et, m);
            vstd::arithmetic::div_mod::lemma_small_mod(0, m as nat);
        }
        assert(et == c);
        let j = self.map@[k];
        let q = choose|q: int| 0 <= q < n && ord[q] == j;
        if q < n - 1 {
            assert(self.epochs@[ord[q] as int] >= self.epochs@[ord[n - 1] as int]);
        }
        assert(self.epochs@[j as int] == c);
    }
}

} // verus!
