//! The fixed-capacity key-value store with least-recently-used eviction.
//!
//! Entries live in a growable arena (a vector of slots) and are threaded
//! on a doubly-linked recency list addressed by slot index, from the
//! most-recently-used entry (`first`) to the least-recently-used one
//! (`last`).  A removed or evicted entry is retired in place: its value is
//! taken out and its slot is left unlinked, so slot indices stay stable.
//!
//! The key-to-slot lookup goes by a scan over the arena: the invariant
//! keeps live keys unique, so the scan finds the one live slot of a key.
//! A generic key type admits no provable hash table, so the store trades
//! the constant-time lookup of a hashed index for a verified linear one;
//! recency behaviour and contracts do not depend on that choice.
//!
//! The verification tracks the recency list as a ghost sequence of slot
//! indices (`order`); the invariant ties the `prev`/`next` links, the two
//! endpoints and the live-entry count to that sequence.

use vstd::prelude::*;
use vstd::laws_eq::obeys_concrete_eq;
use crate::model::concrete_eq_facts;
use crate::model::contains_key;
use crate::model::distinct_keys;
use crate::model::key_index;
use crate::model::promoted;
use crate::model::put_result;
use crate::model::removed;
use crate::model::value_of;

verus! {

/// One arena slot: a key, the value (absent once the entry is retired),
/// and the two neighbour links of the recency list.
struct Entry<K, V> {
    key: K,
    value: Option<V>,
    prev: Option<usize>,
    next: Option<usize>,
}

/// A fixed-capacity store with least-recently-used eviction.
///
/// The contracts hold for key types whose `==` agrees with mathematical
/// equality (`obeys_concrete_eq`); a key type with an inconsistent
/// equality would void the store's behaviour just as it voids the
/// contracts.  A store of capacity zero is valid but degenerate: it
/// never retains an entry, so every lookup on it misses.
pub struct Cache<K, V> {
    /// The slot arena.  Retired slots stay in place with their value
    /// absent, so a slot index is stable for the lifetime of the store.
    entries: Vec<Entry<K, V>>,
    /// The most-recently-used slot, if any entry is live.
    first: Option<usize>,
    /// The least-recently-used slot, if any entry is live.
    last: Option<usize>,
    /// The number of live entries.
    len: usize,
    /// The configured bound on the number of live entries.
    max_size: usize,
    /// The live slots in recency order, most-recently-used first.
    order: Ghost<Seq<usize>>,
}

impl<K, V> Cache<K, V> {
    /// Slot `order[j]` exists, is live, and its links agree with its
    /// neighbours in the recency order.
    spec fn link_ok(self, j: int) -> bool {
        let ord = self.order@;
        let es = self.entries@;
        &&& ord[j] < es.len()
        &&& es[ord[j] as int].value is Some
        &&& es[ord[j] as int].prev == (if j == 0 {
            None::<usize>
        } else {
            Some(ord[j - 1])
        })
        &&& es[ord[j] as int].next == (if j == ord.len() - 1 {
            None::<usize>
        } else {
            Some(ord[j + 1])
        })
    }

    /// Every slot on the recency list is linked correctly and the two
    /// endpoints agree with the list.
    spec fn links_ok(self) -> bool {
        &&& forall|j: int| 0 <= j < self.order@.len() ==> #[trigger] self.link_ok(j)
        &&& self.first == (if self.order@.len() == 0 {
            None::<usize>
        } else {
            Some(self.order@[0])
        })
        &&& self.last == (if self.order@.len() == 0 {
            None::<usize>
        } else {
            Some(self.order@[self.order@.len() - 1])
        })
    }

    /// No slot sits on the recency list twice.
    spec fn slots_distinct(self) -> bool {
        forall|j: int, l: int|
            0 <= j < l < self.order@.len() ==> self.order@[j] != self.order@[l]
    }

    /// Slot `s` sits somewhere on the recency list.
    spec fn on_list(self, s: int) -> bool {
        exists|m: int| 0 <= m < self.order@.len() && self.order@[m] as int == s
    }

    /// Every slot off the recency list is retired (its value is absent),
    /// except possibly slot `i`.
    spec fn retired_ok_except(self, i: int) -> bool {
        forall|s: int|
            0 <= s < self.entries@.len() && s != i && (#[trigger] self.entries@[s]).value is Some
                ==> self.on_list(s)
    }

    /// Every slot off the recency list is retired.
    spec fn retired_ok(self) -> bool {
        forall|s: int|
            0 <= s < self.entries@.len() && (#[trigger] self.entries@[s]).value is Some
                ==> self.on_list(s)
    }

    /// The live entries in recency order, most-recently-used first.
    spec fn pairs(self) -> Seq<(K, V)> {
        Seq::new(
            self.order@.len(),
            |j: int|
                (
                    self.entries@[self.order@[j] as int].key,
                    self.entries@[self.order@[j] as int].value.unwrap(),
                ),
        )
    }

    /// The full structural invariant of a store at rest.
    spec fn inv(self) -> bool {
        &&& self.links_ok()
        &&& self.slots_distinct()
        &&& distinct_keys(self.pairs())
        &&& self.retired_ok()
        &&& self.len == self.order@.len()
        &&& self.order@.len() <= self.max_size
    }

    /// The invariant of a store whose slot `i` is live but momentarily
    /// off the recency list: the state between unlinking (or appending)
    /// a slot and linking it back at the front.
    spec fn detached_inv(self, i: int) -> bool {
        &&& self.links_ok()
        &&& self.slots_distinct()
        &&& distinct_keys(self.pairs())
        &&& self.retired_ok_except(i)
        &&& 0 <= i < self.entries@.len()
        &&& self.entries@[i].value is Some
        &&& !self.on_list(i)
        &&& self.len == self.order@.len() + 1
        &&& self.len <= self.max_size
    }
}

impl<K, V> Cache<K, V> {
    /// Takes slot `index`, sitting at position `j` of the recency order,
    /// off the recency list, patching its neighbours' links and the two
    /// endpoints.  The slot itself stays live, ready to be linked back.
    #[verifier::rlimit(50)]
    fn unlink(&mut self, index: usize, Ghost(j): Ghost<int>)
        requires
            old(self).inv(),
            0 <= j < old(self).order@.len(),
            old(self).order@[j] == index,
        ensures
            final(self).detached_inv(index as int),
            final(self).order@ == old(self).order@.remove(j),
            final(self).pairs() == old(self).pairs().remove(j),
            final(self).max_size == old(self).max_size,
            final(self).len == old(self).len,
            final(self).entries@.len() == old(self).entries@.len(),
            forall|s: int|
                0 <= s < old(self).entries@.len() ==> {
                    &&& (#[trigger] final(self).entries@[s]).key == old(self).entries@[s].key
                    &&& final(self).entries@[s].value == old(self).entries@[s].value
                },
    {
        proof {
            assert(self.link_ok(j));
            if j > 0 {
                assert(self.link_ok(j - 1));
            }
            if j < self.order@.len() - 1 {
                assert(self.link_ok(j + 1));
            }
        }
        let prev = self.entries[index].prev;
        let next = self.entries[index].next;
        let is_first = match self.first {
            Some(f) => f == index,
            None => false,
        };
        if is_first {
            self.first = next;
        }
        let is_last = match self.last {
            Some(l) => l == index,
            None => false,
        };
        if is_last {
            self.last = prev;
        }
        match prev {
            Some(p) => {
                let e = &mut self.entries[p];
                e.next = next;
            },
            None => {},
        }
        match next {
            Some(nx) => {
                let e = &mut self.entries[nx];
                e.prev = prev;
            },
            None => {},
        }
        proof {
            let ord = old(self).order@;
            let ord2 = ord.remove(j);
            self.order = Ghost(ord2);
            let es = old(self).entries@;
            let es2 = self.entries@;
            // Slot indices at distinct positions are distinct, so the two
            // link writes hit exactly the two neighbours of position j.
            assert forall|l: int| 0 <= l < ord2.len() implies #[trigger] self.link_ok(l) by {
                assert(old(self).link_ok(j));
                if l < j {
                    assert(old(self).link_ok(l));
                    if l > 0 {
                        assert(old(self).link_ok(l - 1));
                    }
                    if l < ord.len() - 1 {
                        assert(old(self).link_ok(l + 1));
                    }
                } else {
                    assert(old(self).link_ok(l + 1));
                    if l > 0 {
                        assert(old(self).link_ok(l - 1));
                    }
                    assert(old(self).link_ok(l));
                    if l + 1 < ord.len() - 1 {
                        assert(old(self).link_ok(l + 2));
                    }
                }
            }
            assert(self.links_ok());
            assert forall|s: int| 0 <= s < es2.len() implies (#[trigger] es2[s]).key == es[s].key
                && es2[s].value == es[s].value by {}
            assert forall|l: int| 0 <= l < ord2.len() implies self.pairs()[l] == old(
                self,
            ).pairs().remove(j)[l] by {
                if l < j {
                    assert(old(self).link_ok(l));
                    assert(ord2[l] == ord[l]);
                    assert(old(self).pairs().remove(j)[l] == old(self).pairs()[l]);
                    assert(es2[ord[l] as int].key == es[ord[l] as int].key);
                    assert(es2[ord[l] as int].value == es[ord[l] as int].value);
                } else {
                    assert(old(self).link_ok(l + 1));
                    assert(ord2[l] == ord[l + 1]);
                    assert(old(self).pairs().remove(j)[l] == old(self).pairs()[l + 1]);
                    assert(es2[ord[l + 1] as int].key == es[ord[l + 1] as int].key);
                    assert(es2[ord[l + 1] as int].value == es[ord[l + 1] as int].value);
                }
            }
            assert(self.pairs() =~= old(self).pairs().remove(j));
            assert forall|s: int|
                0 <= s < es2.len() && s != index as int && (#[trigger] es2[s]).value is Some
                    implies self.on_list(s) by {
                assert(es[s].value is Some);
                assert(old(self).on_list(s));
                let m = choose|m: int| 0 <= m < ord.len() && ord[m] as int == s;
                if m == j {
                    assert(ord[m] as int == index as int);
                    assert(false);
                }
                if m < j {
                    assert(ord2[m] as int == s);
                } else {
                    assert(ord2[m - 1] as int == s);
                }
            }
            assert forall|m: int| 0 <= m < ord2.len() implies ord2[m] as int != index as int by {
                if m < j {
                    assert(ord2[m] == ord[m]);
                } else {
                    assert(ord2[m] == ord[m + 1]);
                }
            }
            assert(!self.on_list(index as int));
            assert(self.detached_inv(index as int));
        }
    }

    /// Links the detached live slot `index` in at the front of the
    /// recency list, making it the most-recently-used entry.
    fn push_front(&mut self, index: usize)
        requires
            old(self).detached_inv(index as int),
            !contains_key(old(self).pairs(), old(self).entries@[index as int].key),
        ensures
            final(self).inv(),
            final(self).order@ == seq![index] + old(self).order@,
            final(self).pairs() == seq![
                (
                    old(self).entries@[index as int].key,
                    old(self).entries@[index as int].value.unwrap(),
                ),
            ] + old(self).pairs(),
            final(self).max_size == old(self).max_size,
            final(self).entries@.len() == old(self).entries@.len(),
    {
        let f = self.first;
        {
            let e = &mut self.entries[index];
            e.prev = None;
            e.next = f;
        }
        match f {
            Some(of) => {
                proof {
                    assert(old(self).link_ok(0));
                }
                let e = &mut self.entries[of];
                e.prev = Some(index);
            },
            None => {
                self.last = Some(index);
            },
        }
        self.first = Some(index);
        proof {
            let ord = old(self).order@;
            let ord2 = seq![index] + ord;
            self.order = Ghost(ord2);
            let es = old(self).entries@;
            let es2 = self.entries@;
            assert forall|l: int| 0 <= l < ord2.len() implies #[trigger] self.link_ok(l) by {
                if ord.len() > 0 {
                    assert(old(self).link_ok(0));
                }
                if l >= 1 {
                    assert(old(self).link_ok(l - 1));
                    assert(ord2[l] == ord[l - 1]);
                    if l >= 2 {
                        assert(old(self).link_ok(l - 2));
                        assert(ord[l - 1] as int != index as int);
                        assert(ord[l - 1] != ord[0]);
                    }
                    if l < ord2.len() - 1 {
                        assert(old(self).link_ok(l));
                    }
                }
            }
            assert(self.links_ok());
            assert forall|s: int| 0 <= s < es2.len() implies (#[trigger] es2[s]).key == es[s].key
                && es2[s].value == es[s].value by {}
            assert forall|l: int| 0 <= l < ord2.len() implies self.pairs()[l] == (seq![
                (es[index as int].key, es[index as int].value.unwrap()),
            ] + old(self).pairs())[l] by {
                if l >= 1 {
                    assert(old(self).link_ok(l - 1));
                    assert(ord2[l] == ord[l - 1]);
                    assert(es2[ord[l - 1] as int].key == es[ord[l - 1] as int].key);
                    assert(es2[ord[l - 1] as int].value == es[ord[l - 1] as int].value);
                }
            }
            assert(self.pairs() =~= seq![
                (es[index as int].key, es[index as int].value.unwrap()),
            ] + old(self).pairs());
            assert forall|i2: int, j2: int| 0 <= i2 < j2 < self.pairs().len() implies self.pairs()[i2].0
                != self.pairs()[j2].0 by {
                if i2 == 0 {
                    assert(!contains_key(old(self).pairs(), es[index as int].key));
                    assert(old(self).pairs()[j2 - 1].0 != es[index as int].key);
                } else {
                    assert(old(self).pairs()[i2 - 1].0 != old(self).pairs()[j2 - 1].0);
                }
            }
            assert forall|s: int|
                0 <= s < es2.len() && (#[trigger] es2[s]).value is Some implies self.on_list(
                s,
            ) by {
                if s == index as int {
                    assert(ord2[0] as int == s);
                } else {
                    assert(es[s].value is Some);
                    assert(old(self).on_list(s));
                    let m = choose|m: int| 0 <= m < ord.len() && ord[m] as int == s;
                    assert(ord2[m + 1] as int == s);
                }
            }
            assert(self.inv());
        }
    }

    /// Promotes the live slot `index`, sitting at position `j` of the
    /// recency order, to most-recently-used.  Already-first slots are
    /// left alone.
    fn move_to_front(&mut self, index: usize, Ghost(j): Ghost<int>)
        requires
            old(self).inv(),
            0 <= j < old(self).order@.len(),
            old(self).order@[j] == index,
        ensures
            final(self).inv(),
            final(self).order@ == seq![index] + old(self).order@.remove(j),
            final(self).pairs() == seq![old(self).pairs()[j]] + old(self).pairs().remove(j),
            final(self).max_size == old(self).max_size,
            final(self).len == old(self).len,
            final(self).entries@.len() == old(self).entries@.len(),
    {
        let is_first = match self.first {
            Some(f) => f == index,
            None => false,
        };
        if is_first {
            proof {
                if j != 0 {
                    assert(self.order@[0] == index);
                    assert(false);
                }
                assert(seq![index] + self.order@.remove(0) =~= self.order@);
                assert(seq![self.pairs()[0]] + self.pairs().remove(0) =~= self.pairs());
            }
            return;
        }
        proof {
            assert(old(self).link_ok(j));
            assert(old(self).pairs()[j].0 == old(self).entries@[index as int].key);
        }
        self.unlink(index, Ghost(j));
        proof {
            let key = old(self).entries@[index as int].key;
            if contains_key(self.pairs(), key) {
                let i2 = key_index(self.pairs(), key);
                assert(self.pairs()[i2].0 == key);
                if i2 < j {
                    assert(self.pairs()[i2] == old(self).pairs()[i2]);
                    assert(old(self).pairs()[i2].0 != old(self).pairs()[j].0);
                } else {
                    assert(self.pairs()[i2] == old(self).pairs()[i2 + 1]);
                    assert(old(self).pairs()[j].0 != old(self).pairs()[i2 + 1].0);
                }
                assert(false);
            }
        }
        self.push_front(index);
        proof {
            assert(self.pairs() =~= seq![old(self).pairs()[j]] + old(self).pairs().remove(j));
        }
    }

    /// Retires the detached live slot `index`: takes its value out, so
    /// the slot no longer counts as live, and settles the live count.
    fn retire(&mut self, index: usize)
        requires
            old(self).detached_inv(index as int),
        ensures
            final(self).inv(),
            final(self).order@ == old(self).order@,
            final(self).pairs() == old(self).pairs(),
            final(self).max_size == old(self).max_size,
            final(self).len == old(self).len - 1,
            final(self).entries@.len() == old(self).entries@.len(),
    {
        {
            let e = &mut self.entries[index];
            e.value = None;
        }
        self.len = self.len - 1;
        proof {
            let ord2 = self.order@;
            assert forall|l: int| 0 <= l < ord2.len() implies #[trigger] self.link_ok(l) by {
                assert(old(self).link_ok(l));
                if ord2[l] as int == index as int {
                    assert(old(self).on_list(index as int));
                    assert(false);
                }
            }
            assert forall|l: int| 0 <= l < ord2.len() implies self.pairs()[l] == old(
                self,
            ).pairs()[l] by {
                assert(old(self).link_ok(l));
                if ord2[l] as int == index as int {
                    assert(old(self).on_list(index as int));
                    assert(false);
                }
            }
            assert(self.pairs() =~= old(self).pairs());
            assert(self.inv());
        }
    }

    /// Evicts the least-recently-used entry: takes the tail slot off the
    /// recency list and retires it.
    fn remove_last(&mut self)
        requires
            old(self).inv(),
            old(self).order@.len() > 0,
        ensures
            final(self).inv(),
            final(self).order@ == old(self).order@.drop_last(),
            final(self).pairs() == old(self).pairs().drop_last(),
            final(self).max_size == old(self).max_size,
            final(self).len == old(self).len - 1,
            final(self).entries@.len() == old(self).entries@.len(),
    {
        proof {
            assert(self.link_ok(self.order@.len() - 1));
        }
        let li = self.last.unwrap();
        self.unlink(li, Ghost(old(self).order@.len() - 1));
        self.retire(li);
        proof {
            assert(self.pairs() =~= old(self).pairs().drop_last());
            assert(self.order@ =~= old(self).order@.drop_last());
        }
    }
}

impl<K: PartialEq, V> Cache<K, V> {
    /// Finds the live slot carrying `key`, if there is one.
    fn find(&self, key: &K) -> (r: Option<usize>)
        requires
            self.inv(),
            obeys_concrete_eq::<K>(),
        ensures
            match r {
                Some(i) => {
                    &&& contains_key(self.pairs(), *key)
                    &&& 0 <= key_index(self.pairs(), *key) < self.order@.len()
                    &&& self.order@[key_index(self.pairs(), *key)] == i
                },
                None => !contains_key(self.pairs(), *key),
            },
    {
        proof {
            concrete_eq_facts::<K>();
        }
        let n = self.entries.len();
        let mut i: usize = 0;
        while i < n
            invariant
                self.inv(),
                obeys_concrete_eq::<K>(),
                n == self.entries@.len(),
                i <= n,
                forall|s: int|
                    0 <= s < i ==> !((#[trigger] self.entries@[s]).value is Some
                        && self.entries@[s].key == *key),
            decreases n - i,
        {
            let e = &self.entries[i];
            if e.value.is_some() && e.key == *key {
                proof {
                    concrete_eq_facts::<K>();
                    let ord = self.order@;
                    assert(self.on_list(i as int));
                    let j = choose|j: int| 0 <= j < ord.len() && ord[j] as int == i as int;
                    assert(self.pairs()[j].0 == *key);
                    assert(contains_key(self.pairs(), *key));
                    let j2 = key_index(self.pairs(), *key);
                    assert(self.pairs()[j2].0 == *key);
                    if j != j2 {
                        assert(self.pairs()[j].0 != self.pairs()[j2].0);
                        assert(false);
                    }
                }
                return Some(i);
            }
            proof {
                concrete_eq_facts::<K>();
            }
            i += 1;
        }
        proof {
            if contains_key(self.pairs(), *key) {
                let j = key_index(self.pairs(), *key);
                assert(self.pairs()[j].0 == *key);
                assert(self.link_ok(j));
            }
        }
        None
    }
}

/// Law: the number of live entries never exceeds the configured
/// capacity.  Together with the operations' contracts, which all
/// preserve well-formedness, this bounds every sequence of operations.
pub proof fn lemma_capacity_bound<K: PartialEq, V>(cache: &Cache<K, V>)
    requires
        cache.wf(),
    ensures
        cache.contents().len() <= cache.capacity(),
{
}

/// Law: after any sequence of operations, each live key appears in the
/// recency list exactly once; the recency list carries no duplicate and
/// no retired entry.
pub proof fn lemma_no_duplicate_keys<K: PartialEq, V>(cache: &Cache<K, V>)
    requires
        cache.wf(),
    ensures
        distinct_keys(cache.contents()),
{
}

impl<K: PartialEq, V> Cache<K, V> {
    /// The internal structure is well formed.  Established by
    /// `with_capacity` and preserved by every operation.
    pub closed spec fn wf(&self) -> bool {
        self.inv()
    }

    /// The live entries, most-recently-used first.
    pub closed spec fn contents(&self) -> Seq<(K, V)> {
        self.pairs()
    }

    /// The configured maximum number of live entries.
    pub closed spec fn capacity(&self) -> nat {
        self.max_size as nat
    }

    /// Makes an empty store bounded to `max_size` entries.
    ///
    /// A bound of zero is valid but degenerate: such a store never
    /// retains an entry, so every lookup on it misses.
    pub fn with_capacity(max_size: usize) -> (cache: Self)
        ensures
            cache.wf(),
            cache.contents() == Seq::<(K, V)>::empty(),
            cache.capacity() == max_size as nat,
    {
        let cache = Cache {
            entries: Vec::with_capacity(max_size),
            first: None,
            last: None,
            len: 0,
            max_size,
            order: Ghost(Seq::empty()),
        };
        proof {
            assert(cache.inv());
            assert(cache.pairs() =~= Seq::<(K, V)>::empty());
        }
        cache
    }

    /// Looks a key up.  A hit returns the associated value and promotes
    /// the entry to most-recently-used; a miss returns nothing and
    /// leaves the store unchanged.
    pub fn get<'a>(&'a mut self, key: &K) -> (r: Option<&'a V>)
        requires
            old(self).wf(),
            obeys_concrete_eq::<K>(),
        ensures
            final(self).wf(),
            final(self).capacity() == old(self).capacity(),
            contains_key(old(self).contents(), *key) ==> (r matches Some(v)
                && *v == value_of(old(self).contents(), *key)
                && final(self).contents() == promoted(old(self).contents(), *key)),
            !contains_key(old(self).contents(), *key) ==> (r is None
                && final(self).contents() == old(self).contents()),
    {
        match self.find(key) {
            Some(index) => {
                let ghost j = key_index(self.pairs(), *key);
                self.move_to_front(index, Ghost(j));
                proof {
                    assert(self.link_ok(0));
                    assert(self.order@[0] == index);
                    assert(self.pairs()[0] == old(self).pairs()[j]);
                    assert(self.pairs()[0].1 == self.entries@[index as int].value.unwrap());
                }
                let e = &self.entries[index];
                e.value.as_ref()
            },
            None => None,
        }
    }

    /// Associates `value` with `key` and makes the entry the
    /// most-recently-used one.  A live key is overwritten in place; a
    /// new key put into a full store first evicts the
    /// least-recently-used entry.
    pub fn put(&mut self, key: K, value: V)
        requires
            old(self).wf(),
            obeys_concrete_eq::<K>(),
        ensures
            final(self).wf(),
            final(self).capacity() == old(self).capacity(),
            final(self).contents() == put_result(
                old(self).contents(),
                old(self).capacity(),
                key,
                value,
            ),
    {
        match self.find(&key) {
            Some(index) => {
                let ghost j = key_index(self.pairs(), key);
                proof {
                    assert(old(self).link_ok(j));
                }
                {
                    let e = &mut self.entries[index];
                    e.value = Some(value);
                }
                let ghost mid = *self;
                proof {
                    assert forall|l: int| 0 <= l < mid.order@.len() implies #[trigger] mid.link_ok(
                        l,
                    ) by {
                        assert(old(self).link_ok(l));
                    }
                    assert forall|l: int|
                        0 <= l < mid.order@.len() && l != j implies mid.pairs()[l] == old(
                        self,
                    ).pairs()[l] by {
                        assert(old(self).link_ok(l));
                        if mid.order@[l] as int == index as int {
                            assert(old(self).order@[l] != old(self).order@[j]);
                            assert(false);
                        }
                    }
                    assert(mid.pairs()[j] == ((key, value)));
                    assert forall|i2: int, j2: int|
                        0 <= i2 < j2 < mid.pairs().len() implies mid.pairs()[i2].0
                        != mid.pairs()[j2].0 by {
                        assert(mid.pairs()[i2].0 == old(self).pairs()[i2].0);
                        assert(mid.pairs()[j2].0 == old(self).pairs()[j2].0);
                        assert(old(self).pairs()[i2].0 != old(self).pairs()[j2].0);
                    }
                    assert forall|s: int|
                        0 <= s < mid.entries@.len() && (#[trigger] mid.entries@[s]).value is Some
                            implies mid.on_list(s) by {
                        if s != index as int {
                            assert(old(self).entries@[s].value is Some);
                            assert(old(self).on_list(s));
                        } else {
                            assert(old(self).order@[j] as int == s);
                        }
                    }
                    assert(mid.inv());
                }
                self.move_to_front(index, Ghost(j));
                proof {
                    assert(mid.pairs().remove(j) =~= old(self).pairs().remove(j));
                    assert(self.pairs() =~= put_result(
                        old(self).pairs(),
                        old(self).max_size as nat,
                        key,
                        value,
                    ));
                }
            },
            None => {
                if self.max_size == 0 {
                    return ;
                }
                if self.len >= self.max_size {
                    self.remove_last();
                }
                let ghost mid = *self;
                let nid = self.entries.len();
                self.entries.push(
                    Entry { key, value: Some(value), prev: None, next: None },
                );
                self.len = self.len + 1;
                proof {
                    assert forall|l: int| 0 <= l < self.order@.len() implies #[trigger] self.link_ok(
                        l,
                    ) by {
                        assert(mid.link_ok(l));
                    }
                    assert forall|l: int| 0 <= l < self.order@.len() implies self.pairs()[l]
                        == mid.pairs()[l] by {
                        assert(mid.link_ok(l));
                    }
                    assert(self.pairs() =~= mid.pairs());
                    assert forall|s: int|
                        0 <= s < self.entries@.len() && s != nid as int && (#[trigger] self
                            .entries@[s]).value is Some implies self.on_list(s) by {
                        assert(mid.entries@[s].value is Some);
                        assert(mid.on_list(s));
                    }
                    assert forall|m: int| 0 <= m < self.order@.len() implies self.order@[m] as int
                        != nid as int by {
                        assert(mid.link_ok(m));
                    }
                    assert(!self.on_list(nid as int));
                    assert(self.detached_inv(nid as int));
                    if contains_key(self.pairs(), key) {
                        let i2 = key_index(self.pairs(), key);
                        assert(self.pairs()[i2].0 == key);
                        if old(self).len >= old(self).max_size {
                            assert(mid.pairs() == old(self).pairs().drop_last());
                            assert(old(self).pairs()[i2].0 == key);
                        }
                        assert(contains_key(old(self).pairs(), key));
                        assert(false);
                    }
                }
                self.push_front(nid);
                proof {
                    assert(self.pairs() =~= put_result(
                        old(self).pairs(),
                        old(self).max_size as nat,
                        key,
                        value,
                    ));
                }
            },
        }
    }

    /// Removes a key.  An absent key is a no-op, so invalidating twice
    /// is the same as invalidating once.
    pub fn invalidate(&mut self, key: &K)
        requires
            old(self).wf(),
            obeys_concrete_eq::<K>(),
        ensures
            final(self).wf(),
            final(self).capacity() == old(self).capacity(),
            final(self).contents() == removed(old(self).contents(), *key),
    {
        match self.find(key) {
            Some(index) => {
                let ghost j = key_index(self.pairs(), *key);
                self.unlink(index, Ghost(j));
                self.retire(index);
            },
            None => {},
        }
    }
}

} // verus!
