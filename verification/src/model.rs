//! The mathematical model the cache contracts are stated over.
//!
//! A cache state is modelled as a sequence of key-value pairs ordered from
//! most-recently-used to least-recently-used.  The spec functions below say
//! how each operation transforms that sequence; the operations of
//! [`Cache`](crate::cache::Cache) state their contracts over them.  The
//! proof functions are the laws that relate the operations to one another,
//! proved once over the model and holding for every key and value type.

use vstd::prelude::*;
use vstd::laws_eq::obeys_concrete_eq;
use vstd::std_specs::cmp::PartialEqSpec;

verus! {

/// Does some pair of `s` carry the key `k`?
pub open spec fn contains_key<K, V>(s: Seq<(K, V)>, k: K) -> bool {
    exists|i: int| 0 <= i < s.len() && s[i].0 == k
}

/// The position of the pair carrying `k`; meaningful only when
/// `contains_key(s, k)` holds and keys are distinct.
pub open spec fn key_index<K, V>(s: Seq<(K, V)>, k: K) -> int {
    choose|i: int| 0 <= i < s.len() && s[i].0 == k
}

/// The value associated with `k`; meaningful only when
/// `contains_key(s, k)` holds.
pub open spec fn value_of<K, V>(s: Seq<(K, V)>, k: K) -> V {
    s[key_index(s, k)].1
}

/// No key is carried by two different pairs of `s`.
pub open spec fn distinct_keys<K, V>(s: Seq<(K, V)>) -> bool {
    forall|i: int, j: int| 0 <= i < j < s.len() ==> s[i].0 != s[j].0
}

/// The state after a successful lookup of `k`: its pair moves to the
/// front, everything else keeps its relative order.
pub open spec fn promoted<K, V>(s: Seq<(K, V)>, k: K) -> Seq<(K, V)> {
    seq![s[key_index(s, k)]] + s.remove(key_index(s, k))
}

/// The state after `put(k, v)` on a store of capacity `cap`.
///
/// A live key is overwritten and moved to the front.  A new key is put at
/// the front; if the store is full, the last (least-recently-used) pair is
/// evicted first.  A store of capacity zero retains nothing.
pub open spec fn put_result<K, V>(s: Seq<(K, V)>, cap: nat, k: K, v: V) -> Seq<(K, V)> {
    if contains_key(s, k) {
        seq![(k, v)] + s.remove(key_index(s, k))
    } else if s.len() < cap {
        seq![(k, v)] + s
    } else if cap > 0 {
        seq![(k, v)] + s.drop_last()
    } else {
        s
    }
}

/// The state after `invalidate(k)`: the pair carrying `k` is removed; an
/// absent key leaves the state unchanged.
pub open spec fn removed<K, V>(s: Seq<(K, V)>, k: K) -> Seq<(K, V)> {
    if contains_key(s, k) {
        s.remove(key_index(s, k))
    } else {
        s
    }
}

/// Law: overwriting a live key re-promotes it.  `put` on a key already in
/// the store puts the new pair at the front, keeps every key that was
/// live (nothing is evicted), keeps the entry count, and a subsequent
/// lookup of the key yields the new value.
pub proof fn lemma_overwrite_repromotes<K, V>(s: Seq<(K, V)>, cap: nat, k: K, v: V)
    requires
        distinct_keys(s),
        contains_key(s, k),
    ensures
        put_result(s, cap, k, v).len() == s.len(),
        put_result(s, cap, k, v)[0] == ((k, v)),
        contains_key(put_result(s, cap, k, v), k),
        value_of(put_result(s, cap, k, v), k) == v,
        forall|k2: K| contains_key(s, k2) ==> contains_key(put_result(s, cap, k, v), k2),
        distinct_keys(put_result(s, cap, k, v)),
{
    let j = key_index(s, k);
    assert(s[j].0 == k);
    let t = put_result(s, cap, k, v);
    assert(t == seq![(k, v)] + s.remove(j));
    assert forall|i: int| 1 <= i < t.len() implies t[i].0 != k by {
        if i <= j {
            assert(t[i] == s[i - 1]);
            assert(s[i - 1].0 != s[j].0);
        } else {
            assert(t[i] == s[i]);
            assert(s[j].0 != s[i].0);
        }
    }
    assert(t[0] == ((k, v)));
    assert(t[0].0 == k);
    assert(contains_key(t, k));
    let i0 = key_index(t, k);
    assert(t[i0].0 == k);
    assert(i0 == 0);
    assert forall|k2: K| contains_key(s, k2) implies contains_key(t, k2) by {
        let i = choose|i: int| 0 <= i < s.len() && s[i].0 == k2;
        if i == j {
            assert(t[0].0 == k2);
        } else if i < j {
            assert(t[i + 1] == s[i]);
        } else {
            assert(t[i] == s[i]);
        }
    }
    assert forall|i2: int, j2: int| 0 <= i2 < j2 < t.len() implies t[i2].0 != t[j2].0 by {
        if i2 >= 1 {
            let a = if i2 <= j { i2 - 1 } else { i2 };
            let b = if j2 <= j { j2 - 1 } else { j2 };
            assert(t[i2] == s[a]);
            assert(t[j2] == s[b]);
            assert(s[a].0 != s[b].0);
        }
    }
}

/// Law: `invalidate` removes the key and is idempotent.  After removal
/// the key is gone, removing it again changes nothing, and every other
/// key keeps its value.
pub proof fn lemma_invalidate_removes<K, V>(s: Seq<(K, V)>, k: K)
    requires
        distinct_keys(s),
    ensures
        !contains_key(removed(s, k), k),
        removed(removed(s, k), k) == removed(s, k),
        forall|k2: K| k2 != k ==> (contains_key(removed(s, k), k2) <==> contains_key(s, k2)),
        forall|k2: K|
            k2 != k && contains_key(s, k2) ==> value_of(removed(s, k), k2) == value_of(s, k2),
        distinct_keys(removed(s, k)),
{
    if !contains_key(s, k) {
        assert(removed(s, k) == s);
    } else {
        let j = key_index(s, k);
        assert(s[j].0 == k);
        let t = s.remove(j);
        assert(removed(s, k) == t);
        assert forall|i: int| 0 <= i < t.len() implies #[trigger] t[i] == (if i < j {
            s[i]
        } else {
            s[i + 1]
        }) by {}
        assert forall|i: int| 0 <= i < t.len() implies t[i].0 != k by {
            if i < j {
                assert(s[i].0 != s[j].0);
            } else {
                assert(s[j].0 != s[i + 1].0);
            }
        }
        assert(!contains_key(t, k));
        assert forall|i2: int, j2: int| 0 <= i2 < j2 < t.len() implies t[i2].0 != t[j2].0 by {
            let a = if i2 < j { i2 } else { i2 + 1 };
            let b = if j2 < j { j2 } else { j2 + 1 };
            assert(t[i2] == s[a]);
            assert(t[j2] == s[b]);
            assert(s[a].0 != s[b].0);
        }
        assert forall|k2: K| k2 != k && contains_key(s, k2) implies contains_key(t, k2)
            && value_of(t, k2) == value_of(s, k2) by {
            let i = key_index(s, k2);
            assert(s[i].0 == k2);
            assert(i != j);
            let i2 = if i < j { i } else { i - 1 };
            assert(t[i2] == s[i]);
            assert(contains_key(t, k2));
            let m = key_index(t, k2);
            assert(t[m].0 == k2);
            if m != i2 {
                assert(t[m].0 != t[i2].0);
                assert(false);
            }
        }
        assert forall|k2: K| k2 != k && contains_key(t, k2) implies contains_key(s, k2) by {
            let i = choose|i: int| 0 <= i < t.len() && t[i].0 == k2;
            let a = if i < j { i } else { i + 1 };
            assert(s[a].0 == k2);
        }
    }
}

/// Law: a successful lookup promotes its key to most-recently-used and
/// changes nothing else: the entry count, the set of live keys and every
/// association are all kept.
pub proof fn lemma_get_promotes<K, V>(s: Seq<(K, V)>, k: K)
    requires
        distinct_keys(s),
        contains_key(s, k),
    ensures
        promoted(s, k).len() == s.len(),
        promoted(s, k)[0] == ((k, value_of(s, k))),
        forall|k2: K| contains_key(promoted(s, k), k2) <==> contains_key(s, k2),
        forall|k2: K| contains_key(s, k2) ==> value_of(promoted(s, k), k2) == value_of(s, k2),
        distinct_keys(promoted(s, k)),
{
    let j = key_index(s, k);
    assert(s[j].0 == k);
    let t = promoted(s, k);
    assert(t == seq![s[j]] + s.remove(j));
    assert forall|i: int| 0 <= i < t.len() implies #[trigger] t[i] == (if i == 0 {
        s[j]
    } else if i <= j {
        s[i - 1]
    } else {
        s[i]
    }) by {}
    assert forall|i2: int, j2: int| 0 <= i2 < j2 < t.len() implies t[i2].0 != t[j2].0 by {
        let a = if i2 == 0 {
            j
        } else if i2 <= j {
            i2 - 1
        } else {
            i2
        };
        let b = if j2 <= j {
            j2 - 1
        } else {
            j2
        };
        assert(t[i2] == s[a]);
        assert(t[j2] == s[b]);
        assert(s[a].0 != s[b].0 || s[b].0 != s[a].0);
    }
    assert forall|k2: K| contains_key(s, k2) implies contains_key(t, k2) && value_of(t, k2)
        == value_of(s, k2) by {
        let i = key_index(s, k2);
        assert(s[i].0 == k2);
        let i2 = if i == j {
            0
        } else if i < j {
            i + 1
        } else {
            i
        };
        assert(t[i2] == s[i]);
        assert(contains_key(t, k2));
        let m = key_index(t, k2);
        assert(t[m].0 == k2);
        if m != i2 {
            assert(t[m].0 != t[i2].0 || t[i2].0 != t[m].0);
            assert(false);
        }
    }
    assert forall|k2: K| contains_key(t, k2) implies contains_key(s, k2) by {
        let i = choose|i: int| 0 <= i < t.len() && t[i].0 == k2;
        let a = if i == 0 {
            j
        } else if i <= j {
            i - 1
        } else {
            i
        };
        assert(s[a].0 == k2);
    }
}

/// Law: a value put and immediately looked up comes back unchanged, for
/// every store that can retain anything at all (capacity at least one):
/// after `put(k, v)` the key `k` is live, sits at the front, and is
/// associated with `v`.
pub proof fn lemma_put_get_roundtrip<K, V>(s: Seq<(K, V)>, cap: nat, k: K, v: V)
    requires
        distinct_keys(s),
        cap > 0,
    ensures
        contains_key(put_result(s, cap, k, v), k),
        put_result(s, cap, k, v)[0] == ((k, v)),
        value_of(put_result(s, cap, k, v), k) == v,
{
    if contains_key(s, k) {
        lemma_overwrite_repromotes(s, cap, k, v);
    } else {
        let t = put_result(s, cap, k, v);
        let rest = if s.len() < cap {
            s
        } else {
            s.drop_last()
        };
        assert(t == seq![(k, v)] + rest);
        assert(t[0] == ((k, v)));
        assert(contains_key(t, k));
        assert forall|i: int| 1 <= i < t.len() implies t[i].0 != k by {
            assert(t[i] == rest[i - 1]);
            assert(rest[i - 1] == s[i - 1]);
            assert(!(s[i - 1].0 == k));
        }
        let i0 = key_index(t, k);
        assert(t[i0].0 == k);
        assert(i0 == 0);
    }
}

/// Law: putting a new key into a full store evicts exactly the current
/// least-recently-used entry, never another: the new key and every
/// previously live key but the tail's survive, and the tail's key is
/// gone.
pub proof fn lemma_eviction_takes_tail<K, V>(s: Seq<(K, V)>, cap: nat, k: K, v: V)
    requires
        distinct_keys(s),
        !contains_key(s, k),
        s.len() == cap,
        cap > 0,
    ensures
        put_result(s, cap, k, v).len() == s.len(),
        contains_key(put_result(s, cap, k, v), k),
        !contains_key(put_result(s, cap, k, v), s.last().0),
        forall|k2: K|
            k2 != s.last().0 && contains_key(s, k2) ==> contains_key(put_result(s, cap, k, v), k2),
        forall|k2: K|
            k2 != s.last().0 && contains_key(s, k2) ==> value_of(put_result(s, cap, k, v), k2)
                == value_of(s, k2),
{
    let t = put_result(s, cap, k, v);
    assert(t == seq![(k, v)] + s.drop_last());
    assert(t[0] == ((k, v)));
    assert(contains_key(t, k));
    assert forall|i: int| 0 <= i < t.len() implies t[i].0 != s.last().0 by {
        if i == 0 {
            assert(s[s.len() - 1].0 != k);
        } else {
            assert(t[i] == s[i - 1]);
            assert(s[i - 1].0 != s[s.len() - 1].0);
        }
    }
    assert(!contains_key(t, s.last().0));
    assert forall|i2: int, j2: int| 0 <= i2 < j2 < t.len() implies t[i2].0 != t[j2].0 by {
        if i2 == 0 {
            assert(t[j2] == s[j2 - 1]);
            assert(s[j2 - 1].0 != k);
        } else {
            assert(t[i2] == s[i2 - 1]);
            assert(t[j2] == s[j2 - 1]);
            assert(s[i2 - 1].0 != s[j2 - 1].0);
        }
    }
    assert forall|k2: K| k2 != s.last().0 && contains_key(s, k2) implies contains_key(t, k2)
        && value_of(t, k2) == value_of(s, k2) by {
        let i = key_index(s, k2);
        assert(s[i].0 == k2);
        if i == s.len() - 1 {
            assert(false);
        }
        assert(t[i + 1] == s[i]);
        assert(contains_key(t, k2));
        let m = key_index(t, k2);
        assert(t[m].0 == k2);
        if m != i + 1 {
            assert(t[m].0 != t[i + 1].0 || t[i + 1].0 != t[m].0);
            assert(false);
        }
    }
}

/// For a key type whose `==` agrees with mathematical equality, what the
/// executable comparison returns is the mathematical comparison.
pub proof fn concrete_eq_facts<K: PartialEq>()
    requires
        obeys_concrete_eq::<K>(),
    ensures
        K::obeys_eq_spec(),
        forall|x: K, y: K| #[trigger] x.eq_spec(&y) <==> x == y,
{
    reveal(vstd::laws_eq::obeys_concrete_eq);
}


} // verus!
