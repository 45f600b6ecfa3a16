//! Facts about sequences of slots in key order: where a key stands in them,
//! and what storing a slot, or parting the sequence, does to that.

use vstd::prelude::*;
use crate::btree::node::{
    first_greater, has_key, lemma_first_greater, lemma_lower_bound,
    lemma_with_slot, lower_bound, sorted, with_slot,
};
use crate::btree::slot::{Either, Slot};
use crate::storable::Increment;

verus! {

/// What is stored under `key` in `s`, if anything.
pub open spec fn lookup<K: Increment, V>(s: Seq<Slot<K, V>>, key: K) -> Option<Either<V>> {
    if has_key(s, key) {
        Some(s[lower_bound(s, key)].1)
    } else {
        None
    }
}

/// The index of the first key strictly greater than `key` is the one index
/// with no greater key before it and a greater key at it.
pub proof fn lemma_first_greater_is<K: Increment, V>(s: Seq<Slot<K, V>>, key: K, i: int)
    requires
        sorted(s),
        0 <= i <= s.len(),
        forall|j: int| 0 <= j < i ==> (#[trigger] s[j]).0.rank() <= key.rank(),
        i < s.len() ==> key.rank() < s[i].0.rank(),
    ensures
        first_greater(s, key) == i,
{
    lemma_first_greater(s, key, 0);
    let f = first_greater(s, key);
    if f < i {
        assert(s[f].0.rank() <= key.rank());
    } else if f > i {
        assert(s[i].0.rank() <= key.rank());
    }
}

/// The index of the first key not less than `key` is the one index with
/// smaller keys before it and no smaller key at it.
pub proof fn lemma_lower_bound_is<K: Increment, V>(s: Seq<Slot<K, V>>, key: K, i: int)
    requires
        sorted(s),
        0 <= i <= s.len(),
        forall|j: int| 0 <= j < i ==> (#[trigger] s[j]).0.rank() < key.rank(),
        i < s.len() ==> key.rank() <= s[i].0.rank(),
    ensures
        lower_bound(s, key) == i,
{
    lemma_lower_bound(s, key, 0);
    let f = lower_bound(s, key);
    if f < i {
        assert(s[f].0.rank() < key.rank());
    } else if f > i {
        assert(s[i].0.rank() < key.rank());
    }
}

/// In key order, what is stored under a key is what the one slot with that
/// key holds.
pub proof fn lemma_lookup<K: Increment, V>(s: Seq<Slot<K, V>>, key: K)
    requires
        sorted(s),
    ensures
        lookup(s, key) is Some ==> s.contains(Slot(key, lookup(s, key)->0)),
        forall|x: Slot<K, V>| s.contains(x) && x.0 == key ==> lookup(s, key) == Some(x.1),
{
    lemma_lower_bound(s, key, 0);
    let lb = lower_bound(s, key);
    if has_key(s, key) {
        assert(s[lb] == Slot(key, s[lb].1));
    }
    assert forall|x: Slot<K, V>| s.contains(x) && x.0 == key implies lookup(s, key) == Some(
        x.1,
    ) by {
        let a = choose|a: int| 0 <= a < s.len() && s[a] == x;
        assert(s[a].0.rank() == key.rank());
        if a < lb {
            assert(s[a].0.rank() < key.rank());
        }
        if a > lb {
            assert(s[lb].0.rank() < s[a].0.rank());
        }
        assert(a == lb);
    }
}

/// After a slot is stored, its key gives what it holds, and every other key
/// what it gave.
pub proof fn lemma_stored_lookup<K: Increment, V>(s: Seq<Slot<K, V>>, slot: Slot<K, V>, key: K)
    requires
        sorted(s),
    ensures
        lookup(with_slot(s, slot), key) == (if key == slot.0 {
            Some(slot.1)
        } else {
            lookup(s, key)
        }),
{
    let r = with_slot(s, slot);
    lemma_with_slot(s, slot);
    lemma_lookup(s, key);
    lemma_lookup(r, key);
    if key == slot.0 {
        assert(r.contains(slot));
    } else {
        if lookup(s, key) is Some {
            let x = Slot(key, lookup(s, key)->0);
            assert(s.contains(x));
            assert(r.contains(x));
        }
        if lookup(r, key) is Some {
            let x = Slot(key, lookup(r, key)->0);
            assert(r.contains(x));
            assert(s.contains(x));
        }
    }
}

/// The lower part of a sequence in key order gives for the keys below the
/// upper part what the whole gave, and the upper part for the keys above the
/// lower part.
pub proof fn lemma_parted_lookup<K: Increment, V>(s: Seq<Slot<K, V>>, m: int, key: K)
    requires
        sorted(s),
        0 <= m <= s.len(),
    ensures
        sorted(s.take(m)),
        sorted(s.skip(m)),
        m == s.len() || key.rank() < s[m].0.rank() ==> lookup(s.take(m), key) == lookup(s, key),
        m == 0 || key.rank() > s[m - 1].0.rank() ==> lookup(s.skip(m), key) == lookup(s, key),
{
    let lo = s.take(m);
    let hi = s.skip(m);
    assert forall|i: int, j: int| 0 <= i < j < lo.len() implies (#[trigger] lo[i]).0.rank() < (
    #[trigger] lo[j]).0.rank() by {
        assert(lo[i] == s[i] && lo[j] == s[j]);
    }
    assert forall|i: int, j: int| 0 <= i < j < hi.len() implies (#[trigger] hi[i]).0.rank() < (
    #[trigger] hi[j]).0.rank() by {
        assert(hi[i] == s[i + m] && hi[j] == s[j + m]);
    }
    lemma_lookup(s, key);
    lemma_lookup(lo, key);
    lemma_lookup(hi, key);
    if m == s.len() || key.rank() < s[m].0.rank() {
        if lookup(s, key) is Some {
            let x = Slot(key, lookup(s, key)->0);
            let a = choose|a: int| 0 <= a < s.len() && s[a] == x;
            if a >= m {
                assert(s[m].0.rank() <= s[a].0.rank());
            }
            assert(lo[a] == x);
            assert(lo.contains(x));
        }
        if lookup(lo, key) is Some {
            let x = Slot(key, lookup(lo, key)->0);
            let a = choose|a: int| 0 <= a < lo.len() && lo[a] == x;
            assert(s[a] == x);
            assert(s.contains(x));
        }
    }
    if m == 0 || key.rank() > s[m - 1].0.rank() {
        if lookup(s, key) is Some {
            let x = Slot(key, lookup(s, key)->0);
            let a = choose|a: int| 0 <= a < s.len() && s[a] == x;
            if a < m {
                assert(s[a].0.rank() <= s[m - 1].0.rank());
            }
            assert(hi[a - m] == x);
            assert(hi.contains(x));
        }
        if lookup(hi, key) is Some {
            let x = Slot(key, lookup(hi, key)->0);
            let a = choose|a: int| 0 <= a < hi.len() && hi[a] == x;
            assert(s[a + m] == x);
            assert(s.contains(x));
        }
    }
}

/// Two sequences in key order, the keys of the first below a bound and the
/// keys of the second not below it, are in key order one after the other,
/// and give for a key what the one gives on whose side of the bound the key
/// lies.
pub proof fn lemma_joined_lookup<K: Increment, V>(
    a: Seq<Slot<K, V>>,
    b: Seq<Slot<K, V>>,
    bound: int,
    key: K,
)
    requires
        sorted(a),
        sorted(b),
        forall|i: int| 0 <= i < a.len() ==> (#[trigger] a[i]).0.rank() < bound,
        forall|i: int| 0 <= i < b.len() ==> (#[trigger] b[i]).0.rank() >= bound,
    ensures
        sorted(a + b),
        lookup(a + b, key) == (if key.rank() < bound {
            lookup(a, key)
        } else {
            lookup(b, key)
        }),
{
    let c = a + b;
    assert forall|i: int, j: int| 0 <= i < j < c.len() implies (#[trigger] c[i]).0.rank() < (
    #[trigger] c[j]).0.rank() by {
        if j < a.len() {
            assert(c[i] == a[i] && c[j] == a[j]);
        } else if i >= a.len() {
            assert(c[i] == b[i - a.len()] && c[j] == b[j - a.len()]);
        } else {
            assert(c[i] == a[i] && c[j] == b[j - a.len()]);
        }
    }
    lemma_lookup(a, key);
    lemma_lookup(b, key);
    lemma_lookup(c, key);
    if lookup(c, key) is Some {
        let x = Slot(key, lookup(c, key)->0);
        let i = choose|i: int| 0 <= i < c.len() && c[i] == x;
        if i < a.len() {
            assert(a[i] == x);
            assert(a.contains(x));
        } else {
            assert(b[i - a.len()] == x);
            assert(b.contains(x));
        }
    }
    if lookup(a, key) is Some {
        let x = Slot(key, lookup(a, key)->0);
        let i = choose|i: int| 0 <= i < a.len() && a[i] == x;
        assert(c[i] == x);
        assert(c.contains(x));
    }
    if lookup(b, key) is Some {
        let x = Slot(key, lookup(b, key)->0);
        let i = choose|i: int| 0 <= i < b.len() && b[i] == x;
        assert(c[i + a.len()] == x);
        assert(c.contains(x));
    }
}

} // verus!
