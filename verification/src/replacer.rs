//! The LRU-K replacement policy: which unpinned page to evict.
//!
//! Each registered page has the timestamps of its last accesses, at most K
//! of them, and a flag that says whether it may be evicted. The victim is the
//! evictable page with fewer than K accesses whose first recorded access is
//! oldest; if every evictable page has K accesses, the one whose K-th most
//! recent access is oldest.

use vstd::prelude::*;
use crate::page::PageId;

verus! {

/// What the replacer keeps of one page.
pub struct Entry {
    id: PageId,
    history: Vec<u64>,
    evictable: bool,
}

/// The LRU-K replacer.
pub struct LruK {
    k: usize,
    clock: u64,
    entries: Vec<Entry>,
}

/// What the replacer knows of one page: its recorded accesses, oldest first,
/// and whether it may be evicted.
pub struct Access {
    pub history: Seq<u64>,
    pub evictable: bool,
}

/// Whether a page with access history `a` is evicted before one with history
/// `b`, where a full history has `k` timestamps.
pub open spec fn precedes(a: Seq<u64>, b: Seq<u64>, k: nat) -> bool {
    if a.len() < k && b.len() >= k {
        true
    } else if a.len() >= k && b.len() < k {
        false
    } else {
        a[0] < b[0]
    }
}

/// The history `h` after one more access at time `now`, kept to `k` entries.
pub open spec fn touched(h: Seq<u64>, now: u64, k: nat) -> Seq<u64> {
    if h.len() < k {
        h.push(now)
    } else {
        h.skip(1).push(now)
    }
}

/// The timestamp that follows `now`; the clock stops at the greatest.
pub open spec fn tick(now: u64) -> u64 {
    if now < u64::MAX {
        (now + 1) as u64
    } else {
        now
    }
}

/// What is known of the pages `m` once page `id` was accessed at time `now`,
/// with histories of depth `k`, and may be evicted or not as `evictable`
/// says.
pub open spec fn noted(m: Map<PageId, Access>, id: PageId, now: u64, k: nat, evictable: bool)
    -> Map<PageId, Access> {
    m.insert(
        id,
        Access {
            history: if m.contains_key(id) {
                touched(m[id].history, now, k)
            } else {
                seq![now]
            },
            evictable,
        },
    )
}

/// Whether `id` is the page to evict among `m`: it may be evicted, and no page
/// that may be evicted comes before it.
pub open spec fn is_victim(m: Map<PageId, Access>, k: nat, id: PageId) -> bool {
    &&& m.contains_key(id)
    &&& m[id].evictable
    &&& forall|other: PageId|
        #[trigger] m.contains_key(other) && m[other].evictable ==> !precedes(
            m[other].history,
            m[id].history,
            k,
        )
}

/// The pages among `m` that may be evicted.
pub open spec fn evictable_set(m: Map<PageId, Access>) -> Set<PageId> {
    Set::new(|id: PageId| m.contains_key(id) && m[id].evictable)
}

impl Entry {
    spec fn view(&self) -> Access {
        Access { history: self.history@, evictable: self.evictable }
    }
}

impl LruK {
    /// The depth K of the access histories.
    pub closed spec fn k(&self) -> nat {
        self.k as nat
    }

    /// The timestamp that the next access will get.
    pub closed spec fn clock(&self) -> u64 {
        self.clock
    }

    spec fn has(&self, id: PageId, i: int) -> bool {
        0 <= i < self.entries@.len() && self.entries@[i].id == id
    }

    /// The registered pages and what is known of each.
    pub closed spec fn view(&self) -> Map<PageId, Access> {
        Map::new(
            |id: PageId| exists|i: int| self.has(id, i),
            |id: PageId| self.entries@[choose|i: int| self.has(id, i)]@,
        )
    }

    /// The replacer's invariant: K is positive, no page is registered twice,
    /// and every history has between one and K timestamps.
    pub closed spec fn wf(&self) -> bool {
        &&& self.k >= 1
        &&& forall|i: int, j: int|
            0 <= i < j < self.entries@.len() ==> (#[trigger] self.entries@[i]).id != (
            #[trigger] self.entries@[j]).id
        &&& forall|i: int|
            0 <= i < self.entries@.len() ==> 1 <= (#[trigger] self.entries@[i]).history@.len()
                <= self.k
    }

    /// The depth of a replacer is positive.
    pub proof fn lemma_depth(&self)
        requires
            self.wf(),
        ensures
            self.k() >= 1,
    {
    }

    proof fn lemma_view(&self)
        requires
            self.wf(),
        ensures
            forall|i: int|
                0 <= i < self.entries@.len() ==> self@.contains_key(
                    (#[trigger] self.entries@[i]).id,
                ) && self@[self.entries@[i].id] == self.entries@[i]@,
            forall|id: PageId| #[trigger]
                self@.contains_key(id) ==> exists|i: int| self.has(id, i),
    {
        assert forall|i: int| 0 <= i < self.entries@.len() implies self@.contains_key(
            (#[trigger] self.entries@[i]).id,
        ) && self@[self.entries@[i].id] == self.entries@[i]@ by {
            let id = self.entries@[i].id;
            assert(self.has(id, i));
            let j = choose|j: int| self.has(id, j);
            assert(self.has(id, j));
            assert(i == j);
        }
    }

    /// Two replacers that keep the same entries know the same of every page.
    proof fn lemma_same_view(&self, other: &LruK)
        requires
            self.wf(),
            self.k == other.k,
            self.entries@ == other.entries@,
        ensures
            other.wf(),
            self@ == other@,
    {
        self.lemma_view();
        other.lemma_view();
        assert forall|p: PageId| self@.contains_key(p) == other@.contains_key(p) by {
            if self@.contains_key(p) {
                let a = choose|a: int| self.has(p, a);
                assert(other.has(p, a));
            }
            if other@.contains_key(p) {
                let a = choose|a: int| other.has(p, a);
                assert(self.has(p, a));
            }
        }
        assert forall|p: PageId| self@.contains_key(p) implies self@[p] == other@[p] by {
            let a = choose|a: int| self.has(p, a);
            assert(self.has(p, a));
            assert(other.has(p, a));
        }
        assert(self@ =~= other@);
    }

    /// Storing an entry under its id, in place of the one kept for that id or
    /// as a new one, maps the id to that entry and changes nothing else.
    proof fn lemma_stored(&self, before: &LruK, i: int, e: Entry)
        requires
            before.wf(),
            self.k == before.k,
            1 <= e.history@.len() <= self.k,
            0 <= i <= before.entries@.len(),
            i < before.entries@.len() ==> before.entries@[i].id == e.id && self.entries@
                == before.entries@.update(i, e),
            i == before.entries@.len() ==> !before@.contains_key(e.id) && self.entries@
                == before.entries@.push(e),
        ensures
            self.wf(),
            self@ == before@.insert(e.id, e@),
    {
        before.lemma_view();
        assert forall|a: int| 0 <= a < before.entries@.len() && a != i implies (
        #[trigger] self.entries@[a]) == before.entries@[a] by {}
        assert(self.entries@[i] == e);
        assert(self.wf());
        self.lemma_view();
        let expected = before@.insert(e.id, e@);
        assert forall|p: PageId| self@.contains_key(p) == expected.contains_key(p) by {
            if p == e.id {
                assert(self.has(p, i));
            } else {
                if self@.contains_key(p) {
                    let a = choose|a: int| self.has(p, a);
                    assert(before.has(p, a));
                }
                if expected.contains_key(p) {
                    let a = choose|a: int| before.has(p, a);
                    assert(self.has(p, a));
                }
            }
        }
        assert forall|p: PageId| self@.contains_key(p) implies self@[p] == expected[p] by {
            let a = choose|a: int| self.has(p, a);
            assert(self.has(p, a));
            if p != e.id {
                assert(before.has(p, a));
            }
        }
        assert(self@ =~= expected);
    }

    /// A replacer with histories of depth `k` (at least 1) and no page
    /// registered.
    pub fn new(k: usize) -> (r: LruK)
        ensures
            r.wf(),
            r.k() == (if k == 0 {
                1
            } else {
                k as nat
            }),
            r@ == Map::<PageId, Access>::empty(),
            r.clock() == 0,
    {
        let r = LruK { k: if k == 0 { 1 } else { k }, clock: 0, entries: Vec::new() };
        assert(r@ =~= Map::<PageId, Access>::empty());
        r
    }

    /// The depth K of the access histories.
    pub fn depth(&self) -> (k: usize)
        ensures
            k == self.k(),
    {
        self.k
    }

    fn find(&self, id: PageId) -> (r: Option<usize>)
        requires
            self.wf(),
        ensures
            r is Some <==> self@.contains_key(id),
            r is Some ==> self.has(id, r->0 as int),
    {
        proof {
            self.lemma_view();
        }
        let mut i: usize = 0;
        while i < self.entries.len()
            invariant
                i <= self.entries@.len(),
                forall|j: int| 0 <= j < i ==> !self.has(id, j),
            decreases self.entries@.len() - i,
        {
            if self.entries[i].id == id {
                assert(self.has(id, i as int));
                return Some(i);
            }
            i = i + 1;
        }
        None
    }

    /// Records an access to `id` at the current time and advances the clock
    /// (which stops at its greatest value). A page not seen before is
    /// registered as not evictable. Of a full history the oldest timestamp is
    /// dropped.
    pub fn record_access(&mut self, id: PageId)
        requires
            old(self).wf(),
        ensures
            final(self).wf(),
            final(self).k() == old(self).k(),
            final(self)@ == old(self)@.insert(
                id,
                if old(self)@.contains_key(id) {
                    Access {
                        history: touched(old(self)@[id].history, old(self).clock(), old(self).k()),
                        evictable: old(self)@[id].evictable,
                    }
                } else {
                    Access { history: seq![old(self).clock()], evictable: false }
                },
            ),
            final(self).clock() == (if old(self).clock() < u64::MAX {
                (old(self).clock() + 1) as u64
            } else {
                old(self).clock()
            }),
    {
        let now = self.clock;
        if self.clock < u64::MAX {
            self.clock = self.clock + 1;
        }
        let ghost mid = *self;
        proof {
            old(self).lemma_same_view(&mid);
        }
        match self.find(id) {
            Some(i) => {
                let mut history: Vec<u64> = Vec::new();
                let entry = &self.entries[i];
                let evictable = entry.evictable;
                let start: usize = if entry.history.len() < self.k {
                    0
                } else {
                    1
                };
                let mut j: usize = start;
                while j < entry.history.len()
                    invariant
                        start <= j <= entry.history@.len(),
                        history@ == entry.history@.subrange(start as int, j as int),
                    decreases entry.history@.len() - j,
                {
                    history.push(entry.history[j]);
                    assert(history@ =~= entry.history@.subrange(start as int, j + 1));
                    j = j + 1;
                }
                history.push(now);
                proof {
                    assert(entry.history@.subrange(0, entry.history@.len() as int)
                        =~= entry.history@);
                    assert(entry.history@.subrange(1, entry.history@.len() as int)
                        =~= entry.history@.skip(1));
                }
                let e = Entry { id, history, evictable };
                let ghost ge = e;
                self.entries.set(i, e);
                proof {
                    self.lemma_stored(&mid, i as int, ge);
                }
            },
            None => {
                let mut history: Vec<u64> = Vec::new();
                history.push(now);
                let e = Entry { id, history, evictable: false };
                let ghost ge = e;
                self.entries.push(e);
                proof {
                    self.lemma_stored(&mid, mid.entries@.len() as int, ge);
                }
            },
        }
    }

    /// Says whether `id` may be evicted. A page that is not registered stays
    /// unknown.
    pub fn set_evictable(&mut self, id: PageId, flag: bool)
        requires
            old(self).wf(),
        ensures
            final(self).wf(),
            final(self).k() == old(self).k(),
            final(self).clock() == old(self).clock(),
            final(self)@ == (if old(self)@.contains_key(id) {
                old(self)@.insert(
                    id,
                    Access { history: old(self)@[id].history, evictable: flag },
                )
            } else {
                old(self)@
            }),
    {
        proof {
            old(self).lemma_view();
        }
        match self.find(id) {
            Some(i) => {
                let mut history: Vec<u64> = Vec::new();
                let entry = &self.entries[i];
                let mut j: usize = 0;
                while j < entry.history.len()
                    invariant
                        j <= entry.history@.len(),
                        history@ == entry.history@.subrange(0, j as int),
                    decreases entry.history@.len() - j,
                {
                    history.push(entry.history[j]);
                    assert(history@ =~= entry.history@.subrange(0, j + 1));
                    j = j + 1;
                }
                proof {
                    assert(entry.history@.subrange(0, entry.history@.len() as int)
                        =~= entry.history@);
                }
                let e = Entry { id, history, evictable: flag };
                let ghost ge = e;
                self.entries.set(i, e);
                proof {
                    self.lemma_stored(old(self), i as int, ge);
                }
            },
            None => {},
        }
    }

    /// Forgets `id`.
    pub fn remove(&mut self, id: PageId)
        requires
            old(self).wf(),
        ensures
            final(self).wf(),
            final(self).k() == old(self).k(),
            final(self).clock() == old(self).clock(),
            final(self)@ == old(self)@.remove(id),
    {
        proof {
            old(self).lemma_view();
        }
        match self.find(id) {
            Some(i) => {
                self.entries.remove(i);
                proof {
                    assert forall|a: int| 0 <= a < self.entries@.len() implies (
                    #[trigger] self.entries@[a]) == old(self).entries@[if a < i {
                        a
                    } else {
                        a + 1
                    }] by {}
                    assert(self.wf());
                    self.lemma_view();
                    let expected = old(self)@.remove(id);
                    assert forall|p: PageId| self@.contains_key(p) == expected.contains_key(
                        p,
                    ) by {
                        if self@.contains_key(p) {
                            let a = choose|a: int| self.has(p, a);
                            let b = if a < i { a } else { a + 1 };
                            assert(old(self).has(p, b));
                        }
                        if expected.contains_key(p) {
                            let b = choose|b: int| old(self).has(p, b);
                            let a = if b < i { b } else { b - 1 };
                            assert(self.has(p, a));
                        }
                    }
                    assert forall|p: PageId| self@.contains_key(p) implies self@[p]
                        == expected[p] by {
                        let a = choose|a: int| self.has(p, a);
                        let b = if a < i { a } else { a + 1 };
                        assert(self.has(p, a));
                        assert(old(self).has(p, b));
                    }
                    assert(self@ =~= expected);
                }
            },
            None => {
                assert(self@ =~= old(self)@.remove(id));
            },
        }
    }

    /// The page to evict, if any page may be evicted.
    pub fn victim(&self) -> (r: Option<PageId>)
        requires
            self.wf(),
        ensures
            r is None <==> forall|id: PageId| #[trigger]
                self@.contains_key(id) ==> !self@[id].evictable,
            r is Some ==> is_victim(self@, self.k(), r->0),
    {
        proof {
            self.lemma_view();
        }
        let mut best: Option<usize> = None;
        let mut i: usize = 0;
        while i < self.entries.len()
            invariant
                i <= self.entries@.len(),
                self.wf(),
                best is None ==> forall|j: int|
                    0 <= j < i ==> !(#[trigger] self.entries@[j]).evictable,
                best is Some ==> best->0 < i && self.entries@[best->0 as int].evictable
                    && forall|j: int|
                    0 <= j < i && (#[trigger] self.entries@[j]).evictable ==> !precedes(
                        self.entries@[j].history@,
                        self.entries@[best->0 as int].history@,
                        self.k as nat,
                    ),
            decreases self.entries@.len() - i,
        {
            let e = &self.entries[i];
            if e.evictable {
                match best {
                    None => {
                        best = Some(i);
                    },
                    Some(b) => {
                        let cur = &self.entries[b];
                        let e_short = e.history.len() < self.k;
                        let cur_short = cur.history.len() < self.k;
                        let better = if e_short && !cur_short {
                            true
                        } else if !e_short && cur_short {
                            false
                        } else {
                            e.history[0] < cur.history[0]
                        };
                        if better {
                            best = Some(i);
                        }
                    },
                }
            }
            i = i + 1;
        }
        match best {
            None => {
                proof {
                    assert forall|id: PageId| #[trigger] self@.contains_key(id) implies !self@[id].evictable by {
                        let a = choose|a: int| self.has(id, a);
                        assert(self.has(id, a));
                    }
                }
                None
            },
            Some(b) => {
                let id = self.entries[b].id;
                proof {
                    assert(self.has(id, b as int));
                    assert forall|other: PageId| #[trigger]
                        self@.contains_key(other) && self@[other].evictable implies !precedes(
                        self@[other].history,
                        self@[id].history,
                        self.k(),
                    ) by {
                        let a = choose|a: int| self.has(other, a);
                        assert(self.has(other, a));
                    }
                }
                Some(id)
            },
        }
    }

    /// Number of pages that may be evicted.
    pub fn size(&self) -> (n: usize)
        requires
            self.wf(),
        ensures
            evictable_set(self@).finite(),
            n == evictable_set(self@).len(),
    {
        proof {
            self.lemma_view();
        }
        let mut n: usize = 0;
        let mut i: usize = 0;
        let ghost mut seen: Set<PageId> = Set::empty();
        while i < self.entries.len()
            invariant
                i <= self.entries@.len(),
                self.wf(),
                n <= i,
                seen.finite(),
                seen.len() == n,
                forall|id: PageId|
                    seen.contains(id) <==> exists|j: int|
                        0 <= j < i && self.has(id, j) && self.entries@[j].evictable,
            decreases self.entries@.len() - i,
        {
            if self.entries[i].evictable {
                proof {
                    let id = self.entries@[i as int].id;
                    assert(self.has(id, i as int));
                    if seen.contains(id) {
                        let j = choose|j: int|
                            0 <= j < i && self.has(id, j) && self.entries@[j].evictable;
                        assert(self.entries@[j].id == self.entries@[i as int].id);
                        assert(false);
                    }
                    let grown = seen.insert(id);
                    assert forall|p: PageId|
                        grown.contains(p) <==> exists|j: int|
                            0 <= j < i + 1 && self.has(p, j) && self.entries@[j].evictable by {
                        if grown.contains(p) && p != id {
                            let j = choose|j: int|
                                0 <= j < i && self.has(p, j) && self.entries@[j].evictable;
                            assert(0 <= j < i + 1 && self.has(p, j) && self.entries@[j].evictable);
                        }
                        if p == id {
                            assert(self.has(p, i as int) && self.entries@[i as int].evictable);
                        }
                        if exists|j: int|
                            0 <= j < i + 1 && self.has(p, j) && self.entries@[j].evictable {
                            let j = choose|j: int|
                                0 <= j < i + 1 && self.has(p, j) && self.entries@[j].evictable;
                            if j < i {
                                assert(seen.contains(p));
                            }
                        }
                    }
                    seen = grown;
                }
                n = n + 1;
            } else {
                proof {
                    assert forall|p: PageId|
                        seen.contains(p) <==> exists|j: int|
                            0 <= j < i + 1 && self.has(p, j) && self.entries@[j].evictable by {
                        if seen.contains(p) {
                            let j = choose|j: int|
                                0 <= j < i && self.has(p, j) && self.entries@[j].evictable;
                            assert(0 <= j < i + 1 && self.has(p, j) && self.entries@[j].evictable);
                        }
                        if exists|j: int|
                            0 <= j < i + 1 && self.has(p, j) && self.entries@[j].evictable {
                            let j = choose|j: int|
                                0 <= j < i + 1 && self.has(p, j) && self.entries@[j].evictable;
                            assert(j < i);
                        }
                    }
                }
            }
            i = i + 1;
        }
        proof {
            assert forall|p: PageId| seen.contains(p) == evictable_set(self@).contains(p) by {
                if seen.contains(p) {
                    let j = choose|j: int|
                        0 <= j < i && self.has(p, j) && self.entries@[j].evictable;
                    assert(self.entries@[j].id == p);
                }
                if evictable_set(self@).contains(p) {
                    let j = choose|j: int| self.has(p, j);
                    assert(self.has(p, j));
                    assert(self@[p] == self.entries@[j]@);
                }
            }
            assert(seen =~= evictable_set(self@));
        }
        n
    }

    /// Whether any page may be evicted.
    pub fn has_victim(&self) -> (b: bool)
        requires
            self.wf(),
        ensures
            b <==> exists|id: PageId| #[trigger] self@.contains_key(id) && self@[id].evictable,
    {
        let v = self.victim();
        v.is_some()
    }
}

} // verus!
