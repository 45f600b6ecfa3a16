//! Laws of the heap list: an iteration yields the tuples of the list in the
//! order in which they were inserted.
//!
//! The pages of a list that insertions have built are chained by their next
//! page ids, with page ids that increase, and each holds a tuple at least.
//! The laws here say that an iteration over such a list yields the tuples of
//! its pages, page after page and slot after slot; and that an insertion
//! keeps such a list and adds its tuple behind the others.

use vstd::prelude::*;
use crate::error::Error;
use crate::page::{zero_page, PageId, NO_PAGE};
use crate::page_cache::Store;
use crate::table::list::{
    collected, scan_limit, spec_insert, spec_next, spec_scan, Inserted, Iter, MAX_SLOTS,
};
use crate::table::node::{
    lemma_decode_appended, lemma_decode_count, lemma_decode_with_next, lemma_zero_page, used,
    NodeView,
};
use crate::table::tuple::{RId, TupleMeta};

verus! {

/// What an iteration yields of a tuple: its meta data, its bytes and its
/// record id.
pub type Item = (TupleMeta, Seq<u8>, RId);

/// The node that page `page` holds.
pub open spec fn node_at(s: Store, page: PageId) -> NodeView {
    NodeView::decode(s.pages[page as int])->0
}

/// Whether page `i` of the pages `ps` is in order: it was allocated and
/// holds a node with a tuple at least, whose next page, if a page follows, is
/// that page, with a greater id.
pub open spec fn page_ok(s: Store, ps: Seq<PageId>, i: int) -> bool {
    &&& 0 <= ps[i] < s.next_id
    &&& NodeView::decode(s.pages[ps[i] as int]) is Some
    &&& node_at(s, ps[i]).entries.len() > 0
    &&& i + 1 < ps.len() ==> node_at(s, ps[i]).next_page_id == ps[i + 1] && ps[i] < ps[i + 1]
}

/// Whether `ps` are the pages of the list from `first` to `last`, and every
/// one of them is in order. A list without a page has none.
pub open spec fn pages_ok(s: Store, first: PageId, last: PageId, ps: Seq<PageId>) -> bool {
    &&& 0 <= s.next_id <= s.pages.len() <= i32::MAX
    &&& if last == NO_PAGE {
        first == NO_PAGE && ps.len() == 0
    } else {
        ps.len() > 0 && ps[0] == first && ps.last() == last
    }
    &&& forall|i: int| 0 <= i < ps.len() ==> #[trigger] page_ok(s, ps, i)
}

/// The tuples of page `page`, by slot.
pub open spec fn page_items(s: Store, page: PageId) -> Seq<Item> {
    Seq::new(
        node_at(s, page).entries.len(),
        |j: int|
            (
                node_at(s, page).entries[j].0,
                node_at(s, page).entries[j].1,
                RId { page_id: page, slot_id: j as u32 },
            ),
    )
}

/// The tuples of the pages `ps` from page `i` on, page after page.
pub open spec fn items_from(s: Store, ps: Seq<PageId>, i: int) -> Seq<Item>
    decreases ps.len() - i,
{
    if i < 0 || i >= ps.len() {
        Seq::empty()
    } else {
        page_items(s, ps[i]) + items_from(s, ps, i + 1)
    }
}

/// The tuples of the pages `ps`, page after page and slot after slot.
pub open spec fn items(s: Store, ps: Seq<PageId>) -> Seq<Item> {
    items_from(s, ps, 0)
}

/// The pages that the list has after an insertion that succeeded: those it
/// had, and the page that was allocated if one was.
pub open spec fn pages_after(
    s: Store,
    last: PageId,
    ps: Seq<PageId>,
    data: Seq<u8>,
) -> Seq<PageId> {
    if last == NO_PAGE || !node_at(s, last).admits(data.len()) {
        ps.push(s.next_id as PageId)
    } else {
        ps
    }
}

/// The page ids of a list increase.
proof fn lemma_increasing(s: Store, first: PageId, last: PageId, ps: Seq<PageId>, a: int, b: int)
    requires
        pages_ok(s, first, last, ps),
        0 <= a < b < ps.len(),
    ensures
        ps[a] < ps[b],
    decreases b - a,
{
    assert(page_ok(s, ps, b - 1));
    if a < b - 1 {
        lemma_increasing(s, first, last, ps, a, b - 1);
    }
}

/// The pages from page `i` on hold no more tuples than pages have room for.
proof fn lemma_items_len(s: Store, first: PageId, last: PageId, ps: Seq<PageId>, i: int)
    requires
        pages_ok(s, first, last, ps),
        0 <= i <= ps.len(),
    ensures
        items_from(s, ps, i).len() <= (ps.len() - i) * MAX_SLOTS,
        ps.len() > 0 ==> ps.len() <= ps.last() + 1,
    decreases ps.len() - i,
{
    if i < ps.len() {
        assert(page_ok(s, ps, i));
        lemma_decode_count(s.pages[ps[i] as int]);
        lemma_items_len(s, first, last, ps, i + 1);
    }
    if ps.len() > 0 {
        lemma_least(s, first, last, ps, ps.len() - 1);
    }
}

/// Page `i` of a list has the id `i` at least.
proof fn lemma_least(s: Store, first: PageId, last: PageId, ps: Seq<PageId>, i: int)
    requires
        pages_ok(s, first, last, ps),
        0 <= i < ps.len(),
    ensures
        ps[i] >= i,
    decreases i,
{
    assert(page_ok(s, ps, i));
    if i > 0 {
        assert(page_ok(s, ps, i - 1));
        lemma_least(s, first, last, ps, i - 1);
    }
}

/// **The walk.** From slot `j` of page `i` on, an iteration with fuel enough
/// yields the tuples that are left of the page, and then those of the pages
/// that follow.
pub proof fn lemma_walk(
    s: Store,
    first: PageId,
    last: PageId,
    ps: Seq<PageId>,
    i: int,
    j: int,
    acc: Seq<Item>,
    fuel: nat,
)
    requires
        pages_ok(s, first, last, ps),
        0 <= i < ps.len(),
        0 <= j <= node_at(s, ps[i]).entries.len(),
        j < node_at(s, ps[i]).entries.len() || i == ps.len() - 1,
        fuel > node_at(s, ps[i]).entries.len() - j + items_from(s, ps, i + 1).len(),
    ensures
        collected(
            s,
            first,
            last,
            Iter {
                r_id: RId { page_id: ps[i], slot_id: j as u32 },
                end: RId { page_id: last, slot_id: node_at(s, last).entries.len() as u32 },
            },
            acc,
            fuel,
        ) == Ok::<Seq<Item>, Error>(acc + page_items(s, ps[i]).skip(j) + items_from(s, ps, i + 1)),
    decreases fuel,
{
    let n = ps.len() as int;
    let node = node_at(s, ps[i]);
    let len = node.entries.len() as int;
    let it = Iter {
        r_id: RId { page_id: ps[i], slot_id: j as u32 },
        end: RId { page_id: last, slot_id: node_at(s, last).entries.len() as u32 },
    };
    assert(page_ok(s, ps, i));
    assert(page_ok(s, ps, n - 1));
    assert(page_ok(s, ps, 0));
    lemma_decode_count(s.pages[ps[i] as int]);
    lemma_decode_count(s.pages[last as int]);
    if i < n - 1 {
        lemma_increasing(s, first, last, ps, i, n - 1);
    }
    let rest = items_from(s, ps, i + 1);
    if it.end == it.r_id {
        assert(i == n - 1 && j == len);
        assert(acc + page_items(s, ps[i]).skip(j) + rest =~= acc);
    } else {
        assert(j < len);
        let entry = node.entries[j];
        let item = (entry.0, entry.1, it.r_id);
        let step = spec_next(s, first, last, it);
        assert(step.item == Some(Ok::<(TupleMeta, Seq<u8>), Error>(entry)));
        assert(page_items(s, ps[i])[j] == item);
        if j + 1 < len || i == n - 1 {
            assert(step.iter == Iter { r_id: RId { page_id: ps[i], slot_id: (j + 1) as u32 }, ..it });
            lemma_walk(s, first, last, ps, i, j + 1, acc.push(item), (fuel - 1) as nat);
            assert(acc.push(item) + page_items(s, ps[i]).skip(j + 1) + rest =~= acc + page_items(
                s,
                ps[i],
            ).skip(j) + rest);
        } else {
            assert(page_ok(s, ps, i + 1));
            assert(step.iter == Iter { r_id: RId { page_id: ps[i + 1], slot_id: 0 }, ..it });
            let after = items_from(s, ps, i + 2);
            assert(rest == page_items(s, ps[i + 1]) + after);
            lemma_walk(s, first, last, ps, i + 1, 0, acc.push(item), (fuel - 1) as nat);
            assert(acc.push(item) + page_items(s, ps[i + 1]).skip(0) + after =~= acc + page_items(
                s,
                ps[i],
            ).skip(j) + rest);
        }
    }
}

/// **Iteration.** An iteration over a list yields the tuples of its pages,
/// page after page and slot after slot.
pub proof fn lemma_scan(s: Store, first: PageId, last: PageId, ps: Seq<PageId>)
    requires
        pages_ok(s, first, last, ps),
    ensures
        spec_scan(s, first, last) == Ok::<Seq<Item>, Error>(items(s, ps)),
{
    if last == NO_PAGE {
        assert(items(s, ps) =~= Seq::<Item>::empty());
    } else {
        let n = ps.len() as int;
        assert(page_ok(s, ps, n - 1));
        assert(page_ok(s, ps, 0));
        lemma_items_len(s, first, last, ps, 0);
        assert(n * MAX_SLOTS <= s.pages.len() * MAX_SLOTS) by (nonlinear_arith)
            requires
                n <= s.pages.len(),
        ;
        let empty = Seq::<Item>::empty();
        lemma_walk(s, first, last, ps, 0, 0, empty, scan_limit(s));
        assert(empty + page_items(s, ps[0]).skip(0) + items_from(s, ps, 1) =~= items(s, ps));
    }
}

/// The tuples of the pages from page `i` on where the last page has one
/// more tuple and the others are as they were.
proof fn lemma_last_grown(s: Store, s2: Store, ps: Seq<PageId>, i: int, item: Item)
    requires
        0 <= i < ps.len(),
        forall|k: int| i <= k < ps.len() - 1 ==> page_items(s2, #[trigger] ps[k]) == page_items(s, ps[k]),
        page_items(s2, ps.last()) == page_items(s, ps.last()).push(item),
    ensures
        items_from(s2, ps, i) == items_from(s, ps, i).push(item),
    decreases ps.len() - i,
{
    if i < ps.len() - 1 {
        lemma_last_grown(s, s2, ps, i + 1, item);
        assert(page_items(s2, ps[i]) == page_items(s, ps[i]));
        assert(page_items(s, ps[i]) + items_from(s, ps, i + 1).push(item) =~= (page_items(s, ps[i])
            + items_from(s, ps, i + 1)).push(item));
    } else {
        assert(items_from(s, ps, i + 1) =~= Seq::<Item>::empty());
        assert(items_from(s2, ps, i + 1) =~= Seq::<Item>::empty());
        assert(page_items(s, ps[i]).push(item) + Seq::<Item>::empty() =~= (page_items(s, ps[i])
            + Seq::<Item>::empty()).push(item));
    }
}

/// The tuples of the pages from page `i` on where a page follows the last
/// and the others are as they were.
proof fn lemma_page_added(s: Store, s2: Store, ps: Seq<PageId>, i: int, page: PageId)
    requires
        0 <= i <= ps.len(),
        forall|k: int| i <= k < ps.len() ==> page_items(s2, #[trigger] ps[k]) == page_items(s, ps[k]),
    ensures
        items_from(s2, ps.push(page), i) == items_from(s, ps, i) + page_items(s2, page),
    decreases ps.len() - i,
{
    let ps2 = ps.push(page);
    if i < ps.len() {
        lemma_page_added(s, s2, ps, i + 1, page);
        assert(ps2[i] == ps[i]);
        assert(page_items(s2, ps[i]) == page_items(s, ps[i]));
        assert(page_items(s, ps[i]) + (items_from(s, ps, i + 1) + page_items(s2, page)) =~= (
        page_items(s, ps[i]) + items_from(s, ps, i + 1)) + page_items(s2, page));
    } else {
        assert(ps2[i] == page);
        assert(items_from(s2, ps2, i + 1) =~= Seq::<Item>::empty());
        assert(page_items(s2, page) + Seq::<Item>::empty() =~= Seq::<Item>::empty() + page_items(
            s2,
            page,
        ));
    }
}

/// **Insertion order.** An insertion into a list that succeeds leaves a
/// list whose pages are in order, and an iteration over it yields what it
/// yielded before, and then the inserted tuple under its record id. So an
/// iteration over a list that insertions have built from a list without a
/// page yields the inserted tuples in the order of their insertion.
pub proof fn lemma_insert_then_scan(
    s: Store,
    first: PageId,
    last: PageId,
    ps: Seq<PageId>,
    data: Seq<u8>,
    meta: TupleMeta,
)
    requires
        pages_ok(s, first, last, ps),
        spec_insert(s, first, last, data, meta).result is Ok,
    ensures
        ({
            let r = spec_insert(s, first, last, data, meta);
            &&& r.result->Ok_0 is Some
            &&& pages_ok(r.store, r.first, r.last, pages_after(s, last, ps, data))
            &&& spec_scan(s, first, last) == Ok::<Seq<Item>, Error>(items(s, ps))
            &&& spec_scan(r.store, r.first, r.last) == Ok::<Seq<Item>, Error>(
                items(s, ps).push((meta, data, r.result->Ok_0->0)),
            )
        }),
{
    let r = spec_insert(s, first, last, data, meta);
    let ps2 = pages_after(s, last, ps, data);
    lemma_scan(s, first, last, ps);
    lemma_zero_page();
    assert(used(Seq::<(TupleMeta, Seq<u8>)>::empty(), 0) == 0);
    let page = s.next_id as PageId;
    if last == NO_PAGE {
        let s1 = s.allocated();
        lemma_decode_appended(zero_page(), meta, data);
        let item = (meta, data, RId { page_id: page, slot_id: 0 });
        assert(node_at(r.store, page).entries =~= seq![(meta, data)]);
        assert(page_ok(r.store, ps2, 0));
        assert(page_items(r.store, page) =~= seq![item]);
        assert(items_from(r.store, ps2, 1) =~= Seq::<Item>::empty());
        assert(items(r.store, ps2) =~= items(s, ps).push(item));
    } else {
        let n = ps.len() as int;
        assert(page_ok(s, ps, n - 1));
        let bytes = s.pages[last as int];
        let node = node_at(s, last);
        lemma_decode_count(bytes);
        assert forall|k: int| 0 <= k < n - 1 implies ps[k] != last && ps[k] < s.next_id by {
            lemma_increasing(s, first, last, ps, k, n - 1);
        }
        if node.admits(data.len()) {
            lemma_decode_appended(bytes, meta, data);
            let item = (meta, data, RId { page_id: last, slot_id: node.entries.len() as u32 });
            assert(page_items(r.store, last) =~= page_items(s, last).push(item));
            assert forall|k: int| 0 <= k < n implies #[trigger] page_ok(r.store, ps2, k) by {
                assert(page_ok(s, ps, k));
            }
            assert forall|k: int| 0 <= k < n - 1 implies page_items(r.store, #[trigger] ps[k])
                == page_items(s, ps[k]) by {
                assert(page_ok(s, ps, k));
                lemma_increasing(s, first, last, ps, k, n - 1);
                assert(r.store.pages[ps[k] as int] == s.pages[ps[k] as int]);
            }
            lemma_last_grown(s, r.store, ps, 0, item);
        } else {
            lemma_decode_with_next(bytes, page);
            lemma_decode_appended(zero_page(), meta, data);
            let item = (meta, data, RId { page_id: page, slot_id: 0 });
            assert(node_at(r.store, page).entries =~= seq![(meta, data)]);
            assert(page_items(r.store, page) =~= seq![item]);
            assert forall|k: int| 0 <= k < n + 1 implies #[trigger] page_ok(r.store, ps2, k) by {
                if k < n {
                    assert(page_ok(s, ps, k));
                    if k < n - 1 {
                        assert(r.store.pages[ps[k] as int] == s.pages[ps[k] as int]);
                    }
                }
            }
            assert forall|k: int| 0 <= k < n implies page_items(r.store, #[trigger] ps[k])
                == page_items(s, ps[k]) by {
                assert(page_ok(s, ps, k));
                if k < n - 1 {
                    assert(r.store.pages[ps[k] as int] == s.pages[ps[k] as int]);
                } else {
                    assert(page_items(r.store, last) =~= page_items(s, last));
                }
            }
            lemma_page_added(s, r.store, ps, 0, page);
            assert(items(s, ps) + seq![item] =~= items(s, ps).push(item));
        }
    }
    lemma_scan(r.store, r.first, r.last, ps2);
}

/// What a run of insertions into a list without a page leaves behind, one
/// tuple after the other; the run ends with the first insertion that fails.
pub open spec fn insert_all(s: Store, tuples: Seq<(TupleMeta, Seq<u8>)>) -> Inserted
    decreases tuples.len(),
{
    if tuples.len() == 0 {
        Inserted { store: s, first: NO_PAGE, last: NO_PAGE, result: Ok(None) }
    } else {
        let before = insert_all(s, tuples.drop_last());
        if before.result is Err {
            before
        } else {
            spec_insert(before.store, before.first, before.last, tuples.last().1, tuples.last().0)
        }
    }
}

/// The pages of the list after a run of insertions.
pub open spec fn pages_all(s: Store, tuples: Seq<(TupleMeta, Seq<u8>)>) -> Seq<PageId>
    decreases tuples.len(),
{
    if tuples.len() == 0 {
        Seq::empty()
    } else {
        let before = insert_all(s, tuples.drop_last());
        pages_after(before.store, before.last, pages_all(s, tuples.drop_last()), tuples.last().1)
    }
}

/// What an iteration has yielded, without the record ids.
pub open spec fn plain(items: Seq<Item>) -> Seq<(TupleMeta, Seq<u8>)> {
    Seq::new(items.len(), |i: int| (items[i].0, items[i].1))
}

/// **A list built by insertions.** After a run of insertions into a list
/// without a page, all of which succeeded, an iteration yields the inserted
/// tuples, each with its meta data, in the order of their insertion.
pub proof fn lemma_built(s: Store, tuples: Seq<(TupleMeta, Seq<u8>)>)
    requires
        0 <= s.next_id <= s.pages.len() <= i32::MAX,
        insert_all(s, tuples).result is Ok,
    ensures
        ({
            let r = insert_all(s, tuples);
            &&& pages_ok(r.store, r.first, r.last, pages_all(s, tuples))
            &&& spec_scan(r.store, r.first, r.last) is Ok
            &&& plain(spec_scan(r.store, r.first, r.last)->Ok_0) == tuples
        }),
    decreases tuples.len(),
{
    let r = insert_all(s, tuples);
    if tuples.len() == 0 {
        let none = Seq::<PageId>::empty();
        lemma_scan(s, NO_PAGE, NO_PAGE, none);
        assert(items(s, none) =~= Seq::<Item>::empty());
        assert(plain(Seq::<Item>::empty()) =~= tuples);
    } else {
        let before = insert_all(s, tuples.drop_last());
        let ps = pages_all(s, tuples.drop_last());
        lemma_built(s, tuples.drop_last());
        let (meta, data) = tuples.last();
        lemma_insert_then_scan(before.store, before.first, before.last, ps, data, meta);
        let was = items(before.store, ps);
        let item = (meta, data, r.result->Ok_0->0);
        assert(plain(was.push(item)) =~= plain(was).push((meta, data)));
        assert(tuples.drop_last().push(tuples.last()) =~= tuples);
    }
}

} // verus!
