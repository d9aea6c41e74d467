//! The form in which a directory comes back from the store: without its
//! hidden entries, and in the order of a listing, at every level.

use crate::listing::{insert_entry, lemma_sort_canonical, sort_listing};
use crate::names::{hidden_name, name_lt, valid_name};
use crate::objects::{canonical_listing, entry_lt, tree_id, EntryData};
use crate::store::StoreData;
use crate::worktree::{
    entry_node, items_wf, lemma_stored_grows, lemma_stored_upto_grows, stored, stored_upto, tree_items,
    ItemData, NodeData,
};
use vstd::prelude::*;

verus! {

/// The first item comes strictly before the second in a listing.
pub open spec fn item_lt(a: ItemData, b: ItemData) -> bool {
    name_lt(a.name, a.node is Dir, b.name, b.node is Dir)
}

/// Items in order, with one more put in its place.
pub open spec fn insert_item(s: Seq<ItemData>, x: ItemData) -> Seq<ItemData>
    decreases s.len(),
{
    if s.len() == 0 {
        seq![x]
    } else if item_lt(s.last(), x) {
        s.push(x)
    } else {
        insert_item(s.drop_last(), x).push(s.last())
    }
}

/// The items, put in order one after the other.
pub open spec fn sort_items(s: Seq<ItemData>) -> Seq<ItemData>
    decreases s.len(),
{
    if s.len() == 0 {
        s
    } else {
        insert_item(sort_items(s.drop_last()), s.last())
    }
}

/// A node as the store keeps it: a file as it is, a directory without its
/// hidden entries and in order, its nodes kept likewise.
pub open spec fn kept_node(node: NodeData) -> NodeData
    decreases node, 0nat,
{
    match node {
        NodeData::File(data) => NodeData::File(data),
        NodeData::Dir(items) => NodeData::Dir(sort_items(kept_upto(items, items.len()))),
    }
}

/// The visible ones among the first `n` items of a directory, each as the
/// store keeps it, in the items' order.
pub open spec fn kept_upto(items: Seq<ItemData>, n: nat) -> Seq<ItemData>
    decreases items, n,
{
    if n == 0 || n > items.len() {
        Seq::empty()
    } else {
        let item = items[n - 1];
        let rest = kept_upto(items, (n - 1) as nat);
        if hidden_name(item.name) {
            rest
        } else {
            rest.push(ItemData { name: item.name, node: kept_node(item.node) })
        }
    }
}

/// The visible content of a directory as the store keeps it.
pub open spec fn kept(items: Seq<ItemData>) -> Seq<ItemData> {
    sort_items(kept_upto(items, items.len()))
}

/// Putting an item in its place adds the item and loses none.
#[verifier::rlimit(30)]
pub proof fn lemma_insert_item(s: Seq<ItemData>, x: ItemData)
    ensures
        insert_item(s, x).len() == s.len() + 1,
        insert_item(s, x).contains(x),
        forall|i: int| 0 <= i < s.len() ==> insert_item(s, x).contains(#[trigger] s[i]),
        forall|k: int|
            0 <= k < insert_item(s, x).len() ==> (#[trigger] insert_item(s, x)[k]) == x || s.contains(
                insert_item(s, x)[k],
            ),
    decreases s.len(),
{
    let r = insert_item(s, x);
    if s.len() == 0 {
        assert(r[0] == x);
    } else if item_lt(s.last(), x) {
        assert(r[s.len() as int] == x);
        assert forall|i: int| 0 <= i < s.len() implies r.contains(#[trigger] s[i]) by {
            assert(r[i] == s[i]);
        }
        assert forall|k: int| 0 <= k < r.len() implies (#[trigger] r[k]) == x || s.contains(r[k]) by {
            if k < s.len() {
                assert(s[k] == r[k]);
            }
        }
    } else {
        let front = s.drop_last();
        let mid = insert_item(front, x);
        lemma_insert_item(front, x);
        let at = choose|k: int| 0 <= k < mid.len() && mid[k] == x;
        assert(r[at] == x);
        assert forall|i: int| 0 <= i < s.len() implies r.contains(#[trigger] s[i]) by {
            if i < front.len() {
                assert(mid.contains(front[i]));
                let k = choose|k: int| 0 <= k < mid.len() && mid[k] == front[i];
                assert(r[k] == s[i]);
            } else {
                assert(r[mid.len() as int] == s[i]);
            }
        }
        assert forall|k: int| 0 <= k < r.len() implies (#[trigger] r[k]) == x || s.contains(r[k]) by {
            if k < mid.len() {
                assert(r[k] == mid[k]);
                if mid[k] != x {
                    let i = choose|i: int| 0 <= i < front.len() && front[i] == mid[k];
                    assert(s[i] == mid[k]);
                }
            } else {
                assert(s[s.len() - 1] == r[k]);
            }
        }
    }
}

/// Putting items in order neither adds an item nor loses one.
pub proof fn lemma_sort_items(s: Seq<ItemData>)
    ensures
        sort_items(s).len() == s.len(),
        forall|i: int| 0 <= i < s.len() ==> sort_items(s).contains(#[trigger] s[i]),
        forall|k: int| 0 <= k < sort_items(s).len() ==> s.contains(#[trigger] sort_items(s)[k]),
    decreases s.len(),
{
    if s.len() > 0 {
        let front = s.drop_last();
        lemma_sort_items(front);
        let sorted = sort_items(front);
        lemma_insert_item(sorted, s.last());
        let r = sort_items(s);
        assert forall|i: int| 0 <= i < s.len() implies r.contains(#[trigger] s[i]) by {
            if i < front.len() {
                assert(front[i] == s[i]);
                assert(sorted.contains(front[i]));
                let k = choose|k: int| 0 <= k < sorted.len() && sorted[k] == front[i];
                assert(r.contains(sorted[k]));
            }
        }
        assert forall|k: int| 0 <= k < r.len() implies s.contains(#[trigger] r[k]) by {
            if r[k] == s.last() {
                assert(s[s.len() - 1] == r[k]);
            } else {
                let y = choose|y: int| 0 <= y < sorted.len() && sorted[y] == r[k];
                let z = choose|z: int| 0 <= z < front.len() && front[z] == sorted[y];
                assert(s[z] == r[k]);
            }
        }
    }
}

/// The visible ones among the first items are kept, each once, and nothing
/// else is.
#[verifier::rlimit(30)]
pub proof fn lemma_kept_upto(items: Seq<ItemData>, n: nat)
    requires
        n <= items.len(),
    ensures
        forall|i: int|
            0 <= i < n && !hidden_name((#[trigger] items[i]).name) ==> kept_upto(items, n).contains(
                ItemData { name: items[i].name, node: kept_node(items[i].node) },
            ),
        forall|k: int|
            0 <= k < kept_upto(items, n).len() ==> exists|i: int|
                0 <= i < n && !hidden_name((#[trigger] items[i]).name) && (#[trigger] kept_upto(
                    items,
                    n,
                )[k]) == (ItemData { name: items[i].name, node: kept_node(items[i].node) }),
        kept_upto(items, n).len() <= n,
    decreases n,
{
    if n > 0 {
        lemma_kept_upto(items, (n - 1) as nat);
        let rest = kept_upto(items, (n - 1) as nat);
        let now = kept_upto(items, n);
        let item = items[n - 1];
        let shown = ItemData { name: item.name, node: kept_node(item.node) };
        assert forall|i: int| 0 <= i < n && !hidden_name((#[trigger] items[i]).name) implies now.contains(
            ItemData { name: items[i].name, node: kept_node(items[i].node) },
        ) by {
            let want = ItemData { name: items[i].name, node: kept_node(items[i].node) };
            if i < n - 1 {
                let k = choose|k: int| 0 <= k < rest.len() && rest[k] == want;
                assert(now[k] == want);
            } else {
                assert(now[rest.len() as int] == want);
            }
        }
        assert forall|k: int| 0 <= k < now.len() implies exists|i: int|
            0 <= i < n && !hidden_name((#[trigger] items[i]).name) && (#[trigger] now[k])
                == (ItemData { name: items[i].name, node: kept_node(items[i].node) }) by {
            if k < rest.len() {
                assert(now[k] == rest[k]);
                let i = choose|i: int|
                    0 <= i < n - 1 && !hidden_name((#[trigger] items[i]).name) && rest[k] == (
                    ItemData { name: items[i].name, node: kept_node(items[i].node) });
                assert(!hidden_name(items[i].name));
            } else {
                assert(!hidden_name(items[n - 1].name) && now[k] == shown);
            }
        }
    }
}

/// What the store keeps of a directory: every visible item, under its name
/// and as the store keeps its node, and nothing else.
pub proof fn law_kept_is_the_visible_content(items: Seq<ItemData>)
    ensures
        forall|i: int|
            0 <= i < items.len() && !hidden_name((#[trigger] items[i]).name) ==> kept(items).contains(
                ItemData { name: items[i].name, node: kept_node(items[i].node) },
            ),
        forall|k: int|
            0 <= k < kept(items).len() ==> exists|i: int|
                0 <= i < items.len() && !hidden_name((#[trigger] items[i]).name) && (#[trigger] kept(
                    items,
                )[k]) == (ItemData { name: items[i].name, node: kept_node(items[i].node) }),
        kept(items).len() == kept_upto(items, items.len()).len(),
{
    let unsorted = kept_upto(items, items.len());
    lemma_kept_upto(items, items.len());
    lemma_sort_items(unsorted);
    assert forall|i: int|
        0 <= i < items.len() && !hidden_name((#[trigger] items[i]).name) implies kept(items).contains(
        ItemData { name: items[i].name, node: kept_node(items[i].node) },
    ) by {
        let want = ItemData { name: items[i].name, node: kept_node(items[i].node) };
        let k = choose|k: int| 0 <= k < unsorted.len() && unsorted[k] == want;
        assert(kept(items).contains(unsorted[k]));
    }
    assert forall|k: int| 0 <= k < kept(items).len() implies exists|i: int|
        0 <= i < items.len() && !hidden_name((#[trigger] items[i]).name) && (#[trigger] kept(items)[k])
            == (ItemData { name: items[i].name, node: kept_node(items[i].node) }) by {
        let y = choose|y: int| 0 <= y < unsorted.len() && unsorted[y] == kept(items)[k];
        let i = choose|i: int|
            0 <= i < items.len() && !hidden_name((#[trigger] items[i]).name) && unsorted[y] == (
            ItemData { name: items[i].name, node: kept_node(items[i].node) });
        assert(!hidden_name(items[i].name));
    }
}

/// What an entry stands for in a store.
pub open spec fn entry_content(store: StoreData, e: EntryData) -> NodeData {
    if e.is_dir {
        NodeData::Dir(tree_items(store, store.tree_index(e.id)))
    } else {
        NodeData::File(store.blob_data(e.id))
    }
}

/// An entry with what it stands for.
pub open spec fn as_item(store: StoreData, e: EntryData) -> ItemData {
    ItemData { name: e.name, node: entry_content(store, e) }
}

/// Growing a store keeps what every stored tree stands for.
pub proof fn lemma_tree_items_later(store: StoreData, later: StoreData, index: int)
    requires
        store.wf(),
        later.wf(),
        store.extends_to(later),
        0 <= index < store.trees.len(),
    ensures
        tree_items(later, index) == tree_items(store, index),
    decreases index,
{
    assert(later.trees[index] == store.trees[index]);
    assert(store.tree_ok(index));
    let es = store.trees[index].entries;
    assert forall|k: int| 0 <= k < es.len() implies entry_node(later, index, es[k]) == entry_node(
        store,
        index,
        es[k],
    ) by {
        let e = es[k];
        assert(store.entry_present(index, e));
        store.lemma_extends_keeps(later, e.id);
        if e.is_dir {
            let j = choose|j: int|
                0 <= j < index && j < store.trees.len() && (#[trigger] store.trees[j]).id == e.id;
            store.lemma_tree_at(j);
            lemma_tree_items_later(store, later, j);
        }
    }
    assert(tree_items(later, index) =~= tree_items(store, index));
}

/// Growing a store keeps what an entry stands for, if it stood for
/// something stored.
pub proof fn lemma_entry_content_later(store: StoreData, later: StoreData, e: EntryData)
    requires
        store.wf(),
        later.wf(),
        store.extends_to(later),
        store.entry_present(store.trees.len() as int, e),
    ensures
        entry_content(later, e) == entry_content(store, e),
{
    store.lemma_extends_keeps(later, e.id);
    if e.is_dir {
        store.lemma_tree_index(e.id);
        lemma_tree_items_later(store, later, store.tree_index(e.id));
    }
}

/// Putting in order is done by names alone: it does not matter whether
/// entries are ordered and then shown with what they stand for, or shown
/// first and then ordered.
pub proof fn lemma_insert_commutes(store: StoreData, s: Seq<EntryData>, e: EntryData)
    ensures
        insert_item(s.map_values(|x: EntryData| as_item(store, x)), as_item(store, e))
            == insert_entry(s, e).map_values(|x: EntryData| as_item(store, x)),
    decreases s.len(),
{
    let f = |x: EntryData| as_item(store, x);
    let shown = s.map_values(f);
    if s.len() == 0 {
        assert(insert_entry(s, e).map_values(f) =~= seq![as_item(store, e)]);
    } else {
        assert(shown.last() == as_item(store, s.last()));
        assert(item_lt(shown.last(), as_item(store, e)) == entry_lt(s.last(), e));
        if entry_lt(s.last(), e) {
            assert(s.push(e).map_values(f) =~= shown.push(as_item(store, e)));
        } else {
            lemma_insert_commutes(store, s.drop_last(), e);
            assert(shown.drop_last() =~= s.drop_last().map_values(f));
            assert(insert_entry(s.drop_last(), e).push(s.last()).map_values(f) =~= insert_entry(
                s.drop_last(),
                e,
            ).map_values(f).push(as_item(store, s.last())));
        }
    }
}

/// Sorting is done by names alone, too.
pub proof fn lemma_sort_commutes(store: StoreData, s: Seq<EntryData>)
    ensures
        sort_items(s.map_values(|x: EntryData| as_item(store, x))) == sort_listing(s).map_values(
            |x: EntryData| as_item(store, x),
        ),
    decreases s.len(),
{
    let f = |x: EntryData| as_item(store, x);
    if s.len() == 0 {
        assert(s.map_values(f) =~= sort_listing(s).map_values(f));
    } else {
        lemma_sort_commutes(store, s.drop_last());
        assert(s.map_values(f).drop_last() =~= s.drop_last().map_values(f));
        assert(s.map_values(f).last() == as_item(store, s.last()));
        lemma_insert_commutes(store, sort_listing(s.drop_last()), s.last());
    }
}

/// What the tree at a place of a well-formed store stands for is its
/// entries, each with what it stands for.
pub proof fn lemma_tree_items_as_items(store: StoreData, index: int)
    requires
        store.wf(),
        0 <= index < store.trees.len(),
    ensures
        tree_items(store, index) == store.trees[index].entries.map_values(
            |x: EntryData| as_item(store, x),
        ),
{
    assert(store.tree_ok(index));
    let es = store.trees[index].entries;
    assert forall|k: int| 0 <= k < es.len() implies entry_node(store, index, es[k])
        == entry_content(store, es[k]) by {
        let e = es[k];
        assert(store.entry_present(index, e));
        if e.is_dir {
            let j = choose|j: int|
                0 <= j < index && j < store.trees.len() && (#[trigger] store.trees[j]).id == e.id;
            store.lemma_tree_at(j);
        }
    }
    assert(tree_items(store, index) =~= es.map_values(|x: EntryData| as_item(store, x)));
}

/// A node that was written into a store stands there as the store keeps
/// it.
#[verifier::rlimit(30)]
pub proof fn lemma_stored_content(store: StoreData, node: NodeData)
    requires
        store.wf(),
        stored(store, node) is Some,
    ensures
        ({
            let (after, id) = stored(store, node).unwrap();
            match node {
                NodeData::File(data) => after.blob_data(id) == data,
                NodeData::Dir(items) => tree_items(after, after.tree_index(id)) == kept(items),
            }
        }),
    decreases node, 0nat,
{
    let (after, id) = stored(store, node).unwrap();
    lemma_stored_grows(store, node);
    match node {
        NodeData::File(data) => {
            store.lemma_with_blob(data);
        },
        NodeData::Dir(items) => {
            let (mid, es) = stored_upto(store, items, items.len()).unwrap();
            lemma_stored_upto_grows(store, items, items.len());
            lemma_stored_upto_content(store, items, items.len());
            let sorted = sort_listing(es);
            mid.lemma_with_tree(sorted);
            after.lemma_tree_index(id);
            let index = after.tree_index(id);
            lemma_tree_items_as_items(after, index);
            lemma_sort_commutes(after, es);
            assert forall|k: int| 0 <= k < es.len() implies as_item(after, es[k]) == kept_upto(
                items,
                items.len(),
            )[k] by {
                lemma_entry_content_later(mid, after, es[k]);
            }
            assert(es.map_values(|x: EntryData| as_item(after, x)) =~= kept_upto(
                items,
                items.len(),
            ));
        },
    }
}

/// The entries that stand for the first items of a directory stand, in the
/// store that they were written into, for the items as the store keeps
/// them.
#[verifier::rlimit(30)]
pub proof fn lemma_stored_upto_content(store: StoreData, items: Seq<ItemData>, n: nat)
    requires
        store.wf(),
        n <= items.len(),
        stored_upto(store, items, n) is Some,
    ensures
        ({
            let (after, es) = stored_upto(store, items, n).unwrap();
            &&& es.len() == kept_upto(items, n).len()
            &&& forall|k: int|
                0 <= k < es.len() ==> as_item(after, #[trigger] es[k]) == kept_upto(items, n)[k]
            &&& forall|k: int|
                0 <= k < es.len() ==> after.entry_present(
                    after.trees.len() as int,
                    #[trigger] es[k],
                )
        }),
    decreases items, n,
{
    if n > 0 {
        let (mid, front) = stored_upto(store, items, (n - 1) as nat).unwrap();
        lemma_stored_upto_content(store, items, (n - 1) as nat);
        lemma_stored_upto_grows(store, items, (n - 1) as nat);
        let item = items[n - 1];
        if !hidden_name(item.name) {
            let (after, id) = stored(mid, item.node).unwrap();
            lemma_stored_grows(mid, item.node);
            lemma_stored_content(mid, item.node);
            let e = EntryData { name: item.name, is_dir: item.node is Dir, id };
            let es = front.push(e);
            let want = kept_upto(items, n);
            assert forall|k: int| 0 <= k < es.len() implies as_item(after, #[trigger] es[k])
                == want[k] && after.entry_present(after.trees.len() as int, es[k]) by {
                if k < front.len() {
                    assert(es[k] == front[k]);
                    lemma_entry_content_later(mid, after, front[k]);
                    crate::worktree::lemma_present_later(mid, after, front[k]);
                } else {
                    assert(es[k] == e);
                    assert(want[k] == (ItemData { name: item.name, node: kept_node(item.node) }));
                    match item.node {
                        NodeData::File(data) => {
                            assert(entry_content(after, e) == NodeData::File(data));
                            assert(after.has_blob(id));
                        },
                        NodeData::Dir(sub) => {
                            assert(entry_content(after, e) == NodeData::Dir(kept(sub)));
                            assert(after.has_tree(id));
                        },
                    }
                }
            }
        }
    }
}

/// The entries that stand for the first items of a well-formed directory
/// have the names of visible items, no name twice.
pub proof fn lemma_stored_upto_names(store: StoreData, items: Seq<ItemData>, n: nat)
    requires
        items_wf(items),
        n <= items.len(),
        stored_upto(store, items, n) is Some,
    ensures
        ({
            let es = stored_upto(store, items, n).unwrap().1;
            &&& forall|k: int|
                0 <= k < es.len() ==> valid_name(#[trigger] es[k].name) && !hidden_name(es[k].name)
            &&& forall|k: int|
                0 <= k < es.len() ==> exists|j: int|
                    0 <= j < n && (#[trigger] items[j]).name == (#[trigger] es[k]).name
            &&& forall|a: int, b: int|
                0 <= a < b < es.len() ==> (#[trigger] es[a]).name != (#[trigger] es[b]).name
        }),
    decreases n,
{
    if n > 0 {
        let (mid, front) = stored_upto(store, items, (n - 1) as nat).unwrap();
        lemma_stored_upto_names(store, items, (n - 1) as nat);
        let item = items[n - 1];
        if !hidden_name(item.name) {
            let es = stored_upto(store, items, n).unwrap().1;
            assert forall|k: int| 0 <= k < es.len() implies valid_name(#[trigger] es[k].name)
                && !hidden_name(es[k].name) && exists|j: int|
                0 <= j < n && (#[trigger] items[j]).name == es[k].name by {
                if k < front.len() {
                    assert(es[k] == front[k]);
                    let j = choose|j: int|
                        0 <= j < n - 1 && (#[trigger] items[j]).name == (#[trigger] front[k]).name;
                    assert(items[j].name == es[k].name);
                } else {
                    assert(items[n - 1].name == es[k].name);
                }
            }
            assert forall|a: int, b: int| 0 <= a < b < es.len() implies (#[trigger] es[a]).name != (
            #[trigger] es[b]).name by {
                assert(es[a] == front[a]);
                if b < front.len() {
                    assert(es[b] == front[b]);
                } else {
                    let j = choose|j: int|
                        0 <= j < n - 1 && (#[trigger] items[j]).name == (#[trigger] front[a]).name;
                    assert(items[j].name != items[n - 1].name);
                }
            }
        }
    }
}

/// When a well-formed directory is written into a well-formed store, its
/// listing is canonical and everything that it lists is stored: the tree is
/// refused only where it cannot be named or its name stands for another
/// listing.
pub proof fn law_tree_refused_for_its_name_only(store: StoreData, items: Seq<ItemData>)
    requires
        store.wf(),
        items_wf(items),
        stored_upto(store, items, items.len()) is Some,
    ensures
        ({
            let (after, es) = stored_upto(store, items, items.len()).unwrap();
            &&& canonical_listing(sort_listing(es))
            &&& after.listing_present(sort_listing(es))
            &&& stored(store, NodeData::Dir(items)) is Some <==> match tree_id(sort_listing(es)) {
                Some(id) => after.has_tree(id) ==> after.tree_entries(id) == sort_listing(es),
                None => false,
            }
        }),
{
    let (after, es) = stored_upto(store, items, items.len()).unwrap();
    lemma_stored_upto_names(store, items, items.len());
    lemma_stored_upto_content(store, items, items.len());
    lemma_sort_canonical(es);
    let sorted = sort_listing(es);
    assert forall|k: int| 0 <= k < sorted.len() implies after.entry_present(
        after.trees.len() as int,
        #[trigger] sorted[k],
    ) by {
        let x = choose|x: int| 0 <= x < es.len() && es[x] == sorted[k];
        assert(after.entry_present(after.trees.len() as int, es[x]));
    }
}

} // verus!
