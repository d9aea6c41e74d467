//! The working directory as a value, and its passage into the object store
//! and back.
//!
//! A directory is a list of named nodes; a node is a file's bytes or a
//! directory. Hidden entries, whose names start with a dot, never enter the
//! store.

use crate::error::VersioningError;
use crate::listing::{
    insert_entry, insert_sorted, lemma_insert_canonical, lemma_sort_canonical_is_identity, may_join,
    sort_listing,
};
use crate::names::{copy_bytes, hidden_name, is_hidden, is_valid_name, same_bytes, valid_name};
use crate::object_id::ObjectId;
use crate::objects::{blob_id, canonical_listing, listing, tree_id, EntryData, TreeEntry};
use crate::store::{ObjectStore, StoreData};
use vstd::prelude::*;

verus! {

/// A file or a directory of the working directory.
#[derive(Debug)]
pub enum Node {
    File(Vec<u8>),
    Dir(Vec<Entry>),
}

/// A named node.
#[derive(Debug)]
pub struct Entry {
    pub name: Vec<u8>,
    pub node: Node,
}

/// A `Node` as a mathematical value.
pub enum NodeData {
    File(Seq<u8>),
    Dir(Seq<ItemData>),
}

/// An `Entry` as a mathematical value.
pub struct ItemData {
    pub name: Seq<u8>,
    pub node: NodeData,
}

impl Node {
    /// The value that a node holds.
    pub open spec fn data(self) -> NodeData
        decreases self,
    {
        match self {
            Node::File(bytes) => NodeData::File(bytes@),
            Node::Dir(entries) => NodeData::Dir(items_data(entries@)),
        }
    }
}

/// The values that a vector of entries holds.
pub open spec fn items_data(entries: Seq<Entry>) -> Seq<ItemData>
    decreases entries,
{
    Seq::new(
        entries.len(),
        |i: int|
            if 0 <= i < entries.len() {
                ItemData { name: entries[i].name@, node: entries[i].node.data() }
            } else {
                arbitrary()
            },
    )
}

/// A directory's content is well formed: valid names, no name twice, at
/// every level.
pub open spec fn items_wf(items: Seq<ItemData>) -> bool
    decreases items,
{
    &&& forall|i: int| 0 <= i < items.len() ==> valid_name(#[trigger] items[i].name)
    &&& forall|i: int, j: int|
        0 <= i < j < items.len() ==> (#[trigger] items[i]).name != (#[trigger] items[j]).name
    &&& forall|i: int| 0 <= i < items.len() ==> node_wf(#[trigger] items[i].node)
}

/// A node is well formed: a file always, a directory when its content is.
pub open spec fn node_wf(node: NodeData) -> bool
    decreases node,
{
    match node {
        NodeData::File(_) => true,
        NodeData::Dir(items) => items_wf(items),
    }
}

/// The store after a node has been written into it, and the node's name;
/// `None` where the store refuses one of the node's objects.
pub open spec fn stored(store: StoreData, node: NodeData) -> Option<(StoreData, ObjectId)>
    decreases node, 0nat,
{
    match node {
        NodeData::File(data) => if store.admits_blob(data) {
            Some((store.with_blob(data), blob_id(data).unwrap()))
        } else {
            None
        },
        NodeData::Dir(items) => match stored_upto(store, items, items.len()) {
            Some((s, es)) => if s.admits_tree(sort_listing(es)) {
                Some((s.with_tree(sort_listing(es)), tree_id(sort_listing(es)).unwrap()))
            } else {
                None
            },
            None => None,
        },
    }
}

/// The store after the first `n` items of a directory have been written into
/// it, and the entries that stand for the visible ones, in the items' order.
pub open spec fn stored_upto(store: StoreData, items: Seq<ItemData>, n: nat) -> Option<
    (StoreData, Seq<EntryData>),
>
    decreases items, n,
{
    if n == 0 || n > items.len() {
        Some((store, Seq::empty()))
    } else {
        let item = items[n - 1];
        match stored_upto(store, items, (n - 1) as nat) {
            None => None,
            Some((s, es)) => if hidden_name(item.name) {
                Some((s, es))
            } else {
                match stored(s, item.node) {
                    Some((s2, id)) => Some(
                        (
                            s2,
                            es.push(
                                EntryData {
                                    name: item.name,
                                    is_dir: item.node is Dir,
                                    id,
                                },
                            ),
                        ),
                    ),
                    None => None,
                }
            },
        }
    }
}

/// Once an item has been refused, the directory is refused.
pub proof fn lemma_refused_stays(store: StoreData, items: Seq<ItemData>, m: nat, n: nat)
    requires
        m <= n <= items.len(),
        stored_upto(store, items, m) is None,
    ensures
        stored_upto(store, items, n) is None,
    decreases n,
{
    if m < n {
        lemma_refused_stays(store, items, m, (n - 1) as nat);
    }
}

/// What is found in a store is found in every store that extends it, a tree
/// among as many first trees as the later store has.
pub proof fn lemma_present_later(s: StoreData, later: StoreData, e: EntryData)
    requires
        s.extends_to(later),
        s.entry_present(s.trees.len() as int, e),
    ensures
        later.entry_present(later.trees.len() as int, e),
{
    s.lemma_found_later(later, s.trees.len() as int, e.id);
    if e.is_dir {
        let i = choose|i: int|
            0 <= i < s.trees.len() as int && i < later.trees.len() && (#[trigger] later.trees[i]).id
                == e.id;
        assert(later.trees[i].id == e.id);
    }
}

/// Writes a directory into the store, without its hidden entries, and
/// returns the name of its tree. Fails where the store refuses one of its
/// objects; the store then holds what was written before the refusal.
#[verifier::rlimit(30)]
pub fn store_dir(store: &mut ObjectStore, items: &Vec<Entry>) -> (r: Result<
    ObjectId,
    VersioningError,
>)
    requires
        old(store)@.wf(),
        items_wf(items_data(items@)),
    ensures
        final(store)@.wf(),
        old(store)@.extends_to(final(store)@),
        match r {
            Ok(id) => stored(old(store)@, NodeData::Dir(items_data(items@))) == Some(
                (final(store)@, id),
            ) && final(store)@.has_tree(id),
            Err(e) => e == VersioningError::ObjectStore && stored(
                old(store)@,
                NodeData::Dir(items_data(items@)),
            ) is None,
        },
    decreases items,
{
    let ghost start = store@;
    let ghost idata = items_data(items@);
    let ghost mut unsorted: Seq<EntryData> = Seq::empty();
    let mut entries: Vec<TreeEntry> = Vec::new();
    let mut k: usize = 0;
    assert(listing(entries@) =~= Seq::empty());
    while k < items.len()
        invariant
            k <= items.len(),
            idata == items_data(items@),
            items_wf(idata),
            start == old(store)@,
            store@.wf(),
            start.extends_to(store@),
            stored_upto(start, idata, k as nat) == Some((store@, unsorted)),
            listing(entries@) == sort_listing(unsorted),
            canonical_listing(listing(entries@)),
            store@.listing_present(listing(entries@)),
            forall|a: int|
                0 <= a < entries.len() ==> exists|j: int|
                    0 <= j < k && (#[trigger] idata[j]).name == (#[trigger] listing(entries@)[a]).name,
        decreases items.len() - k,
    {
        let item = &items[k];
        let ghost before = store@;
        let ghost shown = listing(entries@);
        assert(idata[k as int].name == item.name@);
        assert(idata[k as int].node == item.node.data());
        if !is_hidden(&item.name) {
            assert(node_wf(idata[k as int].node));
            let written = match &item.node {
                Node::File(data) => {
                    let r = store.put_blob(copy_bytes(data));
                    proof {
                        if r.is_ok() {
                            before.lemma_with_blob(data@);
                        }
                    }
                    r
                },
                Node::Dir(sub) => store_dir(store, sub),
            };
            let is_dir: bool = match &item.node {
                Node::File(_) => false,
                Node::Dir(_) => true,
            };
            let id = match written {
                Ok(id) => id,
                Err(e) => {
                    proof {
                        assert(stored(before, idata[k as int].node) is None);
                        assert(stored_upto(start, idata, (k + 1) as nat) is None);
                        lemma_refused_stays(start, idata, (k + 1) as nat, idata.len());
                        start.lemma_extends_transitive(before, store@);
                    }
                    return Err(e);
                },
            };
            let entry = TreeEntry { name: copy_bytes(&item.name), is_dir, id };
            proof {
                let e = entry@;
                assert(stored(before, idata[k as int].node) == Some((store@, id)));
                assert(unsorted.push(e).drop_last() =~= unsorted);
                assert forall|i: int| 0 <= i < shown.len() implies (#[trigger] shown[i]).name
                    != e.name by {
                    let j = choose|j: int|
                        0 <= j < k && (#[trigger] idata[j]).name == (#[trigger] shown[i]).name;
                    assert(idata[j].name != idata[k as int].name);
                }
                assert(may_join(shown, e));
                lemma_insert_canonical(shown, e);
                unsorted = unsorted.push(e);
                start.lemma_extends_transitive(before, store@);
                let grown = insert_entry(shown, e);
                assert forall|x: int| 0 <= x < grown.len() implies store@.entry_present(
                    store@.trees.len() as int,
                    #[trigger] grown[x],
                ) by {
                    if grown[x] == e {
                    } else {
                        let i = choose|i: int| 0 <= i < shown.len() && shown[i] == grown[x];
                        assert(before.entry_present(before.trees.len() as int, shown[i]));
                        lemma_present_later(before, store@, shown[i]);
                    }
                }
                assert forall|a: int| 0 <= a < grown.len() implies exists|j: int|
                    0 <= j < k + 1 && (#[trigger] idata[j]).name == (#[trigger] grown[a]).name by {
                    if grown[a] == e {
                        assert(idata[k as int].name == grown[a].name);
                    } else {
                        let i = choose|i: int| 0 <= i < shown.len() && shown[i] == grown[a];
                        let j = choose|j: int|
                            0 <= j < k && (#[trigger] idata[j]).name == (#[trigger] shown[i]).name;
                        assert(idata[j].name == grown[a].name);
                    }
                }
            }
            insert_sorted(&mut entries, entry);
        }
        k += 1;
    }
    let ghost last = store@;
    let r = store.add_tree(entries);
    proof {
        start.lemma_extends_transitive(last, store@);
        if r.is_ok() {
            last.lemma_with_tree(sort_listing(unsorted));
        }
    }
    r
}

/// The node that an entry of the tree at `index` stands for.
pub open spec fn entry_node(store: StoreData, index: int, e: EntryData) -> NodeData
    decreases index, 0nat,
{
    if e.is_dir {
        let j = store.tree_index(e.id);
        if 0 <= j < index {
            NodeData::Dir(tree_items(store, j))
        } else {
            NodeData::Dir(Seq::empty())
        }
    } else {
        NodeData::File(store.blob_data(e.id))
    }
}

/// The directory content that the tree at a place of the store stands for.
pub open spec fn tree_items(store: StoreData, index: int) -> Seq<ItemData>
    decreases index, 1nat,
{
    if 0 <= index < store.trees.len() {
        let es = store.trees[index].entries;
        Seq::new(
            es.len(),
            |k: int| ItemData { name: es[k].name, node: entry_node(store, index, es[k]) },
        )
    } else {
        Seq::empty()
    }
}

/// What a stored tree stands for is a well-formed directory.
pub proof fn lemma_tree_items_wf(store: StoreData, index: int)
    requires
        store.wf(),
        0 <= index < store.trees.len(),
    ensures
        items_wf(tree_items(store, index)),
    decreases index,
{
    let es = store.trees[index].entries;
    let items = tree_items(store, index);
    assert(store.tree_ok(index));
    assert forall|i: int| 0 <= i < items.len() implies node_wf(#[trigger] items[i].node) by {
        let e = es[i];
        if e.is_dir {
            assert(store.entry_present(index, e));
            let j = choose|j: int|
                0 <= j < index && j < store.trees.len() && (#[trigger] store.trees[j]).id == e.id;
            store.lemma_tree_at(j);
            lemma_tree_items_wf(store, j);
        }
    }
    assert forall|i: int, j: int| 0 <= i < j < items.len() implies (#[trigger] items[i]).name != (
    #[trigger] items[j]).name by {
        assert(es[i].name != es[j].name);
    }
    assert forall|i: int| 0 <= i < items.len() implies valid_name(#[trigger] items[i].name) by {
        assert(valid_name(es[i].name));
    }
}

/// Writing back what a stored tree stands for changes nothing in the store
/// and gives the tree's own name.
pub proof fn lemma_rebuild(store: StoreData, index: int)
    requires
        store.wf(),
        0 <= index < store.trees.len(),
    ensures
        stored(store, NodeData::Dir(tree_items(store, index))) == Some(
            (store, store.trees[index].id),
        ),
    decreases index, 1nat, 0nat,
{
    let es = store.trees[index].entries;
    let items = tree_items(store, index);
    assert(store.tree_ok(index));
    lemma_rebuild_upto(store, index, es.len());
    assert(es.subrange(0, es.len() as int) =~= es);
    lemma_sort_canonical_is_identity(es);
    store.lemma_tree_at(index);
    assert forall|k: int| 0 <= k < es.len() implies store.entry_present(
        store.trees.len() as int,
        #[trigger] es[k],
    ) by {
        assert(store.entry_present(index, es[k]));
        if es[k].is_dir {
            let j = choose|j: int|
                0 <= j < index && j < store.trees.len() && (#[trigger] store.trees[j]).id
                    == es[k].id;
            assert(store.trees[j].id == es[k].id);
        }
    }
}

/// Writing back the first `n` entries of what a stored tree stands for
/// changes nothing in the store and gives those entries.
pub proof fn lemma_rebuild_upto(store: StoreData, index: int, n: nat)
    requires
        store.wf(),
        0 <= index < store.trees.len(),
        n <= store.trees[index].entries.len(),
    ensures
        stored_upto(store, tree_items(store, index), n) == Some(
            (store, store.trees[index].entries.subrange(0, n as int)),
        ),
    decreases index, 0nat, n,
{
    let es = store.trees[index].entries;
    let items = tree_items(store, index);
    assert(store.tree_ok(index));
    if n == 0 {
        assert(es.subrange(0, 0) =~= Seq::empty());
    } else {
        lemma_rebuild_upto(store, index, (n - 1) as nat);
        let e = es[n - 1];
        let item = items[n - 1];
        assert(item.name == e.name);
        assert(!hidden_name(e.name));
        assert(store.entry_present(index, e));
        if e.is_dir {
            let j = choose|j: int|
                0 <= j < index && j < store.trees.len() && (#[trigger] store.trees[j]).id == e.id;
            store.lemma_tree_at(j);
            lemma_rebuild(store, j);
            assert(stored(store, item.node) == Some((store, e.id)));
        } else {
            store.lemma_blob_index(e.id);
            assert(store.blob_ok(store.blob_index(e.id)));
            assert(stored(store, item.node) == Some((store, e.id)));
        }
        assert(es.subrange(0, n as int - 1).push(e) =~= es.subrange(0, n as int));
    }
}

/// Reads a stored tree back as a directory.
#[verifier::rlimit(30)]
pub fn load_tree(store: &ObjectStore, index: usize) -> (r: Vec<Entry>)
    requires
        store@.wf(),
        index < store@.trees.len(),
    ensures
        items_data(r@) == tree_items(store@, index as int),
    decreases index,
{
    let tree = store.tree_at(index);
    let ghost es = store@.trees[index as int].entries;
    let ghost want = tree_items(store@, index as int);
    let mut items: Vec<Entry> = Vec::new();
    let mut k: usize = 0;
    assert(store@.tree_ok(index as int));
    while k < tree.entries.len()
        invariant
            store@.wf(),
            index < store@.trees.len(),
            tree@ == store@.trees[index as int],
            es == store@.trees[index as int].entries,
            want == tree_items(store@, index as int),
            store@.tree_ok(index as int),
            k <= tree.entries.len(),
            items.len() == k,
            forall|i: int| 0 <= i < k ==> (#[trigger] items_data(items@)[i]) == want[i],
        decreases tree.entries.len() - k,
    {
        let e = &tree.entries[k];
        assert(e@ == es[k as int]);
        assert(store@.entry_present(index as int, es[k as int]));
        let node = if e.is_dir {
            match store.find_tree_before(index, e.id) {
                Some(j) => {
                    proof {
                        store@.lemma_tree_at(j as int);
                    }
                    Node::Dir(load_tree(store, j))
                },
                None => Node::Dir(Vec::new()),
            }
        } else {
            match store.find_blob(e.id) {
                Some(j) => {
                    proof {
                        store@.lemma_blob_at(j as int);
                    }
                    Node::File(copy_bytes(&store.blob_at(j).data))
                },
                None => Node::File(Vec::new()),
            }
        };
        assert(node.data() == entry_node(store@, index as int, es[k as int]));
        let ghost before = items@;
        items.push(Entry { name: copy_bytes(&e.name), node });
        assert forall|i: int| 0 <= i < k + 1 implies (#[trigger] items_data(items@)[i])
            == want[i] by {
            if i < k {
                assert(items_data(before)[i] == want[i]);
                assert(items@[i] == before[i]);
            }
        }
        k += 1;
    }
    assert(items_data(items@) =~= want);
    items
}

/// The hidden items of a directory, in their order.
pub open spec fn hidden_only(items: Seq<ItemData>) -> Seq<ItemData>
    decreases items.len(),
{
    if items.len() == 0 {
        items
    } else if hidden_name(items.last().name) {
        hidden_only(items.drop_last()).push(items.last())
    } else {
        hidden_only(items.drop_last())
    }
}

/// Taking a visible item out leaves the hidden ones as they were.
pub proof fn lemma_hidden_only_remove(items: Seq<ItemData>, i: int)
    requires
        0 <= i < items.len(),
        !hidden_name(items[i].name),
    ensures
        hidden_only(items.remove(i)) == hidden_only(items),
    decreases items.len(),
{
    if i == items.len() - 1 {
        assert(items.remove(i) =~= items.drop_last());
    } else {
        lemma_hidden_only_remove(items.drop_last(), i);
        assert(items.remove(i).drop_last() =~= items.drop_last().remove(i));
        assert(items.remove(i).last() == items.last());
    }
}

/// A directory of hidden items only is its own hidden part.
pub proof fn lemma_hidden_only_all(items: Seq<ItemData>)
    requires
        forall|i: int| 0 <= i < items.len() ==> hidden_name(#[trigger] items[i].name),
    ensures
        hidden_only(items) == items,
    decreases items.len(),
{
    if items.len() > 0 {
        lemma_hidden_only_all(items.drop_last());
        assert(items.drop_last().push(items.last()) =~= items);
    }
}

/// The hidden part of a directory holds hidden items of the directory only.
pub proof fn lemma_hidden_only_members(items: Seq<ItemData>)
    ensures
        forall|x: int|
            0 <= x < hidden_only(items).len() ==> hidden_name(
                (#[trigger] hidden_only(items)[x]).name,
            ) && items.contains(hidden_only(items)[x]),
        hidden_only(items).len() <= items.len(),
    decreases items.len(),
{
    if items.len() > 0 {
        let front = items.drop_last();
        lemma_hidden_only_members(front);
        let r = hidden_only(items);
        assert forall|x: int| 0 <= x < r.len() implies hidden_name((#[trigger] r[x]).name)
            && items.contains(r[x]) by {
            if x < hidden_only(front).len() {
                assert(r[x] == hidden_only(front)[x]);
                let i = choose|i: int| 0 <= i < front.len() && front[i] == r[x];
                assert(items[i] == r[x]);
            } else {
                assert(items[items.len() - 1] == r[x]);
            }
        }
    }
}

/// Hidden items in front of a directory leave no trace in the store.
pub proof fn lemma_hidden_front_skipped(
    store: StoreData,
    front: Seq<ItemData>,
    rest: Seq<ItemData>,
    n: nat,
)
    requires
        forall|i: int| 0 <= i < front.len() ==> hidden_name(#[trigger] front[i].name),
        n <= rest.len(),
    ensures
        stored_upto(store, front + rest, front.len() + n) == stored_upto(store, rest, n),
    decreases front.len() + n,
{
    let all = front + rest;
    if n == 0 {
        assert forall|i: int| 0 <= i < front.len() implies hidden_name(#[trigger] all[i].name) by {
            assert(all[i] == front[i]);
        }
        lemma_hidden_front_upto(store, all, front.len());
    } else {
        lemma_hidden_front_skipped(store, front, rest, (n - 1) as nat);
        assert(all[front.len() + n - 1] == rest[n - 1]);
    }
}

/// As long as only hidden items are met, nothing is written.
pub proof fn lemma_hidden_front_upto(store: StoreData, items: Seq<ItemData>, m: nat)
    requires
        m <= items.len(),
        forall|i: int| 0 <= i < m ==> hidden_name(#[trigger] items[i].name),
    ensures
        stored_upto(store, items, m) == Some((store, Seq::<EntryData>::empty())),
    decreases m,
{
    if m > 0 {
        lemma_hidden_front_upto(store, items, (m - 1) as nat);
    }
}

/// Takes the visible entries out of a directory; the hidden ones stay, in
/// their order.
pub fn clear_visible(work: &mut Vec<Entry>)
    ensures
        items_data(final(work)@) == hidden_only(items_data(old(work)@)),
{
    let mut i: usize = 0;
    while i < work.len()
        invariant
            i <= work.len(),
            hidden_only(items_data(work@)) == hidden_only(items_data(old(work)@)),
            forall|j: int| 0 <= j < i ==> hidden_name(#[trigger] items_data(work@)[j].name),
        decreases work.len() - i,
    {
        if is_hidden(&work[i].name) {
            i += 1;
        } else {
            let ghost before = work@;
            proof {
                lemma_hidden_only_remove(items_data(before), i as int);
            }
            let _ = work.remove(i);
            assert(items_data(work@) =~= items_data(before).remove(i as int));
        }
    }
    proof {
        lemma_hidden_only_all(items_data(work@));
    }
}

/// Whether a directory's content is well formed.
pub fn check_dir(items: &Vec<Entry>) -> (r: bool)
    ensures
        r == items_wf(items_data(items@)),
    decreases items,
{
    let ghost idata = items_data(items@);
    let n: usize = items.len();
    let mut a: usize = 0;
    while a < n
        invariant
            n == items.len(),
            idata == items_data(items@),
            a <= n,
            forall|i: int| 0 <= i < a ==> valid_name(#[trigger] idata[i].name),
            forall|i: int| 0 <= i < a ==> node_wf(#[trigger] idata[i].node),
            forall|x: int, y: int|
                0 <= x < y < n && x < a ==> (#[trigger] idata[x]).name != (#[trigger] idata[y]).name,
        decreases n - a,
    {
        assert(idata[a as int].name == items@[a as int].name@);
        assert(idata[a as int].node == items@[a as int].node.data());
        if !is_valid_name(&items[a].name) {
            assert(!valid_name(idata[a as int].name));
            return false;
        }
        let inner: bool = match &items[a].node {
            Node::File(_) => true,
            Node::Dir(sub) => check_dir(sub),
        };
        if !inner {
            assert(!node_wf(idata[a as int].node));
            return false;
        }
        let mut b: usize = a + 1;
        while b < n
            invariant
                n == items.len(),
                idata == items_data(items@),
                a < b <= n,
                forall|y: int| a < y < b ==> idata[a as int].name != (#[trigger] idata[y]).name,
            decreases n - b,
        {
            assert(idata[b as int].name == items@[b as int].name@);
            assert(idata[a as int].name == items@[a as int].name@);
            if same_bytes(&items[a].name, &items[b].name) {
                assert(idata[a as int].name == idata[b as int].name);
                return false;
            }
            b += 1;
        }
        a += 1;
    }
    true
}

/// The hidden part of a well-formed directory is well formed.
pub proof fn lemma_hidden_only_wf(items: Seq<ItemData>)
    requires
        items_wf(items),
    ensures
        items_wf(hidden_only(items)),
    decreases items.len(),
{
    if items.len() > 0 {
        let front = items.drop_last();
        assert forall|i: int| 0 <= i < front.len() implies valid_name(#[trigger] front[i].name)
            && node_wf(front[i].node) by {
            assert(front[i] == items[i]);
        }
        assert forall|i: int, j: int| 0 <= i < j < front.len() implies (#[trigger] front[i]).name != (
        #[trigger] front[j]).name by {
            assert(front[i] == items[i]);
            assert(front[j] == items[j]);
        }
        lemma_hidden_only_wf(front);
        lemma_hidden_only_members(front);
        let r = hidden_only(items);
        let h = hidden_only(front);
        if hidden_name(items.last().name) {
            assert forall|i: int, j: int| 0 <= i < j < r.len() implies (#[trigger] r[i]).name != (
            #[trigger] r[j]).name by {
                assert(r[i] == h[i]);
                if j < h.len() {
                    assert(r[j] == h[j]);
                } else {
                    let x = choose|x: int| 0 <= x < front.len() && front[x] == h[i];
                    assert(items[x] == h[i]);
                    assert(items[x].name != items[items.len() - 1].name);
                }
            }
            assert forall|i: int| 0 <= i < r.len() implies valid_name(#[trigger] r[i].name)
                && node_wf(r[i].node) by {
                if i < h.len() {
                    assert(r[i] == h[i]);
                } else {
                    assert(r[i] == items[items.len() - 1]);
                }
            }
        }
    }
}

/// Hidden items followed by visible ones make a well-formed directory.
pub proof fn lemma_hidden_then_visible_wf(front: Seq<ItemData>, rest: Seq<ItemData>)
    requires
        items_wf(front),
        items_wf(rest),
        forall|i: int| 0 <= i < front.len() ==> hidden_name(#[trigger] front[i].name),
        forall|i: int| 0 <= i < rest.len() ==> !hidden_name(#[trigger] rest[i].name),
    ensures
        items_wf(front + rest),
{
    let all = front + rest;
    assert forall|i: int| 0 <= i < all.len() implies valid_name(#[trigger] all[i].name) && node_wf(
        all[i].node,
    ) by {
        if i < front.len() {
            assert(all[i] == front[i]);
        } else {
            assert(all[i] == rest[i - front.len()]);
        }
    }
    assert forall|i: int, j: int| 0 <= i < j < all.len() implies (#[trigger] all[i]).name != (
    #[trigger] all[j]).name by {
        if j < front.len() {
            assert(all[i] == front[i]);
            assert(all[j] == front[j]);
        } else if i >= front.len() {
            assert(all[i] == rest[i - front.len()]);
            assert(all[j] == rest[j - front.len()]);
        } else {
            assert(all[i] == front[i]);
            assert(all[j] == rest[j - front.len()]);
        }
    }
}

/// What a stored tree stands for has visible names only.
pub proof fn lemma_tree_items_visible(store: StoreData, index: int)
    requires
        store.wf(),
        0 <= index < store.trees.len(),
    ensures
        forall|i: int|
            0 <= i < tree_items(store, index).len() ==> !hidden_name(
                #[trigger] tree_items(store, index)[i].name,
            ),
{
    assert(store.tree_ok(index));
    let es = store.trees[index].entries;
    assert forall|i: int| 0 <= i < tree_items(store, index).len() implies !hidden_name(
        #[trigger] tree_items(store, index)[i].name,
    ) by {
        assert(!hidden_name(es[i].name));
    }
}

/// Writing a node into a well-formed store gives a well-formed store that
/// extends it and holds the node's object.
pub proof fn lemma_stored_grows(store: StoreData, node: NodeData)
    requires
        store.wf(),
        stored(store, node) is Some,
    ensures
        stored(store, node).unwrap().0.wf(),
        store.extends_to(stored(store, node).unwrap().0),
        match node {
            NodeData::File(_) => stored(store, node).unwrap().0.has_blob(
                stored(store, node).unwrap().1,
            ),
            NodeData::Dir(_) => stored(store, node).unwrap().0.has_tree(
                stored(store, node).unwrap().1,
            ),
        },
    decreases node, 0nat,
{
    match node {
        NodeData::File(data) => {
            store.lemma_with_blob(data);
        },
        NodeData::Dir(items) => {
            lemma_stored_upto_grows(store, items, items.len());
            let (s, es) = stored_upto(store, items, items.len()).unwrap();
            s.lemma_with_tree(sort_listing(es));
            store.lemma_extends_transitive(s, s.with_tree(sort_listing(es)));
        },
    }
}

/// Writing the first items of a directory into a well-formed store gives a
/// well-formed store that extends it.
pub proof fn lemma_stored_upto_grows(store: StoreData, items: Seq<ItemData>, n: nat)
    requires
        store.wf(),
        n <= items.len(),
        stored_upto(store, items, n) is Some,
    ensures
        stored_upto(store, items, n).unwrap().0.wf(),
        store.extends_to(stored_upto(store, items, n).unwrap().0),
    decreases items, n,
{
    if n > 0 {
        lemma_stored_upto_grows(store, items, (n - 1) as nat);
        let (s, es) = stored_upto(store, items, (n - 1) as nat).unwrap();
        let item = items[n - 1];
        if !hidden_name(item.name) {
            lemma_stored_grows(s, item.node);
            store.lemma_extends_transitive(s, stored(s, item.node).unwrap().0);
        }
    }
}

/// A node that was written into a store is written again, into any
/// well-formed store that extends the result, without change and under the
/// same name.
pub proof fn lemma_stored_again(store: StoreData, node: NodeData, later: StoreData)
    requires
        store.wf(),
        later.wf(),
        stored(store, node) is Some,
        stored(store, node).unwrap().0.extends_to(later),
    ensures
        stored(later, node) == Some((later, stored(store, node).unwrap().1)),
    decreases node, 0nat,
{
    let (s1, id) = stored(store, node).unwrap();
    lemma_stored_grows(store, node);
    match node {
        NodeData::File(data) => {
            store.lemma_with_blob(data);
            s1.lemma_extends_keeps(later, id);
        },
        NodeData::Dir(items) => {
            let (s, es) = stored_upto(store, items, items.len()).unwrap();
            lemma_stored_upto_grows(store, items, items.len());
            s.lemma_with_tree(sort_listing(es));
            lemma_stored_upto_again(store, items, items.len(), later);
            s1.lemma_extends_keeps(later, id);
            let sorted = sort_listing(es);
            assert forall|k: int| 0 <= k < sorted.len() implies later.entry_present(
                later.trees.len() as int,
                #[trigger] sorted[k],
            ) by {
                assert(s.entry_present(s.trees.len() as int, sorted[k]));
                s.lemma_extends_transitive(s1, later);
                lemma_present_later(s, later, sorted[k]);
            }
        },
    }
}

/// The first items of a directory that were written into a store are written
/// again, into any well-formed store that extends the whole result, without
/// change and as the same entries.
pub proof fn lemma_stored_upto_again(
    store: StoreData,
    items: Seq<ItemData>,
    n: nat,
    later: StoreData,
)
    requires
        store.wf(),
        later.wf(),
        n <= items.len(),
        stored_upto(store, items, n) is Some,
        stored_upto(store, items, n).unwrap().0.extends_to(later),
    ensures
        stored_upto(later, items, n) == Some((later, stored_upto(store, items, n).unwrap().1)),
    decreases items, n,
{
    if n > 0 {
        let (s, es) = stored_upto(store, items, (n - 1) as nat).unwrap();
        let item = items[n - 1];
        lemma_stored_upto_grows(store, items, (n - 1) as nat);
        if hidden_name(item.name) {
            lemma_stored_upto_again(store, items, (n - 1) as nat, later);
        } else {
            lemma_stored_grows(s, item.node);
            let (s2, id) = stored(s, item.node).unwrap();
            s.lemma_extends_transitive(s2, later);
            lemma_stored_upto_again(store, items, (n - 1) as nat, later);
            lemma_stored_again(s, item.node, later);
        }
    }
}

/// The name under which a node is written does not depend on the store.
pub proof fn lemma_stored_name(a: StoreData, b: StoreData, node: NodeData)
    requires
        stored(a, node) is Some,
        stored(b, node) is Some,
    ensures
        stored(a, node).unwrap().1 == stored(b, node).unwrap().1,
    decreases node, 0nat,
{
    match node {
        NodeData::File(_) => {},
        NodeData::Dir(items) => {
            lemma_stored_upto_name(a, b, items, items.len());
        },
    }
}

/// The entries that stand for the first items of a directory do not depend
/// on the store.
pub proof fn lemma_stored_upto_name(a: StoreData, b: StoreData, items: Seq<ItemData>, n: nat)
    requires
        n <= items.len(),
        stored_upto(a, items, n) is Some,
        stored_upto(b, items, n) is Some,
    ensures
        stored_upto(a, items, n).unwrap().1 == stored_upto(b, items, n).unwrap().1,
    decreases items, n,
{
    if n > 0 {
        lemma_stored_upto_name(a, b, items, (n - 1) as nat);
        let item = items[n - 1];
        if !hidden_name(item.name) {
            lemma_stored_name(
                stored_upto(a, items, (n - 1) as nat).unwrap().0,
                stored_upto(b, items, (n - 1) as nat).unwrap().0,
                item.node,
            );
        }
    }
}

/// Hidden items in front of a directory do not change how it is written.
pub proof fn lemma_hidden_front_stored(store: StoreData, front: Seq<ItemData>, rest: Seq<ItemData>)
    requires
        forall|i: int| 0 <= i < front.len() ==> hidden_name(#[trigger] front[i].name),
    ensures
        stored(store, NodeData::Dir(front + rest)) == stored(store, NodeData::Dir(rest)),
{
    lemma_hidden_front_skipped(store, front, rest, rest.len());
}

} // verus!
