//! The object store: blobs, trees and commits, each kept once under the name
//! that its content gives it.
//!
//! The store only grows. A tree is stored after the trees it lists and a
//! commit after its parent, so every walk through the store ends.

use crate::error::VersioningError;
use crate::names::{
    hidden_name, is_hidden, is_valid_name, lemma_lex_transitive, name_precedes, same_bytes,
    sort_key, valid_name,
};
use crate::object_id::ObjectId;
use crate::objects::{
    blob_id, canonical_listing, commit_id, entry_lt, listing, name_blob, name_commit, name_tree,
    tree_id, EntryData, TreeEntry,
};
use vstd::prelude::*;

verus! {

/// A stored file content, as a mathematical value.
pub struct BlobData {
    pub id: ObjectId,
    pub data: Seq<u8>,
}

/// A stored directory listing, as a mathematical value.
pub struct TreeData {
    pub id: ObjectId,
    pub entries: Seq<EntryData>,
}

/// A stored snapshot, as a mathematical value.
pub struct CommitData {
    pub id: ObjectId,
    pub tree: ObjectId,
    pub parent: Option<ObjectId>,
    pub message: Seq<char>,
    pub time: int,
}

/// The content of an object store: three append-only sequences.
pub struct StoreData {
    pub blobs: Seq<BlobData>,
    pub trees: Seq<TreeData>,
    pub commits: Seq<CommitData>,
}

impl StoreData {
    /// The store holds a blob named `id`.
    pub open spec fn has_blob(self, id: ObjectId) -> bool {
        exists|i: int| 0 <= i < self.blobs.len() && (#[trigger] self.blobs[i]).id == id
    }

    /// The place of the blob named `id`.
    pub open spec fn blob_index(self, id: ObjectId) -> int {
        choose|i: int| 0 <= i < self.blobs.len() && (#[trigger] self.blobs[i]).id == id
    }

    /// The bytes of the blob named `id`.
    pub open spec fn blob_data(self, id: ObjectId) -> Seq<u8> {
        self.blobs[self.blob_index(id)].data
    }

    /// Some tree among the first `limit` is named `id`.
    pub open spec fn tree_before(self, limit: int, id: ObjectId) -> bool {
        exists|i: int| 0 <= i < limit && i < self.trees.len() && (#[trigger] self.trees[i]).id == id
    }

    /// The store holds a tree named `id`.
    pub open spec fn has_tree(self, id: ObjectId) -> bool {
        self.tree_before(self.trees.len() as int, id)
    }

    /// The place of the tree named `id`.
    pub open spec fn tree_index(self, id: ObjectId) -> int {
        choose|i: int| 0 <= i < self.trees.len() && (#[trigger] self.trees[i]).id == id
    }

    /// The listing of the tree named `id`.
    pub open spec fn tree_entries(self, id: ObjectId) -> Seq<EntryData> {
        self.trees[self.tree_index(id)].entries
    }

    /// Some commit among the first `limit` is named `id`.
    pub open spec fn commit_before(self, limit: int, id: ObjectId) -> bool {
        exists|i: int|
            0 <= i < limit && i < self.commits.len() && (#[trigger] self.commits[i]).id == id
    }

    /// The store holds a commit named `id`.
    pub open spec fn has_commit(self, id: ObjectId) -> bool {
        self.commit_before(self.commits.len() as int, id)
    }

    /// The place of the commit named `id`.
    pub open spec fn commit_index(self, id: ObjectId) -> int {
        choose|i: int| 0 <= i < self.commits.len() && (#[trigger] self.commits[i]).id == id
    }

    /// The commit named `id`.
    pub open spec fn commit(self, id: ObjectId) -> CommitData {
        self.commits[self.commit_index(id)]
    }

    /// What an entry of the tree at `index` stands for is in the store, a
    /// directory before the tree itself.
    pub open spec fn entry_present(self, index: int, e: EntryData) -> bool {
        if e.is_dir {
            self.tree_before(index, e.id)
        } else {
            self.has_blob(e.id)
        }
    }

    /// The blob at a place stands under the name of its content.
    pub open spec fn blob_ok(self, i: int) -> bool {
        blob_id(self.blobs[i].data) == Some(self.blobs[i].id)
    }

    /// The tree at a place stands under the name of its listing, the listing
    /// is canonical, and what it lists is stored, directories before the tree.
    pub open spec fn tree_ok(self, i: int) -> bool {
        &&& tree_id(self.trees[i].entries) == Some(self.trees[i].id)
        &&& canonical_listing(self.trees[i].entries)
        &&& forall|k: int|
            0 <= k < self.trees[i].entries.len() ==> self.entry_present(
                i,
                #[trigger] self.trees[i].entries[k],
            )
    }

    /// The commit at a place stands under the name of its content, its tree
    /// is stored, and its parent is stored before it.
    pub open spec fn commit_ok(self, i: int) -> bool {
        let c = self.commits[i];
        &&& commit_id(c.tree, c.parent, c.time, c.message) == Some(c.id)
        &&& self.has_tree(c.tree)
        &&& match c.parent {
            Some(p) => self.commit_before(i, p),
            None => true,
        }
    }

    /// The store's invariant: every object stands under the name of its
    /// content, no name stands twice among the objects of a kind, and
    /// whatever an object refers to was stored before it.
    pub open spec fn wf(self) -> bool {
        &&& forall|i: int, j: int|
            0 <= i < j < self.blobs.len() ==> (#[trigger] self.blobs[i]).id != (
            #[trigger] self.blobs[j]).id
        &&& forall|i: int, j: int|
            0 <= i < j < self.trees.len() ==> (#[trigger] self.trees[i]).id != (
            #[trigger] self.trees[j]).id
        &&& forall|i: int, j: int|
            0 <= i < j < self.commits.len() ==> (#[trigger] self.commits[i]).id != (
            #[trigger] self.commits[j]).id
        &&& forall|i: int| 0 <= i < self.blobs.len() ==> #[trigger] self.blob_ok(i)
        &&& forall|i: int| 0 <= i < self.trees.len() ==> #[trigger] self.tree_ok(i)
        &&& forall|i: int| 0 <= i < self.commits.len() ==> #[trigger] self.commit_ok(i)
    }

    /// `later` holds everything that `self` holds, at the same places.
    pub open spec fn extends_to(self, later: StoreData) -> bool {
        &&& self.blobs.is_prefix_of(later.blobs)
        &&& self.trees.is_prefix_of(later.trees)
        &&& self.commits.is_prefix_of(later.commits)
    }

    /// The store with no object in it.
    pub open spec fn empty() -> StoreData {
        StoreData { blobs: Seq::empty(), trees: Seq::empty(), commits: Seq::empty() }
    }

    /// A blob can enter: its content has a name, and that name is free or
    /// already stands for the same content.
    pub open spec fn admits_blob(self, data: Seq<u8>) -> bool {
        match blob_id(data) {
            Some(id) => self.has_blob(id) ==> self.blob_data(id) == data,
            None => false,
        }
    }

    /// The store once a blob has entered.
    pub open spec fn with_blob(self, data: Seq<u8>) -> StoreData {
        let id = blob_id(data).unwrap();
        if self.has_blob(id) {
            self
        } else {
            StoreData { blobs: self.blobs.push(BlobData { id, data }), ..self }
        }
    }

    /// A listing whose entries all stand for stored objects.
    pub open spec fn listing_present(self, entries: Seq<EntryData>) -> bool {
        forall|k: int|
            0 <= k < entries.len() ==> self.entry_present(
                self.trees.len() as int,
                #[trigger] entries[k],
            )
    }

    /// A tree can enter: the listing is canonical, what it lists is stored,
    /// it has a name, and that name is free or stands for the same listing.
    pub open spec fn admits_tree(self, entries: Seq<EntryData>) -> bool {
        &&& canonical_listing(entries)
        &&& self.listing_present(entries)
        &&& match tree_id(entries) {
            Some(id) => self.has_tree(id) ==> self.tree_entries(id) == entries,
            None => false,
        }
    }

    /// The store once a tree has entered.
    pub open spec fn with_tree(self, entries: Seq<EntryData>) -> StoreData {
        let id = tree_id(entries).unwrap();
        if self.has_tree(id) {
            self
        } else {
            StoreData { trees: self.trees.push(TreeData { id, entries }), ..self }
        }
    }

    /// A commit can enter: its tree and parent are stored, it has a name, and
    /// that name is free or stands for the same commit.
    pub open spec fn admits_commit(
        self,
        tree: ObjectId,
        parent: Option<ObjectId>,
        time: int,
        message: Seq<char>,
    ) -> bool {
        &&& self.has_tree(tree)
        &&& match parent {
            Some(p) => self.has_commit(p),
            None => true,
        }
        &&& match commit_id(tree, parent, time, message) {
            Some(id) => self.has_commit(id) ==> self.commit(id) == (CommitData {
                id,
                tree,
                parent,
                message,
                time,
            }),
            None => false,
        }
    }

    /// The store once a commit has entered.
    pub open spec fn with_commit(
        self,
        tree: ObjectId,
        parent: Option<ObjectId>,
        time: int,
        message: Seq<char>,
    ) -> StoreData {
        let id = commit_id(tree, parent, time, message).unwrap();
        if self.has_commit(id) {
            self
        } else {
            StoreData {
                commits: self.commits.push(CommitData { id, tree, parent, message, time }),
                ..self
            }
        }
    }

    /// In a well-formed store a name finds the one place where it stands.
    pub proof fn lemma_blob_at(self, i: int)
        requires
            self.wf(),
            0 <= i < self.blobs.len(),
        ensures
            self.has_blob(self.blobs[i].id),
            self.blob_index(self.blobs[i].id) == i,
    {
    }

    /// The same of a tree.
    pub proof fn lemma_tree_at(self, i: int)
        requires
            self.wf(),
            0 <= i < self.trees.len(),
        ensures
            self.has_tree(self.trees[i].id),
            self.tree_index(self.trees[i].id) == i,
    {
    }

    /// The same of a commit.
    pub proof fn lemma_commit_at(self, i: int)
        requires
            self.wf(),
            0 <= i < self.commits.len(),
        ensures
            self.has_commit(self.commits[i].id),
            self.commit_index(self.commits[i].id) == i,
    {
    }

    /// A stored name stands at a place of the store.
    pub proof fn lemma_commit_index(self, id: ObjectId)
        requires
            self.has_commit(id),
        ensures
            0 <= self.commit_index(id) < self.commits.len(),
            self.commits[self.commit_index(id)].id == id,
    {
    }

    /// The same of a tree.
    pub proof fn lemma_tree_index(self, id: ObjectId)
        requires
            self.has_tree(id),
        ensures
            0 <= self.tree_index(id) < self.trees.len(),
            self.trees[self.tree_index(id)].id == id,
    {
    }

    /// The same of a blob.
    pub proof fn lemma_blob_index(self, id: ObjectId)
        requires
            self.has_blob(id),
        ensures
            0 <= self.blob_index(id) < self.blobs.len(),
            self.blobs[self.blob_index(id)].id == id,
    {
    }

    /// Growing a store keeps what was found in it.
    pub proof fn lemma_extends_keeps(self, later: StoreData, id: ObjectId)
        requires
            self.wf(),
            later.wf(),
            self.extends_to(later),
        ensures
            self.has_blob(id) ==> later.has_blob(id) && later.blob_index(id) == self.blob_index(id)
                && later.blob_data(id) == self.blob_data(id),
            self.has_tree(id) ==> later.has_tree(id) && later.tree_index(id) == self.tree_index(id)
                && later.tree_entries(id) == self.tree_entries(id),
            self.has_commit(id) ==> later.has_commit(id) && later.commit_index(id)
                == self.commit_index(id) && later.commit(id) == self.commit(id),
    {
        if self.has_blob(id) {
            self.lemma_blob_index(id);
            let i = self.blob_index(id);
            assert(later.blobs[i] == self.blobs[i]);
            later.lemma_blob_at(i);
        }
        if self.has_tree(id) {
            self.lemma_tree_index(id);
            let i = self.tree_index(id);
            assert(later.trees[i] == self.trees[i]);
            later.lemma_tree_at(i);
        }
        if self.has_commit(id) {
            self.lemma_commit_index(id);
            let i = self.commit_index(id);
            assert(later.commits[i] == self.commits[i]);
            later.lemma_commit_at(i);
        }
    }

    /// A store that extends an extension extends the store.
    pub proof fn lemma_extends_transitive(self, mid: StoreData, later: StoreData)
        requires
            self.extends_to(mid),
            mid.extends_to(later),
        ensures
            self.extends_to(later),
    {
    }

    /// What is found among the first places of a store is found there in
    /// every store that extends it.
    pub proof fn lemma_found_later(self, later: StoreData, limit: int, id: ObjectId)
        requires
            self.extends_to(later),
        ensures
            self.has_blob(id) ==> later.has_blob(id),
            self.tree_before(limit, id) ==> later.tree_before(limit, id),
            self.commit_before(limit, id) ==> later.commit_before(limit, id),
            self.has_tree(id) ==> later.has_tree(id),
            self.has_commit(id) ==> later.has_commit(id),
    {
        if self.has_blob(id) {
            let i = choose|i: int| 0 <= i < self.blobs.len() && (#[trigger] self.blobs[i]).id == id;
            assert(later.blobs[i] == self.blobs[i]);
        }
        if self.tree_before(limit, id) {
            let i = choose|i: int|
                0 <= i < limit && i < self.trees.len() && (#[trigger] self.trees[i]).id == id;
            assert(later.trees[i] == self.trees[i]);
        }
        if self.has_tree(id) {
            let i = choose|i: int|
                0 <= i < self.trees.len() as int && i < self.trees.len() && (
                #[trigger] self.trees[i]).id == id;
            assert(later.trees[i] == self.trees[i]);
        }
        if self.commit_before(limit, id) {
            let i = choose|i: int|
                0 <= i < limit && i < self.commits.len() && (#[trigger] self.commits[i]).id == id;
            assert(later.commits[i] == self.commits[i]);
        }
        if self.has_commit(id) {
            let i = choose|i: int|
                0 <= i < self.commits.len() as int && i < self.commits.len() && (
                #[trigger] self.commits[i]).id == id;
            assert(later.commits[i] == self.commits[i]);
        }
    }

    /// An object that was well placed stays so when the store grows.
    #[verifier::rlimit(30)]
    pub proof fn lemma_ok_later(self, later: StoreData)
        requires
            self.extends_to(later),
        ensures
            forall|i: int| 0 <= i < self.blobs.len() && self.blob_ok(i) ==> #[trigger] later.blob_ok(i),
            forall|i: int| 0 <= i < self.trees.len() && self.tree_ok(i) ==> #[trigger] later.tree_ok(i),
            forall|i: int|
                0 <= i < self.commits.len() && self.commit_ok(i) ==> #[trigger] later.commit_ok(i),
    {
        assert forall|i: int| 0 <= i < self.blobs.len() && self.blob_ok(i) implies #[trigger] later.blob_ok(
            i,
        ) by {
            assert(later.blobs[i] == self.blobs[i]);
        }
        assert forall|i: int| 0 <= i < self.trees.len() && self.tree_ok(i) implies #[trigger] later.tree_ok(
            i,
        ) by {
            assert(later.trees[i] == self.trees[i]);
            let es = self.trees[i].entries;
            assert forall|k: int| 0 <= k < es.len() implies later.entry_present(
                i,
                #[trigger] es[k],
            ) by {
                assert(self.entry_present(i, es[k]));
                self.lemma_found_later(later, i, es[k].id);
            }
        }
        assert forall|i: int|
            0 <= i < self.commits.len() && self.commit_ok(i) implies #[trigger] later.commit_ok(
            i,
        ) by {
            assert(later.commits[i] == self.commits[i]);
            let c = self.commits[i];
            self.lemma_found_later(later, i, c.tree);
            match c.parent {
                Some(p) => {
                    self.lemma_found_later(later, i, p);
                },
                None => {},
            }
        }
    }

    /// Admitting a blob keeps the store well formed and only grows it.
    pub proof fn lemma_with_blob(self, data: Seq<u8>)
        requires
            self.wf(),
            self.admits_blob(data),
        ensures
            self.with_blob(data).wf(),
            self.extends_to(self.with_blob(data)),
            self.with_blob(data).has_blob(blob_id(data).unwrap()),
            self.with_blob(data).blob_data(blob_id(data).unwrap()) == data,
    {
        let id = blob_id(data).unwrap();
        let next = self.with_blob(data);
        if !self.has_blob(id) {
            let n = self.blobs.len() as int;
            assert(next.blobs[n].id == id);
            self.lemma_ok_later(next);
            assert forall|i: int| 0 <= i < next.blobs.len() implies #[trigger] next.blob_ok(i) by {
                if i < n {
                    assert(self.blob_ok(i));
                }
            }
            assert forall|i: int| 0 <= i < next.trees.len() implies #[trigger] next.tree_ok(i) by {
                assert(self.tree_ok(i));
            }
            assert forall|i: int| 0 <= i < next.commits.len() implies #[trigger] next.commit_ok(
                i,
            ) by {
                assert(self.commit_ok(i));
            }
            next.lemma_blob_at(n);
        } else {
            self.lemma_blob_index(id);
        }
    }

    /// Admitting a tree keeps the store well formed and only grows it.
    #[verifier::rlimit(30)]
    pub proof fn lemma_with_tree(self, entries: Seq<EntryData>)
        requires
            self.wf(),
            self.admits_tree(entries),
        ensures
            self.with_tree(entries).wf(),
            self.extends_to(self.with_tree(entries)),
            self.with_tree(entries).has_tree(tree_id(entries).unwrap()),
            self.with_tree(entries).tree_entries(tree_id(entries).unwrap()) == entries,
    {
        let id = tree_id(entries).unwrap();
        let next = self.with_tree(entries);
        if !self.has_tree(id) {
            let n = self.trees.len() as int;
            assert(next.trees[n].id == id);
            self.lemma_ok_later(next);
            assert forall|i: int| 0 <= i < next.blobs.len() implies #[trigger] next.blob_ok(i) by {
                assert(self.blob_ok(i));
            }
            assert forall|i: int| 0 <= i < next.trees.len() implies #[trigger] next.tree_ok(i) by {
                if i < n {
                    assert(self.tree_ok(i));
                } else {
                    assert forall|k: int| 0 <= k < entries.len() implies next.entry_present(
                        i,
                        #[trigger] entries[k],
                    ) by {
                        assert(self.entry_present(n, entries[k]));
                        self.lemma_found_later(next, n, entries[k].id);
                    }
                }
            }
            assert forall|i: int| 0 <= i < next.commits.len() implies #[trigger] next.commit_ok(
                i,
            ) by {
                assert(self.commit_ok(i));
            }
            next.lemma_tree_at(n);
        } else {
            self.lemma_tree_index(id);
        }
    }

    /// Admitting a commit keeps the store well formed and only grows it.
    pub proof fn lemma_with_commit(
        self,
        tree: ObjectId,
        parent: Option<ObjectId>,
        time: int,
        message: Seq<char>,
    )
        requires
            self.wf(),
            self.admits_commit(tree, parent, time, message),
        ensures
            self.with_commit(tree, parent, time, message).wf(),
            self.extends_to(self.with_commit(tree, parent, time, message)),
            self.with_commit(tree, parent, time, message).has_commit(
                commit_id(tree, parent, time, message).unwrap(),
            ),
            self.with_commit(tree, parent, time, message).commit(
                commit_id(tree, parent, time, message).unwrap(),
            ) == (CommitData {
                id: commit_id(tree, parent, time, message).unwrap(),
                tree,
                parent,
                message,
                time,
            }),
    {
        let id = commit_id(tree, parent, time, message).unwrap();
        let next = self.with_commit(tree, parent, time, message);
        if !self.has_commit(id) {
            let n = self.commits.len() as int;
            assert(next.commits[n].id == id);
            self.lemma_ok_later(next);
            assert forall|i: int| 0 <= i < next.blobs.len() implies #[trigger] next.blob_ok(i) by {
                assert(self.blob_ok(i));
            }
            assert forall|i: int| 0 <= i < next.trees.len() implies #[trigger] next.tree_ok(i) by {
                assert(self.tree_ok(i));
            }
            assert forall|i: int| 0 <= i < next.commits.len() implies #[trigger] next.commit_ok(
                i,
            ) by {
                if i < n {
                    assert(self.commit_ok(i));
                } else {
                    self.lemma_found_later(next, n, tree);
                    match parent {
                        Some(p) => {
                            self.lemma_found_later(next, n, p);
                        },
                        None => {},
                    }
                }
            }
            next.lemma_commit_at(n);
        } else {
            self.lemma_commit_index(id);
        }
    }
}

/// A stored file content.
#[derive(Debug)]
pub struct Blob {
    pub id: ObjectId,
    pub data: Vec<u8>,
}

/// A stored directory listing.
#[derive(Debug)]
pub struct Tree {
    pub id: ObjectId,
    pub entries: Vec<TreeEntry>,
}

/// A stored snapshot: a tree, the snapshot it was made from, and a note.
#[derive(Debug)]
pub struct Commit {
    pub id: ObjectId,
    pub tree: ObjectId,
    pub parent: Option<ObjectId>,
    pub message: String,
    pub time: i64,
}

impl View for Blob {
    type V = BlobData;

    open spec fn view(&self) -> BlobData {
        BlobData { id: self.id, data: self.data@ }
    }
}

impl View for Tree {
    type V = TreeData;

    open spec fn view(&self) -> TreeData {
        TreeData { id: self.id, entries: listing(self.entries@) }
    }
}

impl View for Commit {
    type V = CommitData;

    open spec fn view(&self) -> CommitData {
        CommitData {
            id: self.id,
            tree: self.tree,
            parent: self.parent,
            message: self.message@,
            time: self.time as int,
        }
    }
}

/// Whether two listings are the same.
pub fn same_listing(a: &Vec<TreeEntry>, b: &Vec<TreeEntry>) -> (r: bool)
    ensures
        r == (listing(a@) == listing(b@)),
{
    if a.len() != b.len() {
        assert(listing(a@).len() != listing(b@).len());
        return false;
    }
    let mut i: usize = 0;
    while i < a.len()
        invariant
            a.len() == b.len(),
            i <= a.len(),
            forall|j: int| 0 <= j < i ==> listing(a@)[j] == listing(b@)[j],
        decreases a.len() - i,
    {
        let same: bool = a[i].is_dir == b[i].is_dir && a[i].id == b[i].id && same_bytes(
            &a[i].name,
            &b[i].name,
        );
        if !same {
            assert(listing(a@)[i as int] != listing(b@)[i as int]);
            return false;
        }
        i += 1;
    }
    assert(listing(a@) =~= listing(b@));
    true
}

/// Whether a listing is canonical: valid visible names, none twice, in order.
#[verifier::rlimit(30)]
pub fn is_canonical(entries: &Vec<TreeEntry>) -> (r: bool)
    ensures
        r == canonical_listing(listing(entries@)),
{
    let ghost s = listing(entries@);
    let n: usize = entries.len();
    let mut i: usize = 0;
    while i < n
        invariant
            n == entries.len(),
            s == listing(entries@),
            i <= n,
            forall|j: int| 0 <= j < i ==> valid_name_at(s, j),
        decreases n - i,
    {
        if !is_valid_name(&entries[i].name) || is_hidden(&entries[i].name) {
            assert(!valid_name_at(s, i as int));
            return false;
        }
        i += 1;
    }
    let mut k: usize = 1;
    while k < n
        invariant
            n == entries.len(),
            s == listing(entries@),
            1 <= k,
            forall|j: int| 0 <= j < n ==> valid_name_at(s, j),
            forall|a: int, b: int| 0 <= a < b < k && b < n ==> entry_lt(#[trigger] s[a], #[trigger] s[b]),
        decreases n - k,
    {
        assert(valid_name_at(s, k as int) && valid_name_at(s, k as int - 1));
        if !name_precedes(
            &entries[k - 1].name,
            entries[k - 1].is_dir,
            &entries[k].name,
            entries[k].is_dir,
        ) {
            assert(!entry_lt(s[k as int - 1], s[k as int]));
            return false;
        }
        assert forall|a: int| 0 <= a < k implies entry_lt(#[trigger] s[a], s[k as int]) by {
            if a < k - 1 {
                lemma_lex_transitive(
                    sort_key(s[a].name, s[a].is_dir),
                    sort_key(s[k as int - 1].name, s[k as int - 1].is_dir),
                    sort_key(s[k as int].name, s[k as int].is_dir),
                );
            }
        }
        k += 1;
    }
    let mut a: usize = 0;
    while a < n
        invariant
            n == entries.len(),
            s == listing(entries@),
            a <= n,
            forall|x: int, y: int| 0 <= x < y < n && x < a ==> #[trigger] s[x].name != #[trigger] s[y].name,
        decreases n - a,
    {
        let mut b: usize = a + 1;
        while b < n
            invariant
                n == entries.len(),
                s == listing(entries@),
                a < b <= n,
                forall|y: int| a < y < b ==> s[a as int].name != #[trigger] s[y].name,
            decreases n - b,
        {
            if same_bytes(&entries[a].name, &entries[b].name) {
                assert(s[a as int].name == s[b as int].name);
                return false;
            }
            b += 1;
        }
        a += 1;
    }
    assert forall|j: int| 0 <= j < s.len() implies valid_name(#[trigger] s[j].name) && !hidden_name(
        s[j].name,
    ) by {
        assert(valid_name_at(s, j));
    }
    true
}

/// The name at a place of a listing is valid and visible.
pub open spec fn valid_name_at(s: Seq<EntryData>, j: int) -> bool {
    valid_name(s[j].name) && !hidden_name(s[j].name)
}

/// The object store.
pub struct ObjectStore {
    blobs: Vec<Blob>,
    trees: Vec<Tree>,
    commits: Vec<Commit>,
}

impl View for ObjectStore {
    type V = StoreData;

    closed spec fn view(&self) -> StoreData {
        StoreData {
            blobs: self.blobs@.map_values(|b: Blob| b@),
            trees: self.trees@.map_values(|t: Tree| t@),
            commits: self.commits@.map_values(|c: Commit| c@),
        }
    }
}

impl ObjectStore {
    /// A store with no object in it.
    pub fn new() -> (r: ObjectStore)
        ensures
            r@ == StoreData::empty(),
            r@.wf(),
    {
        let r = ObjectStore { blobs: Vec::new(), trees: Vec::new(), commits: Vec::new() };
        assert(r@.blobs =~= Seq::empty());
        assert(r@.trees =~= Seq::empty());
        assert(r@.commits =~= Seq::empty());
        r
    }

    /// How many commits the store holds.
    pub fn commit_count(&self) -> (r: usize)
        ensures
            r == self@.commits.len(),
    {
        self.commits.len()
    }

    /// How many trees the store holds.
    pub fn tree_count(&self) -> (r: usize)
        ensures
            r == self@.trees.len(),
    {
        self.trees.len()
    }

    /// How many blobs the store holds.
    pub fn blob_count(&self) -> (r: usize)
        ensures
            r == self@.blobs.len(),
    {
        self.blobs.len()
    }

    /// The commit at a place of the store.
    pub fn commit_at(&self, i: usize) -> (r: &Commit)
        requires
            i < self@.commits.len(),
        ensures
            r@ == self@.commits[i as int],
    {
        &self.commits[i]
    }

    /// The tree at a place of the store.
    pub fn tree_at(&self, i: usize) -> (r: &Tree)
        requires
            i < self@.trees.len(),
        ensures
            r@ == self@.trees[i as int],
    {
        &self.trees[i]
    }

    /// The blob at a place of the store.
    pub fn blob_at(&self, i: usize) -> (r: &Blob)
        requires
            i < self@.blobs.len(),
        ensures
            r@ == self@.blobs[i as int],
    {
        &self.blobs[i]
    }

    /// The place of the blob named `id`, if the store holds it.
    pub fn find_blob(&self, id: ObjectId) -> (r: Option<usize>)
        ensures
            match r {
                Some(i) => i < self@.blobs.len() && self@.blobs[i as int].id == id
                    && self@.has_blob(id),
                None => !self@.has_blob(id),
            },
    {
        let mut i: usize = 0;
        while i < self.blobs.len()
            invariant
                i <= self.blobs.len(),
                forall|j: int| 0 <= j < i ==> (#[trigger] self@.blobs[j]).id != id,
            decreases self.blobs.len() - i,
        {
            if self.blobs[i].id == id {
                assert(self@.blobs[i as int].id == id);
                return Some(i);
            }
            i += 1;
        }
        None
    }

    /// The place of the tree named `id`, if it is among the first `limit`.
    pub fn find_tree_before(&self, limit: usize, id: ObjectId) -> (r: Option<usize>)
        ensures
            match r {
                Some(i) => i < limit && i < self@.trees.len() && self@.trees[i as int].id == id
                    && self@.tree_before(limit as int, id),
                None => !self@.tree_before(limit as int, id),
            },
    {
        let mut i: usize = 0;
        while i < self.trees.len() && i < limit
            invariant
                i <= self.trees.len(),
                i <= limit,
                forall|j: int| 0 <= j < i ==> (#[trigger] self@.trees[j]).id != id,
            decreases self.trees.len() - i,
        {
            if self.trees[i].id == id {
                assert(self@.trees[i as int].id == id);
                return Some(i);
            }
            i += 1;
        }
        None
    }

    /// The place of the tree named `id`, if the store holds it.
    pub fn find_tree(&self, id: ObjectId) -> (r: Option<usize>)
        ensures
            match r {
                Some(i) => i < self@.trees.len() && self@.trees[i as int].id == id
                    && self@.has_tree(id),
                None => !self@.has_tree(id),
            },
    {
        self.find_tree_before(self.trees.len(), id)
    }

    /// The place of the commit named `id`, if it is among the first `limit`.
    pub fn find_commit_before(&self, limit: usize, id: ObjectId) -> (r: Option<usize>)
        ensures
            match r {
                Some(i) => i < limit && i < self@.commits.len() && self@.commits[i as int].id == id
                    && self@.commit_before(limit as int, id),
                None => !self@.commit_before(limit as int, id),
            },
    {
        let mut i: usize = 0;
        while i < self.commits.len() && i < limit
            invariant
                i <= self.commits.len(),
                i <= limit,
                forall|j: int| 0 <= j < i ==> (#[trigger] self@.commits[j]).id != id,
            decreases self.commits.len() - i,
        {
            if self.commits[i].id == id {
                assert(self@.commits[i as int].id == id);
                return Some(i);
            }
            i += 1;
        }
        None
    }

    /// The place of the commit named `id`, if the store holds it.
    pub fn find_commit(&self, id: ObjectId) -> (r: Option<usize>)
        ensures
            match r {
                Some(i) => i < self@.commits.len() && self@.commits[i as int].id == id
                    && self@.has_commit(id),
                None => !self@.has_commit(id),
            },
    {
        self.find_commit_before(self.commits.len(), id)
    }

    /// Stores a file content and returns its name. Content that the store
    /// already holds is not stored again. Fails, and changes nothing, when the
    /// content cannot be named or its name stands for other content.
    pub fn put_blob(&mut self, data: Vec<u8>) -> (r: Result<ObjectId, VersioningError>)
        requires
            old(self)@.wf(),
        ensures
            match r {
                Ok(id) => old(self)@.admits_blob(data@) && blob_id(data@) == Some(id) && final(self)@ == old(self)@.with_blob(data@),
                Err(e) => e == VersioningError::ObjectStore && !old(self)@.admits_blob(data@)
                    && final(self)@ == old(self)@,
            },
            final(self)@.wf(),
            old(self)@.extends_to(final(self)@),
    {
        let id = match name_blob(&data) {
            Some(id) => id,
            None => {
                return Err(VersioningError::ObjectStore);
            },
        };
        match self.find_blob(id) {
            Some(i) => {
                proof {
                    self@.lemma_blob_at(i as int);
                }
                if same_bytes(&self.blobs[i].data, &data) {
                    proof {
                        self@.lemma_with_blob(data@);
                    }
                    Ok(id)
                } else {
                    Err(VersioningError::ObjectStore)
                }
            },
            None => {
                proof {
                    self@.lemma_with_blob(data@);
                }
                let ghost before = self@;
                let ghost shown = data@;
                self.blobs.push(Blob { id, data });
                assert(self@.blobs =~= before.blobs.push(BlobData { id, data: shown }));
                Ok(id)
            },
        }
    }

    /// Whether everything that a listing names is in the store.
    pub fn holds_listing(&self, entries: &Vec<TreeEntry>) -> (r: bool)
        ensures
            r == self@.listing_present(listing(entries@)),
    {
        let ghost s = listing(entries@);
        let mut k: usize = 0;
        while k < entries.len()
            invariant
                k <= entries.len(),
                s == listing(entries@),
                forall|j: int|
                    0 <= j < k ==> self@.entry_present(self@.trees.len() as int, #[trigger] s[j]),
            decreases entries.len() - k,
        {
            let found: bool = if entries[k].is_dir {
                self.find_tree(entries[k].id).is_some()
            } else {
                self.find_blob(entries[k].id).is_some()
            };
            if !found {
                assert(!self@.entry_present(self@.trees.len() as int, s[k as int]));
                return false;
            }
            k += 1;
        }
        true
    }

    /// Stores a listing whose entries are known to be in order and in the
    /// store.
    pub(crate) fn add_tree(&mut self, entries: Vec<TreeEntry>) -> (r: Result<ObjectId, VersioningError>)
        requires
            old(self)@.wf(),
            canonical_listing(listing(entries@)),
            old(self)@.listing_present(listing(entries@)),
        ensures
            match r {
                Ok(id) => old(self)@.admits_tree(listing(entries@)) && tree_id(listing(entries@))
                    == Some(id) && final(self)@ == old(self)@.with_tree(listing(entries@)),
                Err(e) => e == VersioningError::ObjectStore && !old(self)@.admits_tree(
                    listing(entries@),
                ) && final(self)@ == old(self)@,
            },
            final(self)@.wf(),
            old(self)@.extends_to(final(self)@),
    {
        let id = match name_tree(&entries) {
            Some(id) => id,
            None => {
                return Err(VersioningError::ObjectStore);
            },
        };
        match self.find_tree(id) {
            Some(i) => {
                proof {
                    self@.lemma_tree_at(i as int);
                }
                if same_listing(&self.trees[i].entries, &entries) {
                    proof {
                        self@.lemma_with_tree(listing(entries@));
                    }
                    Ok(id)
                } else {
                    Err(VersioningError::ObjectStore)
                }
            },
            None => {
                proof {
                    self@.lemma_with_tree(listing(entries@));
                }
                let ghost before = self@;
                let ghost shown = listing(entries@);
                self.trees.push(Tree { id, entries });
                assert(self@.trees =~= before.trees.push(TreeData { id, entries: shown }));
                Ok(id)
            },
        }
    }

    /// Stores a directory listing and returns its name. A listing that the
    /// store already holds is not stored again. Fails, and changes nothing,
    /// when the listing is not canonical, names an object that the store lacks,
    /// cannot be named, or its name stands for another listing.
    pub fn put_tree(&mut self, entries: Vec<TreeEntry>) -> (r: Result<ObjectId, VersioningError>)
        requires
            old(self)@.wf(),
        ensures
            match r {
                Ok(id) => old(self)@.admits_tree(listing(entries@)) && tree_id(listing(entries@))
                    == Some(id) && final(self)@ == old(self)@.with_tree(listing(entries@)),
                Err(e) => e == VersioningError::ObjectStore && !old(self)@.admits_tree(
                    listing(entries@),
                ) && final(self)@ == old(self)@,
            },
            final(self)@.wf(),
            old(self)@.extends_to(final(self)@),
    {
        if !is_canonical(&entries) || !self.holds_listing(&entries) {
            return Err(VersioningError::ObjectStore);
        }
        self.add_tree(entries)
    }

    /// Stores a snapshot and returns its name. A snapshot that the store
    /// already holds is not stored again. Fails, and changes nothing, when the
    /// tree or the parent is not in the store, when the snapshot cannot be
    /// named, or when its name stands for another snapshot.
    pub fn put_commit(
        &mut self,
        tree: ObjectId,
        parent: Option<ObjectId>,
        message: String,
        time: i64,
    ) -> (r: Result<ObjectId, VersioningError>)
        requires
            old(self)@.wf(),
        ensures
            match r {
                Ok(id) => old(self)@.admits_commit(tree, parent, time as int, message@)
                    && commit_id(tree, parent, time as int, message@) == Some(id) && final(self)@
                    == old(self)@.with_commit(tree, parent, time as int, message@),
                Err(e) => e == VersioningError::ObjectStore && !old(self)@.admits_commit(
                    tree,
                    parent,
                    time as int,
                    message@,
                ) && final(self)@ == old(self)@,
            },
            final(self)@.wf(),
            old(self)@.extends_to(final(self)@),
    {
        if self.find_tree(tree).is_none() {
            return Err(VersioningError::ObjectStore);
        }
        match parent {
            Some(p) => {
                if self.find_commit(p).is_none() {
                    return Err(VersioningError::ObjectStore);
                }
            },
            None => {},
        }
        let id = match name_commit(tree, parent, time, message.as_str()) {
            Some(id) => id,
            None => {
                return Err(VersioningError::ObjectStore);
            },
        };
        match self.find_commit(id) {
            Some(i) => {
                proof {
                    self@.lemma_commit_at(i as int);
                }
                let c = &self.commits[i];
                let same_parent: bool = match (c.parent, parent) {
                    (Some(a), Some(b)) => a == b,
                    (None, None) => true,
                    _ => false,
                };
                if c.tree == tree && same_parent && c.time == time && c.message == message {
                    proof {
                        self@.lemma_with_commit(tree, parent, time as int, message@);
                    }
                    Ok(id)
                } else {
                    Err(VersioningError::ObjectStore)
                }
            },
            None => {
                proof {
                    self@.lemma_with_commit(tree, parent, time as int, message@);
                }
                let ghost before = self@;
                let ghost shown = message@;
                self.commits.push(Commit { id, tree, parent, message, time });
                assert(self@.commits =~= before.commits.push(
                    CommitData { id, tree, parent, message: shown, time: time as int },
                ));
                Ok(id)
            },
        }
    }
}

} // verus!
