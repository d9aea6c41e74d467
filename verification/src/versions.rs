//! Reading history: the list of snapshots that lead to the present position,
//! and a file as a snapshot holds it.

use crate::error::VersioningError;
use crate::history::walk;
use crate::names::{copy_bytes, same_bytes, slash};
use crate::object_id::{hex_id, is_hex_of, ObjectId};
use crate::objects::{listing, EntryData, TreeEntry};
use crate::project::{Project, ProjectData};
use crate::registry::head_commit;
use crate::store::StoreData;
use crate::text::{trim_text, trimmed};
use vstd::prelude::*;
use vstd::string::StrSliceExecFns;
use vstd::string::StringSliceAdditionalSpecFns;

verus! {

/// A line of the version history.
#[derive(Debug)]
pub struct VersionEntry {
    /// The commit id, in hexadecimal.
    pub id: String,
    /// The commit message, trimmed.
    pub message: String,
    /// When the commit was made, in seconds since 1970.
    pub timestamp: i64,
    /// Left empty; a caller may fill it in.
    pub summary: String,
}

impl ProjectData {
    /// The commits that the list of versions shows: where the user stands
    /// and its ancestors, newest first.
    pub open spec fn versions(self) -> Seq<ObjectId> {
        match self.head_commit() {
            Some(here) => self.store.history(here),
            None => Seq::empty(),
        }
    }
}

/// An entry tells of a stored commit.
pub open spec fn tells_of(entry: VersionEntry, store: StoreData, commit: ObjectId) -> bool {
    &&& is_hex_of(entry.id@, commit)
    &&& entry.message@ == trimmed(store.commit(commit).message)
    &&& entry.timestamp == store.commit(commit).time
    &&& entry.summary@ == Seq::<char>::empty()
}

/// Lists the snapshots that lead to the present position, newest first:
/// the commit where the user stands, then its parent, and so on to the first
/// commit. The list is empty before the first commit.
pub fn list_versions(project: &Project) -> (r: Vec<VersionEntry>)
    requires
        project@.wf(),
    ensures
        r@.len() == project@.versions().len(),
        forall|k: int|
            0 <= k < r@.len() ==> tells_of(#[trigger] r@[k], project@.store, project@.versions()[k]),
{
    let here = match head_commit(project) {
        Some(here) => here,
        None => {
            return Vec::new();
        },
    };
    proof {
        project@.lemma_head_stored();
    }
    let store = project.store();
    let start = match store.find_commit(here) {
        Some(start) => start,
        None => {
            assert(false);
            return Vec::new();
        },
    };
    proof {
        store@.lemma_commit_at(start as int);
    }
    let places = walk(store, start);
    let ghost chain = project@.versions();
    let mut entries: Vec<VersionEntry> = Vec::new();
    let mut k: usize = 0;
    while k < places.len()
        invariant
            k <= places.len(),
            store@ == project@.store,
            store@.wf(),
            chain == project@.versions(),
            places@.len() == chain.len(),
            forall|j: int|
                0 <= j < places@.len() ==> (#[trigger] places@[j]) < store@.commits.len()
                    && store@.commits[places@[j] as int].id == chain[j],
            entries@.len() == k,
            forall|j: int| 0 <= j < k ==> tells_of(#[trigger] entries@[j], store@, chain[j]),
        decreases places.len() - k,
    {
        let commit = store.commit_at(places[k]);
        proof {
            store@.lemma_commit_at(places@[k as int] as int);
        }
        entries.push(
            VersionEntry {
                id: commit.id.to_hex(),
                message: trim_text(commit.message.as_str()),
                timestamp: commit.time,
                summary: String::new(),
            },
        );
        k += 1;
    }
    entries
}

/// The parts of a path between its slashes.
pub open spec fn components(path: Seq<u8>) -> Seq<Seq<u8>>
    decreases path.len(),
{
    if path.len() == 0 {
        seq![Seq::empty()]
    } else {
        let front = components(path.drop_last());
        if path.last() == slash() {
            front.push(Seq::empty())
        } else {
            front.drop_last().push(front.last().push(path.last()))
        }
    }
}

/// The entry of a listing with a name.
pub open spec fn entry_named(entries: Seq<EntryData>, name: Seq<u8>) -> Option<EntryData>
    decreases entries.len(),
{
    if entries.len() == 0 {
        None
    } else if entries.first().name == name {
        Some(entries.first())
    } else {
        entry_named(entries.drop_first(), name)
    }
}

impl StoreData {
    /// The blob of the file that a path leads to, part by part, from a
    /// tree; none where a part is missing, or is a file while more parts
    /// follow, or where the last part is a directory.
    pub open spec fn file_in(self, tree: ObjectId, parts: Seq<Seq<u8>>) -> Option<ObjectId>
        decreases parts.len(),
    {
        if parts.len() == 0 || !self.has_tree(tree) {
            None
        } else {
            match entry_named(self.tree_entries(tree), parts.first()) {
                None => None,
                Some(e) => if parts.len() == 1 {
                    if e.is_dir {
                        None
                    } else {
                        Some(e.id)
                    }
                } else if e.is_dir {
                    self.file_in(e.id, parts.drop_first())
                } else {
                    None
                },
            }
        }
    }

    /// The content of the file at a path in a commit's tree, the path's
    /// parts being separated by slashes.
    pub open spec fn file_at(self, commit: ObjectId, path: Seq<u8>) -> Option<Seq<u8>> {
        match self.file_in(self.commit(commit).tree, components(path)) {
            Some(blob) => Some(self.blob_data(blob)),
            None => None,
        }
    }
}

/// Splits a path at its slashes.
fn split_path(path: &Vec<u8>) -> (r: Vec<Vec<u8>>)
    ensures
        r@.map_values(|part: Vec<u8>| part@) == components(path@),
        r@.len() >= 1,
{
    let mut parts: Vec<Vec<u8>> = Vec::new();
    let mut current: Vec<u8> = Vec::new();
    let mut i: usize = 0;
    proof {
        assert(path@.subrange(0, 0) =~= Seq::<u8>::empty());
        assert(parts@.map_values(|part: Vec<u8>| part@).push(current@) =~= seq![
            Seq::<u8>::empty(),
        ]);
    }
    while i < path.len()
        invariant
            i <= path.len(),
            parts@.map_values(|part: Vec<u8>| part@).push(current@) == components(
                path@.subrange(0, i as int),
            ),
        decreases path.len() - i,
    {
        let ghost shown = parts@.map_values(|part: Vec<u8>| part@);
        let ghost held = current@;
        let ghost prefix = path@.subrange(0, i as int + 1);
        proof {
            assert(prefix.drop_last() =~= path@.subrange(0, i as int));
            assert(prefix.last() == path@[i as int]);
            assert(shown.push(held).drop_last() =~= shown);
        }
        if path[i] == 47 {
            let mut done: Vec<u8> = Vec::new();
            std::mem::swap(&mut current, &mut done);
            parts.push(done);
            assert(parts@.map_values(|part: Vec<u8>| part@) =~= shown.push(held));
        } else {
            current.push(path[i]);
        }
        i += 1;
    }
    proof {
        assert(path@.subrange(0, path@.len() as int) =~= path@);
    }
    let ghost shown = parts@.map_values(|part: Vec<u8>| part@);
    let ghost held = current@;
    parts.push(current);
    assert(parts@.map_values(|part: Vec<u8>| part@) =~= shown.push(held));
    parts
}

/// The place in a listing of the entry with a name.
fn find_entry(entries: &Vec<TreeEntry>, name: &Vec<u8>) -> (r: Option<usize>)
    ensures
        match r {
            Some(i) => i < entries.len() && entry_named(listing(entries@), name@) == Some(
                entries@[i as int]@,
            ),
            None => entry_named(listing(entries@), name@) is None,
        },
{
    let ghost s = listing(entries@);
    let mut i: usize = 0;
    proof {
        assert(s.skip(0) =~= s);
    }
    while i < entries.len()
        invariant
            i <= entries.len(),
            s == listing(entries@),
            entry_named(s, name@) == entry_named(s.skip(i as int), name@),
        decreases entries.len() - i,
    {
        proof {
            assert(s.skip(i as int).first() == entries@[i as int]@);
            assert(s.skip(i as int).drop_first() =~= s.skip(i as int + 1));
        }
        if same_bytes(&entries[i].name, name) {
            return Some(i);
        }
        i += 1;
    }
    None
}

/// Reads a file as a snapshot holds it. The path's parts are separated by
/// slashes and each part must be the name of an entry.
///
/// Fails with `NotFound` where the id is no commit id or names no stored
/// commit, and where the path does not lead to a file of that snapshot.
pub fn get_file_at_version(project: &Project, commit_id: &str, file_path: &str) -> (r: Result<
    Vec<u8>,
    VersioningError,
>)
    requires
        project@.wf(),
    ensures
        match r {
            Ok(data) => match hex_id(commit_id@) {
                Some(id) => project@.store.has_commit(id) && project@.store.file_at(
                    id,
                    file_path.spec_bytes(),
                ) == Some(data@),
                None => false,
            },
            Err(e) => e == VersioningError::NotFound && match hex_id(commit_id@) {
                Some(id) => !project@.store.has_commit(id) || project@.store.file_at(
                    id,
                    file_path.spec_bytes(),
                ) is None,
                None => true,
            },
        },
{
    let id = match ObjectId::parse(commit_id) {
        Some(id) => id,
        None => {
            return Err(VersioningError::NotFound);
        },
    };
    let store = project.store();
    let commit_at = match store.find_commit(id) {
        Some(at) => at,
        None => {
            return Err(VersioningError::NotFound);
        },
    };
    proof {
        store@.lemma_commit_at(commit_at as int);
        assert(store@.commit_ok(commit_at as int));
    }
    let root = store.commit_at(commit_at).tree;
    let path = file_path.as_bytes_vec();
    let parts = split_path(&path);
    let ghost all = components(path@);
    let mut at: usize = match store.find_tree(root) {
        Some(at) => at,
        None => {
            assert(false);
            return Err(VersioningError::NotFound);
        },
    };
    let mut k: usize = 0;
    proof {
        assert(all.skip(0) =~= all);
    }
    loop
        invariant
            k < parts.len(),
            store@ == project@.store,
            store@.wf(),
            hex_id(commit_id@) == Some(id),
            store@.has_commit(id),
            root == store@.commit(id).tree,
            path@ == file_path.spec_bytes(),
            all == components(path@),
            parts@.map_values(|part: Vec<u8>| part@) == all,
            at < store@.trees.len(),
            store@.file_in(root, all) == store@.file_in(store@.trees[at as int].id, all.skip(k as int)),
        decreases parts.len() - k,
    {
        let tree = store.tree_at(at);
        proof {
            store@.lemma_tree_at(at as int);
            assert(store@.tree_ok(at as int));
            assert(all.skip(k as int).first() == parts@[k as int]@);
            assert(all.skip(k as int).drop_first() =~= all.skip(k as int + 1));
        }
        let found = match find_entry(&tree.entries, &parts[k]) {
            Some(found) => found,
            None => {
                return Err(VersioningError::NotFound);
            },
        };
        let entry = &tree.entries[found];
        assert(store@.entry_present(at as int, store@.trees[at as int].entries[found as int]));
        if k + 1 == parts.len() {
            if entry.is_dir {
                return Err(VersioningError::NotFound);
            }
            match store.find_blob(entry.id) {
                Some(blob_at) => {
                    proof {
                        store@.lemma_blob_at(blob_at as int);
                    }
                    return Ok(copy_bytes(&store.blob_at(blob_at).data));
                },
                None => {
                    assert(false);
                    return Err(VersioningError::NotFound);
                },
            }
        }
        if !entry.is_dir {
            return Err(VersioningError::NotFound);
        }
        at = match store.find_tree(entry.id) {
            Some(next) => next,
            None => {
                assert(false);
                return Err(VersioningError::NotFound);
            },
        };
        k += 1;
    }
}

} // verus!
