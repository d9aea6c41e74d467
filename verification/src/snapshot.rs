//! Snapshots: committing the working directory, checking a snapshot out, and
//! the stash slot.

use crate::error::VersioningError;
use crate::object_id::{hex_id, is_hex_of, ObjectId};
use crate::objects::commit_id;
use crate::project::{main_slug, Head, HeadData, Project, ProjectData, Timeline, TimelineData};
use crate::registry::{
    find_timeline, free_slug, head_commit, lemma_placed, place_timeline, placed,
    save_timeline_label, with_label,
};
use crate::store::StoreData;
use crate::text::{clock_of, clock_text, now_seconds, same_text, trim_text, trimmed};
use crate::worktree::{
    clear_visible, hidden_only, lemma_hidden_only_members, lemma_hidden_only_wf,
    lemma_hidden_then_visible_wf, lemma_tree_items_visible, lemma_tree_items_wf, load_tree, stored,
    tree_items, ItemData, NodeData,
};
use vstd::prelude::*;
use vstd::string::StringExecFns;

verus! {

/// The label that a fork gets: the one given, trimmed, unless it is empty
/// or none was given.
pub open spec fn fork_label_text(given: Option<Seq<char>>) -> Seq<char> {
    match given {
        Some(text) => if trimmed(text).len() > 0 {
            trimmed(text)
        } else {
            "New direction"@
        },
        None => "New direction"@,
    }
}

/// The slug wanted for a fork made at a time: `fork-` and the time of day.
pub open spec fn fork_base(time: int) -> Seq<char> {
    "fork-"@ + clock_text(time)
}

/// A text that may be absent, as a mathematical value.
pub open spec fn text_view(text: Option<&str>) -> Option<Seq<char>> {
    match text {
        Some(t) => Some(t@),
        None => None,
    }
}

impl ProjectData {
    /// The content of a stored tree as a directory.
    pub open spec fn tree_content(self, tree: ObjectId) -> Seq<ItemData> {
        tree_items(self.store, self.store.tree_index(tree))
    }

    /// The project with a tree written over the working directory: the
    /// hidden entries of its top level stay, everything else is replaced by
    /// the tree's content.
    pub open spec fn with_tree_checked_out(self, tree: ObjectId) -> ProjectData {
        ProjectData { work: hidden_only(self.work) + self.tree_content(tree), ..self }
    }

    /// The project with a commit's tree written over the working directory.
    pub open spec fn checked_out(self, commit: ObjectId) -> ProjectData {
        self.with_tree_checked_out(self.store.commit(commit).tree)
    }

    /// The store after the working directory and a commit of it on top of
    /// the present position have been written, and the commit's name; `None`
    /// where the store refuses an object.
    pub open spec fn commit_parts(self, message: Seq<char>, time: int) -> Option<
        (StoreData, ObjectId),
    > {
        match stored(self.store, NodeData::Dir(self.work)) {
            Some((store, tree)) => if store.admits_commit(
                tree,
                self.head_commit(),
                time,
                message,
            ) {
                Some(
                    (
                        store.with_commit(tree, self.head_commit(), time, message),
                        commit_id(tree, self.head_commit(), time, message).unwrap(),
                    ),
                )
            } else {
                None
            },
            None => None,
        }
    }

    /// The project after a commit of the working directory. While the user
    /// is not rewound, the timeline they stand on moves to the new commit, or
    /// they move alone where they stand on none. While rewound, the new
    /// commit opens a timeline of its own, every other timeline stays where
    /// it is, and the user is rewound no more.
    pub open spec fn committed(
        self,
        message: Seq<char>,
        fork_label: Option<Seq<char>>,
        time: int,
    ) -> Option<ProjectData> {
        match self.commit_parts(message, time) {
            None => None,
            Some((store, id)) => if self.prev_tip is None {
                Some(
                    match self.head {
                        HeadData::Attached(slug) => if slug == main_slug() {
                            ProjectData { store, main: Some(id), ..self }
                        } else {
                            ProjectData {
                                store,
                                timelines: self.timelines.update(
                                    self.timeline_index(slug),
                                    TimelineData { slug, tip: id },
                                ),
                                ..self
                            }
                        },
                        HeadData::Detached(_) => ProjectData {
                            store,
                            head: HeadData::Detached(id),
                            ..self
                        },
                    },
                )
            } else {
                match self.free_slug(fork_base(time)) {
                    Some(slug) => Some(
                        ProjectData {
                            store,
                            timelines: placed(self.timelines, TimelineData { slug, tip: id }),
                            labels: with_label(self.labels, slug, fork_label_text(fork_label)),
                            head: HeadData::Attached(slug),
                            prev_tip: None,
                            ..self
                        },
                    ),
                    None => None,
                }
            },
        }
    }

    /// A commit at a time went as it had to. Where the store admits the
    /// working directory and the commit, the commit was made: the project is
    /// the one that `committed` tells, the user stands on the new commit, and
    /// the result is its id in hexadecimal digits. Where the store refuses,
    /// the result is `ObjectStore` and nothing but the store has changed.
    pub open spec fn commit_outcome(
        self,
        after: ProjectData,
        message: Seq<char>,
        fork_label: Option<Seq<char>>,
        time: int,
        r: Result<String, VersioningError>,
    ) -> bool {
        match self.commit_parts(message, time) {
            Some((_, id)) => {
                &&& self.committed(message, fork_label, time) == Some(after)
                &&& after.head_commit() == Some(id)
                &&& match r {
                    Ok(hex) => is_hex_of(hex@, id) && hex_id(hex@) == Some(id),
                    Err(_) => false,
                }
            },
            None => {
                &&& self.committed(message, fork_label, time) is None
                &&& after == (ProjectData { store: after.store, ..self })
                &&& match r {
                    Ok(_) => false,
                    Err(e) => e == VersioningError::ObjectStore,
                }
            },
        }
    }

    /// Whether the working directory differs from the snapshot where the
    /// user stands; `None` where the store refuses to name the working
    /// directory. Before the first commit everything counts as unsaved.
    pub open spec fn dirty(self) -> Option<bool> {
        match self.head_commit() {
            None => Some(true),
            Some(here) => match stored(self.store, NodeData::Dir(self.work)) {
                Some((_, tree)) => Some(tree != self.store.commit(here).tree),
                None => None,
            },
        }
    }

    /// The project after the working directory was set aside; `None` where
    /// the store refuses it.
    pub open spec fn stashed(self) -> Option<ProjectData> {
        match stored(self.store, NodeData::Dir(self.work)) {
            Some((store, tree)) => Some(ProjectData { store, stash: Some(tree), ..self }),
            None => None,
        }
    }

    /// The project after what was set aside was brought back; the project
    /// itself where nothing was set aside.
    pub open spec fn popped(self) -> ProjectData {
        match self.stash {
            Some(tree) => ProjectData { stash: None, ..self.with_tree_checked_out(tree) },
            None => self,
        }
    }

    /// Writing a stored tree over the working directory keeps the project
    /// well formed.
    pub proof fn lemma_checked_out_wf(self, tree: ObjectId)
        requires
            self.wf(),
            self.store.has_tree(tree),
        ensures
            self.with_tree_checked_out(tree).wf(),
    {
        self.store.lemma_tree_index(tree);
        let index = self.store.tree_index(tree);
        lemma_tree_items_wf(self.store, index);
        lemma_tree_items_visible(self.store, index);
        lemma_hidden_only_wf(self.work);
        lemma_hidden_only_members(self.work);
        lemma_hidden_then_visible_wf(hidden_only(self.work), tree_items(self.store, index));
        self.lemma_wf_frame(self.with_tree_checked_out(tree));
    }
}

/// Writes the tree at a place of the store over the working directory.
fn overwrite_work(project: &mut Project, tree_at: usize)
    requires
        old(project)@.wf(),
        tree_at < old(project)@.store.trees.len(),
    ensures
        final(project)@ == old(project)@.with_tree_checked_out(
            old(project)@.store.trees[tree_at as int].id,
        ),
        final(project)@.wf(),
{
    proof {
        project@.store.lemma_tree_at(tree_at as int);
        project@.lemma_checked_out_wf(project@.store.trees[tree_at as int].id);
    }
    let mut work = project.take_working_dir();
    clear_visible(&mut work);
    let mut loaded = load_tree(project.store(), tree_at);
    let ghost kept = work@;
    let ghost added = loaded@;
    work.append(&mut loaded);
    assert(crate::worktree::items_data(work@) =~= crate::worktree::items_data(kept)
        + crate::worktree::items_data(added));
    project.put_work(work);
}

/// Writes the tree of a stored commit over the working directory.
pub(crate) fn overwrite_from_commit(project: &mut Project, commit_at: usize)
    requires
        old(project)@.wf(),
        commit_at < old(project)@.store.commits.len(),
    ensures
        final(project)@ == old(project)@.checked_out(old(project)@.store.commits[commit_at as int].id),
        final(project)@.wf(),
{
    proof {
        project@.store.lemma_commit_at(commit_at as int);
        assert(project@.store.commit_ok(commit_at as int));
    }
    let tree = project.store().commit_at(commit_at).tree;
    match project.store().find_tree(tree) {
        Some(tree_at) => {
            proof {
                project@.store.lemma_tree_at(tree_at as int);
            }
            overwrite_work(project, tree_at);
        },
        None => {
            assert(false);
        },
    }
}

/// Checks a snapshot out: its files replace the visible content of the
/// working directory. Nothing else changes. Fails with `NotFound`, and
/// changes nothing, where the id is no commit id or names no stored commit.
pub fn checkout_version(project: &mut Project, commit_id: &str) -> (r: Result<
    (),
    VersioningError,
>)
    requires
        old(project)@.wf(),
    ensures
        final(project)@.wf(),
        match r {
            Ok(_) => match hex_id(commit_id@) {
                Some(id) => old(project)@.store.has_commit(id) && final(project)@ == old(project)@.checked_out(id),
                None => false,
            },
            Err(e) => e == VersioningError::NotFound && final(project)@ == old(project)@ && match hex_id(
                commit_id@,
            ) {
                Some(id) => !old(project)@.store.has_commit(id),
                None => true,
            },
        },
{
    let id = match ObjectId::parse(commit_id) {
        Some(id) => id,
        None => {
            return Err(VersioningError::NotFound);
        },
    };
    match project.store().find_commit(id) {
        Some(at) => {
            overwrite_from_commit(project, at);
            Ok(())
        },
        None => Err(VersioningError::NotFound),
    }
}

/// Whether the project is rewound: the user went back from a tip and has
/// neither returned to it nor committed since.
pub fn is_rewound(project: &Project) -> (r: bool)
    ensures
        r == project@.is_rewound(),
{
    project.prev_tip().is_some()
}

/// Whether the stash slot holds a tree.
pub fn has_stash(project: &Project) -> (r: bool)
    ensures
        r == (project@.stash is Some),
{
    project.stash_slot().is_some()
}

/// Sets the working directory aside: its tree is written into the store and
/// its name into the stash slot, over whatever the slot held. The working
/// directory itself stays as it is.
pub fn stash_working_tree(project: &mut Project) -> (r: Result<(), VersioningError>)
    requires
        old(project)@.wf(),
    ensures
        final(project)@.wf(),
        old(project)@.store.extends_to(final(project)@.store),
        match r {
            Ok(_) => old(project)@.stashed() == Some(final(project)@),
            Err(e) => e == VersioningError::ObjectStore && old(project)@.stashed() is None && final(project)@ == (ProjectData { store: final(project)@.store, ..old(project)@ }),
        },
{
    let ghost before = project@;
    let written = project.write_work();
    proof {
        before.lemma_wf_store_grows(project@.store);
    }
    match written {
        Ok(tree) => {
            proof {
                project@.lemma_wf_frame(ProjectData { stash: Some(tree), ..project@ });
            }
            project.put_stash(Some(tree));
            Ok(())
        },
        Err(e) => Err(e),
    }
}

/// Brings back what was set aside: the stashed tree replaces the visible
/// content of the working directory and the slot is emptied. Returns whether
/// the slot held anything; an empty slot changes nothing.
pub fn pop_stash(project: &mut Project) -> (r: bool)
    requires
        old(project)@.wf(),
    ensures
        final(project)@.wf(),
        r == (old(project)@.stash is Some),
        final(project)@ == old(project)@.popped(),
{
    let tree = match project.stash_slot() {
        Some(tree) => tree,
        None => {
            return false;
        },
    };
    match project.store().find_tree(tree) {
        Some(tree_at) => {
            proof {
                project@.store.lemma_tree_at(tree_at as int);
            }
            overwrite_work(project, tree_at);
            proof {
                project@.lemma_wf_frame(ProjectData { stash: None, ..project@ });
            }
            project.put_stash(None);
            true
        },
        None => {
            assert(false);
            false
        },
    }
}

/// Whether the working directory differs from the snapshot where the user
/// stands. Before the first commit everything counts as unsaved. The
/// working directory is written into the store to learn its name.
pub fn has_unsaved_changes(project: &mut Project) -> (r: Result<bool, VersioningError>)
    requires
        old(project)@.wf(),
    ensures
        final(project)@.wf(),
        old(project)@.store.extends_to(final(project)@.store),
        final(project)@ == (ProjectData { store: final(project)@.store, ..old(project)@ }),
        match r {
            Ok(dirty) => old(project)@.dirty() == Some(dirty) && match old(project)@.head_commit() {
                None => final(project)@ == old(project)@,
                Some(_) => match stored(old(project)@.store, NodeData::Dir(old(project)@.work)) {
                    Some((store, _)) => final(project)@.store == store,
                    None => false,
                },
            },
            Err(e) => e == VersioningError::ObjectStore && old(project)@.dirty() is None,
        },
{
    let head = match head_commit(project) {
        Some(head) => head,
        None => {
            return Ok(true);
        },
    };
    let ghost before = project@;
    proof {
        before.lemma_head_stored();
    }
    let head_tree = match project.store().find_commit(head) {
        Some(at) => {
            proof {
                project@.store.lemma_commit_at(at as int);
            }
            project.store().commit_at(at).tree
        },
        None => {
            assert(false);
            head
        },
    };
    let written = project.write_work();
    proof {
        before.lemma_wf_store_grows(project@.store);
    }
    match written {
        Ok(tree) => Ok(tree != head_tree),
        Err(e) => Err(e),
    }
}

impl ProjectData {
    /// The commit where the user stands is in the store.
    pub proof fn lemma_head_stored(self)
        requires
            self.wf(),
        ensures
            match self.head_commit() {
                Some(c) => self.store.has_commit(c),
                None => true,
            },
    {
        match self.head {
            HeadData::Attached(slug) => {
                if slug != main_slug() && self.has_timeline(slug) {
                    let i = self.timeline_index(slug);
                    assert(self.store.has_commit(self.timelines[i].tip));
                }
            },
            HeadData::Detached(_) => {},
        }
    }
}

/// The label of a fork.
fn fork_label_of(given: Option<&str>) -> (r: String)
    ensures
        r@ == fork_label_text(text_view(given)),
{
    match given {
        Some(text) => {
            let kept = trim_text(text);
            if kept.as_str().unicode_len() > 0 {
                kept
            } else {
                String::from_str("New direction")
            }
        },
        None => String::from_str("New direction"),
    }
}

/// Moves the user's position to a new commit of a project that is not
/// rewound.
fn advance(project: &mut Project, id: ObjectId)
    requires
        old(project)@.wf(),
        old(project)@.store.has_commit(id),
    ensures
        final(project)@.wf(),
        final(project)@ == match old(project)@.head {
            HeadData::Attached(slug) => if slug == main_slug() {
                ProjectData { main: Some(id), ..old(project)@ }
            } else {
                ProjectData {
                    timelines: old(project)@.timelines.update(
                        old(project)@.timeline_index(slug),
                        TimelineData { slug, tip: id },
                    ),
                    ..old(project)@
                }
            },
            HeadData::Detached(_) => ProjectData { head: HeadData::Detached(id), ..old(project)@ },
        },
{
    let ghost before = project@;
    let attached: Option<String> = match project.head() {
        Head::Attached(slug) => Some(slug.clone()),
        Head::Detached(_) => None,
    };
    match attached {
        Some(slug) => {
            if same_text(slug.as_str(), "main") {
                project.put_main(Some(id));
                proof {
                    assert(project@.wf()) by {
                        if let HeadData::Attached(s) = before.head {
                        }
                    }
                }
            } else {
                match find_timeline(project, slug.as_str()) {
                    Some(at) => {
                        proof {
                            before.lemma_timeline_at(at as int);
                        }
                        project.put_tip(at, id);
                        proof {
                            let after = project@;
                            assert(after.timelines[at as int].slug == slug@);
                            assert forall|i: int, j: int|
                                0 <= i < j < after.timelines.len() implies crate::text::text_lt(
                                (#[trigger] after.timelines[i]).slug,
                                (#[trigger] after.timelines[j]).slug,
                            ) by {
                                assert(after.timelines[i].slug == before.timelines[i].slug);
                                assert(after.timelines[j].slug == before.timelines[j].slug);
                            }
                            assert forall|i: int|
                                0 <= i < after.timelines.len() implies after.store.has_commit(
                                (#[trigger] after.timelines[i]).tip,
                            ) && after.timelines[i].slug != main_slug() by {
                                if i != at {
                                    assert(after.timelines[i] == before.timelines[i]);
                                } else {
                                    assert(after.timelines[i].slug == before.timelines[i].slug);
                                }
                            }
                        }
                    },
                    None => {
                        assert(false);
                    },
                }
            }
        },
        None => {
            project.put_head(Head::Detached(id));
        },
    }
}

/// Opens a timeline for a new commit made while rewound.
fn fork(project: &mut Project, slug: String, label: String, id: ObjectId)
    requires
        old(project)@.wf(),
        old(project)@.store.has_commit(id),
        !old(project)@.slug_taken(slug@),
    ensures
        final(project)@.wf(),
        final(project)@ == (ProjectData {
            timelines: placed(old(project)@.timelines, TimelineData { slug: slug@, tip: id }),
            labels: with_label(old(project)@.labels, slug@, label@),
            head: HeadData::Attached(slug@),
            prev_tip: None,
            ..old(project)@
        }),
{
    let ghost before = project@;
    let ghost t = TimelineData { slug: slug@, tip: id };
    proof {
        lemma_placed(before.timelines, t);
    }
    place_timeline(project, Timeline { slug: slug.clone(), tip: id });
    save_timeline_label(project, slug.as_str(), label.as_str());
    project.put_head(Head::Attached(slug));
    project.put_prev_tip(None);
    proof {
        let after = project@;
        let at = choose|x: int| 0 <= x < after.timelines.len() && after.timelines[x] == t;
        assert(after.timelines[at].slug == slug@);
        assert forall|i: int| 0 <= i < after.timelines.len() implies after.store.has_commit(
            (#[trigger] after.timelines[i]).tip,
        ) && after.timelines[i].slug != main_slug() by {
            if after.timelines[i] != t {
                let x = choose|x: int|
                    0 <= x < before.timelines.len() && before.timelines[x] == after.timelines[i];
                assert(before.timelines[x].slug != main_slug());
            }
        }
    }
}

/// Commits the working directory at a given time, in seconds since 1970.
///
/// The tree of the working directory and a commit on top of the present
/// position are written into the store. While the project is not rewound the
/// user's timeline moves to the new commit. While it is rewound the new
/// commit opens a timeline of its own, under `fork-` and the time of day or
/// the next free slug after it, labelled with `fork_label`; no other
/// timeline moves and the project is rewound no more. Returns the new
/// commit's id.
///
/// Fails, with `ObjectStore`, just where the store refuses an object. A
/// failure leaves everything but the store as it was.
#[verifier::rlimit(30)]
pub fn commit_snapshot_at(
    project: &mut Project,
    message: &str,
    fork_label: Option<&str>,
    time: i64,
) -> (r: Result<String, VersioningError>)
    requires
        old(project)@.wf(),
    ensures
        final(project)@.wf(),
        old(project)@.store.extends_to(final(project)@.store),
        old(project)@.commit_outcome(
            final(project)@,
            message@,
            text_view(fork_label),
            time as int,
            r,
        ),
        r is Ok <==> old(project)@.commit_parts(message@, time as int) is Some,
{
    let ghost before = project@;
    let slug: Option<String> = if project.prev_tip().is_some() {
        let mut base = String::from_str("fork-");
        base.append(clock_of(time).as_str());
        proof {
            reveal_strlit("fork-");
        }
        match free_slug(project, base.as_str()) {
            Some(slug) => Some(slug),
            None => {
                assert(false);
                return Err(VersioningError::InvalidOperation);
            },
        }
    } else {
        None
    };
    let parent = head_commit(project);
    let tree = match project.write_work() {
        Ok(tree) => tree,
        Err(e) => {
            proof {
                before.lemma_wf_store_grows(project@.store);
            }
            return Err(e);
        },
    };
    let ghost mid = project@;
    proof {
        before.lemma_wf_store_grows(mid.store);
    }
    let written = project.write_commit(tree, parent, String::from_str(message), time);
    proof {
        mid.lemma_wf_store_grows(project@.store);
        before.store.lemma_extends_transitive(mid.store, project@.store);
    }
    let id = match written {
        Ok(id) => id,
        Err(e) => {
            return Err(e);
        },
    };
    proof {
        mid.store.lemma_with_commit(tree, parent, time as int, message@);
    }
    match slug {
        None => {
            advance(project, id);
            proof {
                let after = project@;
                match after.head {
                    HeadData::Attached(s) => {
                        if s != main_slug() {
                            let at = before.timeline_index(s);
                            assert(after.timelines[at].slug == s);
                            let ghost shown = ProjectData { store: after.store, ..before };
                            shown.lemma_timeline_at(at);
                            after.lemma_timeline_at(at);
                        }
                    },
                    HeadData::Detached(_) => {},
                }
            }
        },
        Some(slug) => {
            let label = fork_label_of(fork_label);
            let ghost t = TimelineData { slug: slug@, tip: id };
            proof {
                lemma_placed(before.timelines, t);
            }
            fork(project, slug, label, id);
            proof {
                let after = project@;
                let at = choose|x: int| 0 <= x < after.timelines.len() && after.timelines[x] == t;
                after.lemma_timeline_at(at);
            }
        },
    }
    Ok(id.to_hex())
}

/// Commits the working directory now: reads the clock and commits at the
/// time that it tells, as `commit_snapshot_at` does. There is a time for
/// which the commit went as it had to: it succeeded just where the store
/// admitted it at that time.
pub fn commit_snapshot(project: &mut Project, message: &str, fork_label: Option<&str>) -> (r:
    Result<String, VersioningError>)
    requires
        old(project)@.wf(),
    ensures
        final(project)@.wf(),
        old(project)@.store.extends_to(final(project)@.store),
        exists|time: int|
            #[trigger] old(project)@.commit_outcome(
                final(project)@,
                message@,
                text_view(fork_label),
                time,
                r,
            ),
        match r {
            Ok(hex) => hex_id(hex@) == final(project)@.head_commit() && hex_id(hex@) is Some,
            Err(e) => final(project)@ == (ProjectData {
                store: final(project)@.store,
                ..old(project)@
            }) && e == VersioningError::ObjectStore,
        },
{
    let time = now_seconds();
    let r = commit_snapshot_at(project, message, fork_label, time);
    assert(old(project)@.commit_outcome(
        project@,
        message@,
        text_view(fork_label),
        time as int,
        r,
    ));
    r
}

} // verus!
