//! The state of a versioned project: its objects, its working directory, its
//! timelines, and where the user stands among them.

use crate::error::VersioningError;
use crate::object_id::ObjectId;
use crate::store::{ObjectStore, StoreData};
use crate::text::{lemma_text_lt_transitive, same_text, text_before, text_lt};
use crate::worktree::{check_dir, items_data, items_wf, store_dir, stored, Entry, ItemData, NodeData};
use vstd::prelude::*;
use vstd::string::StringExecFns;

verus! {

/// A timeline other than main: a slug and the commit at its tip.
#[derive(Debug)]
pub struct Timeline {
    pub slug: String,
    pub tip: ObjectId,
}

/// A `Timeline` as a mathematical value.
pub struct TimelineData {
    pub slug: Seq<char>,
    pub tip: ObjectId,
}

impl View for Timeline {
    type V = TimelineData;

    open spec fn view(&self) -> TimelineData {
        TimelineData { slug: self.slug@, tip: self.tip }
    }
}

/// A line of the label table: the label that the user gave to a slug.
#[derive(Debug)]
pub struct Label {
    pub slug: String,
    pub text: String,
}

/// A `Label` as a mathematical value.
pub struct LabelData {
    pub slug: Seq<char>,
    pub text: Seq<char>,
}

impl View for Label {
    type V = LabelData;

    open spec fn view(&self) -> LabelData {
        LabelData { slug: self.slug@, text: self.text@ }
    }
}

/// Where the user stands: at the tip of a timeline and moving with it, or at
/// a commit of their choice.
#[derive(Debug)]
pub enum Head {
    Attached(String),
    Detached(ObjectId),
}

/// A `Head` as a mathematical value.
pub enum HeadData {
    Attached(Seq<char>),
    Detached(ObjectId),
}

impl View for Head {
    type V = HeadData;

    open spec fn view(&self) -> HeadData {
        match self {
            Head::Attached(slug) => HeadData::Attached(slug@),
            Head::Detached(id) => HeadData::Detached(*id),
        }
    }
}

/// The slug of the timeline that every project has and keeps.
pub open spec fn main_slug() -> Seq<char> {
    "main"@
}

/// A project as a mathematical value.
pub struct ProjectData {
    pub store: StoreData,
    pub work: Seq<ItemData>,
    pub main: Option<ObjectId>,
    pub timelines: Seq<TimelineData>,
    pub labels: Seq<LabelData>,
    pub head: HeadData,
    pub prev_tip: Option<ObjectId>,
    pub stash: Option<ObjectId>,
}

impl ProjectData {
    /// A timeline other than main has the slug.
    pub open spec fn has_timeline(self, slug: Seq<char>) -> bool {
        exists|i: int| 0 <= i < self.timelines.len() && (#[trigger] self.timelines[i]).slug == slug
    }

    /// The place of the timeline with the slug among the timelines.
    pub open spec fn timeline_index(self, slug: Seq<char>) -> int {
        choose|i: int| 0 <= i < self.timelines.len() && (#[trigger] self.timelines[i]).slug == slug
    }

    /// The commit at the tip of a timeline, main or other.
    pub open spec fn tip_of(self, slug: Seq<char>) -> Option<ObjectId> {
        if slug == main_slug() {
            self.main
        } else if self.has_timeline(slug) {
            Some(self.timelines[self.timeline_index(slug)].tip)
        } else {
            None
        }
    }

    /// The commit where the user stands; none before the first commit.
    pub open spec fn head_commit(self) -> Option<ObjectId> {
        match self.head {
            HeadData::Attached(slug) => self.tip_of(slug),
            HeadData::Detached(id) => Some(id),
        }
    }

    /// All timelines with their tips: main first if it has a commit, then the
    /// others by slug.
    pub open spec fn refs(self) -> Seq<TimelineData> {
        match self.main {
            Some(tip) => seq![TimelineData { slug: main_slug(), tip }] + self.timelines,
            None => self.timelines,
        }
    }

    /// The user went back from a tip and has not returned or committed since.
    pub open spec fn is_rewound(self) -> bool {
        self.prev_tip is Some
    }

    /// The project's invariant.
    pub open spec fn wf(self) -> bool {
        &&& self.store.wf()
        &&& items_wf(self.work)
        &&& match self.main {
            Some(c) => self.store.has_commit(c),
            None => true,
        }
        &&& forall|i: int|
            0 <= i < self.timelines.len() ==> self.store.has_commit(
                (#[trigger] self.timelines[i]).tip,
            )
        &&& forall|i: int|
            0 <= i < self.timelines.len() ==> (#[trigger] self.timelines[i]).slug != main_slug()
        &&& forall|i: int, j: int|
            0 <= i < j < self.timelines.len() ==> text_lt(
                (#[trigger] self.timelines[i]).slug,
                (#[trigger] self.timelines[j]).slug,
            )
        &&& match self.head {
            HeadData::Attached(slug) => slug == main_slug() || self.has_timeline(slug),
            HeadData::Detached(c) => self.store.has_commit(c),
        }
        &&& match self.prev_tip {
            Some(c) => self.store.has_commit(c),
            None => true,
        }
        &&& match self.stash {
            Some(t) => self.store.has_tree(t),
            None => true,
        }
    }

    /// A project just made: nothing stored, an empty working directory, and
    /// the user on main, which has no commit yet.
    pub open spec fn fresh() -> ProjectData {
        ProjectData {
            store: StoreData::empty(),
            work: Seq::empty(),
            main: None,
            timelines: Seq::empty(),
            labels: Seq::empty(),
            head: HeadData::Attached(main_slug()),
            prev_tip: None,
            stash: None,
        }
    }
}

/// A versioned project.
pub struct Project {
    store: ObjectStore,
    work: Vec<Entry>,
    main: Option<ObjectId>,
    timelines: Vec<Timeline>,
    labels: Vec<Label>,
    head: Head,
    prev_tip: Option<ObjectId>,
    stash: Option<ObjectId>,
}

impl View for Project {
    type V = ProjectData;

    closed spec fn view(&self) -> ProjectData {
        ProjectData {
            store: self.store@,
            work: items_data(self.work@),
            main: self.main,
            timelines: self.timelines@.map_values(|t: Timeline| t@),
            labels: self.labels@.map_values(|l: Label| l@),
            head: self.head@,
            prev_tip: self.prev_tip,
            stash: self.stash,
        }
    }
}

/// Starts versioning: a project with no history, an empty working
/// directory, and the user on main.
pub fn init_project_repo() -> (r: Project)
    ensures
        r@ == ProjectData::fresh(),
        r@.wf(),
{
    Project::new()
}

impl Project {
    /// A project with no history and an empty working directory.
    pub fn new() -> (r: Project)
        ensures
            r@ == ProjectData::fresh(),
            r@.wf(),
    {
        let r = Project {
            store: ObjectStore::new(),
            work: Vec::new(),
            main: None,
            timelines: Vec::new(),
            labels: Vec::new(),
            head: Head::Attached(String::from_str("main")),
            prev_tip: None,
            stash: None,
        };
        assert(r@.work =~= Seq::empty());
        assert(r@.timelines =~= Seq::empty());
        assert(r@.labels =~= Seq::empty());
        r
    }

    /// Puts a project together from its parts, as they were kept between
    /// two runs. Parts that do not make a well-formed project are
    /// refused with `ObjectStore`.
    #[verifier::rlimit(30)]
    pub fn restore(
        store: ObjectStore,
        work: Vec<Entry>,
        main: Option<ObjectId>,
        timelines: Vec<Timeline>,
        labels: Vec<Label>,
        head: Head,
        prev_tip: Option<ObjectId>,
        stash: Option<ObjectId>,
    ) -> (r: Result<Project, VersioningError>)
        requires
            store@.wf(),
        ensures
            match r {
                Ok(project) => project@.wf() && project@ == (ProjectData {
                    store: store@,
                    work: items_data(work@),
                    main,
                    timelines: timelines@.map_values(|t: Timeline| t@),
                    labels: labels@.map_values(|l: Label| l@),
                    head: head@,
                    prev_tip,
                    stash,
                }),
                Err(e) => e == VersioningError::ObjectStore && !(ProjectData {
                    store: store@,
                    work: items_data(work@),
                    main,
                    timelines: timelines@.map_values(|t: Timeline| t@),
                    labels: labels@.map_values(|l: Label| l@),
                    head: head@,
                    prev_tip,
                    stash,
                }).wf(),
            },
    {
        let ghost ts = timelines@.map_values(|t: Timeline| t@);
        let ghost want = ProjectData {
            store: store@,
            work: items_data(work@),
            main,
            timelines: ts,
            labels: labels@.map_values(|l: Label| l@),
            head: head@,
            prev_tip,
            stash,
        };
        if !check_dir(&work) {
            return Err(VersioningError::ObjectStore);
        }
        let stored_main: bool = match main {
            Some(c) => store.find_commit(c).is_some(),
            None => true,
        };
        let stored_prev: bool = match prev_tip {
            Some(c) => store.find_commit(c).is_some(),
            None => true,
        };
        let stored_stash: bool = match stash {
            Some(t) => store.find_tree(t).is_some(),
            None => true,
        };
        if !stored_main || !stored_prev || !stored_stash {
            return Err(VersioningError::ObjectStore);
        }
        let mut i: usize = 0;
        while i < timelines.len()
            invariant
                i <= timelines.len(),
                ts == timelines@.map_values(|t: Timeline| t@),
                want == (ProjectData {
                    store: store@,
                    work: items_data(work@),
                    main,
                    timelines: ts,
                    labels: labels@.map_values(|l: Label| l@),
                    head: head@,
                    prev_tip,
                    stash,
                }),
                forall|j: int| 0 <= j < i ==> store@.has_commit((#[trigger] ts[j]).tip),
                forall|j: int| 0 <= j < i ==> (#[trigger] ts[j]).slug != main_slug(),
                forall|a: int, b: int|
                    0 <= a < b < i ==> text_lt((#[trigger] ts[a]).slug, (#[trigger] ts[b]).slug),
            decreases timelines.len() - i,
        {
            assert(ts[i as int] == timelines@[i as int]@);
            if store.find_commit(timelines[i].tip).is_none() {
                assert(!want.store.has_commit(want.timelines[i as int].tip));
                assert(!want.wf());
                return Err(VersioningError::ObjectStore);
            }
            if same_text(timelines[i].slug.as_str(), "main") {
                assert(want.timelines[i as int].slug == main_slug());
                assert(!want.wf());
                return Err(VersioningError::ObjectStore);
            }
            if i > 0 {
                assert(ts[i as int - 1] == timelines@[i as int - 1]@);
                if !text_before(timelines[i - 1].slug.as_str(), timelines[i].slug.as_str()) {
                    assert(!text_lt(ts[i as int - 1].slug, ts[i as int].slug));
                    return Err(VersioningError::ObjectStore);
                }
                assert forall|a: int| 0 <= a < i implies text_lt(
                    (#[trigger] ts[a]).slug,
                    ts[i as int].slug,
                ) by {
                    if a < i - 1 {
                        lemma_text_lt_transitive(
                            ts[a].slug,
                            ts[i as int - 1].slug,
                            ts[i as int].slug,
                        );
                    }
                }
            }
            i += 1;
        }
        let head_ok: bool = match &head {
            Head::Attached(slug) => {
                if same_text(slug.as_str(), "main") {
                    true
                } else {
                    let mut found: bool = false;
                    let mut k: usize = 0;
                    while k < timelines.len()
                        invariant
                            k <= timelines.len(),
                            ts == timelines@.map_values(|t: Timeline| t@),
                            found <==> exists|j: int| 0 <= j < k && (#[trigger] ts[j]).slug == slug@,
                        decreases timelines.len() - k,
                    {
                        assert(ts[k as int] == timelines@[k as int]@);
                        if same_text(timelines[k].slug.as_str(), slug.as_str()) {
                            found = true;
                        }
                        k += 1;
                    }
                    found
                }
            },
            Head::Detached(c) => store.find_commit(*c).is_some(),
        };
        if !head_ok {
            assert(!want.wf()) by {
                match want.head {
                    HeadData::Attached(slug) => {
                        if want.has_timeline(slug) {
                            let j = want.timeline_index(slug);
                            assert(ts[j].slug == slug);
                        }
                    },
                    HeadData::Detached(_) => {},
                }
            }
            return Err(VersioningError::ObjectStore);
        }
        assert(want.wf()) by {
            match want.head {
                HeadData::Attached(slug) => {
                    if slug != main_slug() {
                        let j = choose|j: int| 0 <= j < ts.len() && (#[trigger] ts[j]).slug == slug;
                        assert(want.timelines[j].slug == slug);
                    }
                },
                HeadData::Detached(_) => {},
            }
        }
        let project = Project { store, work, main, timelines, labels, head, prev_tip, stash };
        assert(project@ == want);
        Ok(project)
    }

    /// The object store.
    pub fn store(&self) -> (r: &ObjectStore)
        ensures
            r@ == self@.store,
    {
        &self.store
    }

    /// The working directory.
    pub fn working_dir(&self) -> (r: &Vec<Entry>)
        ensures
            items_data(r@) == self@.work,
    {
        &self.work
    }

    /// The tip of main, if main has a commit.
    pub fn main_tip(&self) -> (r: Option<ObjectId>)
        ensures
            r == self@.main,
    {
        self.main
    }

    /// The timelines other than main, by slug.
    pub fn timelines(&self) -> (r: &Vec<Timeline>)
        ensures
            r@.map_values(|t: Timeline| t@) == self@.timelines,
    {
        &self.timelines
    }

    /// The label table.
    pub fn labels(&self) -> (r: &Vec<Label>)
        ensures
            r@.map_values(|l: Label| l@) == self@.labels,
    {
        &self.labels
    }

    /// Where the user stands.
    pub fn head(&self) -> (r: &Head)
        ensures
            r@ == self@.head,
    {
        &self.head
    }

    /// The tip that the user went back from, while rewound.
    pub fn prev_tip(&self) -> (r: Option<ObjectId>)
        ensures
            r == self@.prev_tip,
    {
        self.prev_tip
    }

    /// The tree in the stash slot, if one was set aside.
    pub fn stash_slot(&self) -> (r: Option<ObjectId>)
        ensures
            r == self@.stash,
    {
        self.stash
    }

    /// Replaces the content of the working directory. A directory with an
    /// invalid name or with a name twice is refused.
    pub fn set_working_dir(&mut self, entries: Vec<Entry>) -> (r: Result<(), VersioningError>)
        requires
            old(self)@.wf(),
        ensures
            match r {
                Ok(_) => items_wf(items_data(entries@)) && final(self)@ == (ProjectData {
                    work: items_data(entries@),
                    ..old(self)@
                }),
                Err(e) => e == VersioningError::InvalidOperation && !items_wf(items_data(entries@))
                    && final(self)@ == old(self)@,
            },
            final(self)@.wf(),
    {
        if !check_dir(&entries) {
            return Err(VersioningError::InvalidOperation);
        }
        self.work = entries;
        Ok(())
    }

    /// Takes the content of the working directory out, leaving it empty.
    pub fn take_working_dir(&mut self) -> (r: Vec<Entry>)
        ensures
            items_data(r@) == old(self)@.work,
            final(self)@ == (ProjectData { work: Seq::empty(), ..old(self)@ }),
            old(self)@.wf() ==> final(self)@.wf(),
    {
        let mut taken: Vec<Entry> = Vec::new();
        std::mem::swap(&mut self.work, &mut taken);
        assert(items_data(self.work@) =~= Seq::empty());
        taken
    }

    /// Sets the working directory.
    pub(crate) fn put_work(&mut self, entries: Vec<Entry>)
        ensures
            final(self)@ == (ProjectData { work: items_data(entries@), ..old(self)@ }),
    {
        self.work = entries;
    }

    /// Sets where the user stands.
    pub(crate) fn put_head(&mut self, head: Head)
        ensures
            final(self)@ == (ProjectData { head: head@, ..old(self)@ }),
    {
        self.head = head;
    }

    /// Sets or clears the tip that the user went back from.
    pub(crate) fn put_prev_tip(&mut self, tip: Option<ObjectId>)
        ensures
            final(self)@ == (ProjectData { prev_tip: tip, ..old(self)@ }),
    {
        self.prev_tip = tip;
    }

    /// Sets or clears the stash slot.
    pub(crate) fn put_stash(&mut self, tree: Option<ObjectId>)
        ensures
            final(self)@ == (ProjectData { stash: tree, ..old(self)@ }),
    {
        self.stash = tree;
    }

    /// Sets the tip of main.
    pub(crate) fn put_main(&mut self, tip: Option<ObjectId>)
        ensures
            final(self)@ == (ProjectData { main: tip, ..old(self)@ }),
    {
        self.main = tip;
    }

    /// Sets the tip of the timeline at a place.
    pub(crate) fn put_tip(&mut self, at: usize, tip: ObjectId)
        requires
            at < old(self)@.timelines.len(),
        ensures
            final(self)@ == (ProjectData {
                timelines: old(self)@.timelines.update(
                    at as int,
                    TimelineData { slug: old(self)@.timelines[at as int].slug, tip },
                ),
                ..old(self)@
            }),
    {
        let ghost before = self.timelines@;
        let mut moved = Timeline { slug: String::new(), tip };
        std::mem::swap(&mut self.timelines[at].slug, &mut moved.slug);
        self.timelines.set(at, moved);
        assert(self.timelines@.map_values(|t: Timeline| t@) =~= before.map_values(
            |t: Timeline| t@,
        ).update(at as int, TimelineData { slug: before[at as int].slug@, tip }));
    }

    /// Puts a timeline at a place among the timelines.
    pub(crate) fn insert_timeline(&mut self, at: usize, timeline: Timeline)
        requires
            at <= old(self)@.timelines.len(),
        ensures
            final(self)@ == (ProjectData {
                timelines: old(self)@.timelines.insert(at as int, timeline@),
                ..old(self)@
            }),
    {
        let ghost before = self.timelines@;
        self.timelines.insert(at, timeline);
        assert(self.timelines@.map_values(|t: Timeline| t@) =~= before.map_values(
            |t: Timeline| t@,
        ).insert(at as int, timeline@));
    }

    /// Takes the timeline at a place out.
    pub(crate) fn remove_timeline(&mut self, at: usize)
        requires
            at < old(self)@.timelines.len(),
        ensures
            final(self)@ == (ProjectData {
                timelines: old(self)@.timelines.remove(at as int),
                ..old(self)@
            }),
    {
        let ghost before = self.timelines@;
        let _ = self.timelines.remove(at);
        assert(self.timelines@.map_values(|t: Timeline| t@) =~= before.map_values(
            |t: Timeline| t@,
        ).remove(at as int));
    }

    /// Adds a line at the end of the label table.
    pub(crate) fn push_label(&mut self, label: Label)
        ensures
            final(self)@ == (ProjectData { labels: old(self)@.labels.push(label@), ..old(self)@ }),
    {
        let ghost before = self.labels@;
        self.labels.push(label);
        assert(self.labels@.map_values(|l: Label| l@) =~= before.map_values(|l: Label| l@).push(
            label@,
        ));
    }

    /// Replaces the line at a place of the label table.
    pub(crate) fn put_label(&mut self, at: usize, label: Label)
        requires
            at < old(self)@.labels.len(),
        ensures
            final(self)@ == (ProjectData {
                labels: old(self)@.labels.update(at as int, label@),
                ..old(self)@
            }),
    {
        let ghost before = self.labels@;
        self.labels.set(at, label);
        assert(self.labels@.map_values(|l: Label| l@) =~= before.map_values(|l: Label| l@).update(
            at as int,
            label@,
        ));
    }

    /// Takes the line at a place out of the label table.
    pub(crate) fn drop_label(&mut self, at: usize)
        requires
            at < old(self)@.labels.len(),
        ensures
            final(self)@ == (ProjectData {
                labels: old(self)@.labels.remove(at as int),
                ..old(self)@
            }),
    {
        let ghost before = self.labels@;
        let _ = self.labels.remove(at);
        assert(self.labels@.map_values(|l: Label| l@) =~= before.map_values(|l: Label| l@).remove(
            at as int,
        ));
    }

    /// Writes the working directory into the store and returns the name of
    /// its tree.
    pub(crate) fn write_work(&mut self) -> (r: Result<ObjectId, VersioningError>)
        requires
            old(self)@.store.wf(),
            items_wf(old(self)@.work),
        ensures
            final(self)@.store.wf(),
            old(self)@.store.extends_to(final(self)@.store),
            final(self)@ == (ProjectData { store: final(self)@.store, ..old(self)@ }),
            match r {
                Ok(id) => stored(old(self)@.store, NodeData::Dir(old(self)@.work)) == Some(
                    (final(self)@.store, id),
                ) && final(self)@.store.has_tree(id),
                Err(e) => e == VersioningError::ObjectStore && stored(
                    old(self)@.store,
                    NodeData::Dir(old(self)@.work),
                ) is None,
            },
    {
        store_dir(&mut self.store, &self.work)
    }

    /// Stores a commit.
    pub(crate) fn write_commit(
        &mut self,
        tree: ObjectId,
        parent: Option<ObjectId>,
        message: String,
        time: i64,
    ) -> (r: Result<ObjectId, VersioningError>)
        requires
            old(self)@.store.wf(),
        ensures
            final(self)@.store.wf(),
            old(self)@.store.extends_to(final(self)@.store),
            final(self)@ == (ProjectData { store: final(self)@.store, ..old(self)@ }),
            match r {
                Ok(id) => old(self)@.store.admits_commit(tree, parent, time as int, message@)
                    && crate::objects::commit_id(tree, parent, time as int, message@) == Some(id)
                    && final(self)@.store == old(self)@.store.with_commit(
                    tree,
                    parent,
                    time as int,
                    message@,
                ),
                Err(e) => e == VersioningError::ObjectStore && !old(self)@.store.admits_commit(
                    tree,
                    parent,
                    time as int,
                    message@,
                ) && final(self)@.store == old(self)@.store,
            },
    {
        self.store.put_commit(tree, parent, message, time)
    }
}

} // verus!
