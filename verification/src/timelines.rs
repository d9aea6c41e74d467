//! Timelines: creating, listing, switching and deleting them.

use crate::error::VersioningError;
use crate::history::{is_ancestor, walk};
use crate::object_id::{hex_id, ObjectId};
use crate::project::{main_slug, Head, HeadData, Project, ProjectData, Timeline, TimelineData};
use crate::registry::{
    display_label, find_timeline, free_slug, lemma_placed, place_timeline, placed,
    remove_timeline_label, save_timeline_label, tip_of, with_label, without_label,
};
use crate::snapshot::overwrite_from_commit;
use crate::text::{same_text, slug_of, slugify_timeline_name};
use vstd::prelude::*;
use vstd::string::StringExecFns;

verus! {

/// What the user is told of a timeline.
#[derive(Debug)]
pub struct TimelineInfo {
    /// The slug.
    pub name: String,
    /// The name under which the timeline is shown.
    pub label: String,
    /// Whether the user stands on this timeline.
    pub is_active: bool,
    /// How many snapshots lead up to its tip, the tip included.
    pub snapshot_count: usize,
    /// Its place in the listing, by which it is coloured.
    pub color_index: usize,
}

/// A `TimelineInfo` as a mathematical value.
pub struct TimelineInfoData {
    pub name: Seq<char>,
    pub label: Seq<char>,
    pub is_active: bool,
    pub snapshot_count: nat,
    pub color_index: nat,
}

impl View for TimelineInfo {
    type V = TimelineInfoData;

    open spec fn view(&self) -> TimelineInfoData {
        TimelineInfoData {
            name: self.name@,
            label: self.label@,
            is_active: self.is_active,
            snapshot_count: self.snapshot_count as nat,
            color_index: self.color_index as nat,
        }
    }
}

/// The first place from `i` on and below `n` where `p` holds.
pub open spec fn first_from(i: int, n: int, p: spec_fn(int) -> bool) -> Option<int>
    decreases n - i,
{
    if i >= n {
        None
    } else if p(i) {
        Some(i)
    } else {
        first_from(i + 1, n, p)
    }
}

impl ProjectData {
    /// The timelines as they are listed: main first, then the others by
    /// slug. A project without any timeline whose user stands on a commit
    /// lists that commit as main.
    pub open spec fn listed(self) -> Seq<TimelineData> {
        if self.refs().len() == 0 {
            match self.head {
                HeadData::Detached(here) => seq![TimelineData { slug: main_slug(), tip: here }],
                HeadData::Attached(_) => Seq::empty(),
            }
        } else {
            self.refs()
        }
    }

    /// The slug of a listed timeline is the user's.
    pub open spec fn slug_is(self, slug: Seq<char>) -> spec_fn(int) -> bool {
        |i: int| self.listed()[i].slug == slug
    }

    /// The tip of a listed timeline is the commit.
    pub open spec fn tip_is(self, commit: ObjectId) -> spec_fn(int) -> bool {
        |i: int| self.listed()[i].tip == commit
    }

    /// The commit is the tip of a listed timeline or one of the tip's
    /// ancestors.
    pub open spec fn reaches(self, commit: ObjectId) -> spec_fn(int) -> bool {
        |i: int| self.store.is_ancestor(commit, self.listed()[i].tip)
    }

    /// The place in the listing of the timeline that counts as the user's:
    /// the one they stand on; else the first whose tip is their commit; else
    /// the first whose history holds their commit.
    pub open spec fn active_index(self) -> Option<int> {
        let n = self.listed().len() as int;
        match self.head {
            HeadData::Attached(slug) => first_from(0, n, self.slug_is(slug)),
            HeadData::Detached(here) => if self.refs().len() == 0 {
                Some(0)
            } else {
                match first_from(0, n, self.tip_is(here)) {
                    Some(i) => Some(i),
                    None => first_from(0, n, self.reaches(here)),
                }
            },
        }
    }

    /// What the user is told of the timelines.
    pub open spec fn timeline_list(self) -> Seq<TimelineInfoData> {
        Seq::new(
            self.listed().len(),
            |i: int|
                TimelineInfoData {
                    name: self.listed()[i].slug,
                    label: self.display_label(self.listed()[i].slug),
                    is_active: self.active_index() == Some(i),
                    snapshot_count: self.store.history(self.listed()[i].tip).len(),
                    color_index: i as nat,
                },
        )
    }

    /// Every listed tip is in the store.
    pub proof fn lemma_listed_stored(self)
        requires
            self.wf(),
        ensures
            forall|i: int|
                0 <= i < self.listed().len() ==> self.store.has_commit(
                    (#[trigger] self.listed()[i]).tip,
                ),
            self.listed().len() <= self.timelines.len() + 1,
    {
        let l = self.listed();
        assert forall|i: int| 0 <= i < l.len() implies self.store.has_commit(
            (#[trigger] l[i]).tip,
        ) by {
            if self.refs().len() > 0 {
                match self.main {
                    Some(c) => {
                        if i > 0 {
                            assert(l[i] == self.timelines[i - 1]);
                        }
                    },
                    None => {
                        assert(l[i] == self.timelines[i]);
                    },
                }
            }
        }
    }
}

/// The timelines as they are listed, slug and tip.
pub(crate) fn listed_refs(project: &Project) -> (r: Vec<Timeline>)
    requires
        project@.wf(),
    ensures
        r@.map_values(|t: Timeline| t@) == project@.listed(),
{
    let mut refs: Vec<Timeline> = Vec::new();
    let ghost shown = project@.refs();
    match project.main_tip() {
        Some(tip) => {
            refs.push(Timeline { slug: String::from_str("main"), tip });
        },
        None => {},
    }
    let timelines = project.timelines();
    let ghost front = refs@.map_values(|t: Timeline| t@);
    let mut i: usize = 0;
    while i < timelines.len()
        invariant
            i <= timelines.len(),
            timelines@.map_values(|t: Timeline| t@) == project@.timelines,
            refs@.map_values(|t: Timeline| t@) == front + project@.timelines.subrange(0, i as int),
        decreases timelines.len() - i,
    {
        let ghost before = refs@;
        refs.push(Timeline { slug: timelines[i].slug.clone(), tip: timelines[i].tip });
        proof {
            assert(project@.timelines[i as int] == timelines@[i as int]@);
            assert(refs@.map_values(|t: Timeline| t@) =~= before.map_values(|t: Timeline| t@).push(
                project@.timelines[i as int],
            ));
            assert(project@.timelines.subrange(0, i as int + 1) =~= project@.timelines.subrange(
                0,
                i as int,
            ).push(project@.timelines[i as int]));
            assert(refs@.map_values(|t: Timeline| t@) =~= front + project@.timelines.subrange(
                0,
                i as int + 1,
            ));
        }
        i += 1;
    }
    proof {
        assert(project@.timelines.subrange(0, i as int) =~= project@.timelines);
        assert(refs@.map_values(|t: Timeline| t@) =~= shown);
    }
    if refs.len() == 0 {
        match project.head() {
            Head::Detached(here) => {
                refs.push(Timeline { slug: String::from_str("main"), tip: *here });
                assert(refs@.map_values(|t: Timeline| t@) =~= project@.listed());
            },
            Head::Attached(_) => {
                assert(refs@.map_values(|t: Timeline| t@) =~= project@.listed());
            },
        }
    }
    refs
}

/// The place in the listing of the timeline that counts as the user's.
#[verifier::rlimit(30)]
pub(crate) fn active_place(project: &Project, refs: &Vec<Timeline>) -> (r: Option<usize>)
    requires
        project@.wf(),
        refs@.map_values(|t: Timeline| t@) == project@.listed(),
    ensures
        match r {
            Some(i) => project@.active_index() == Some(i as int) && i < refs.len(),
            None => project@.active_index() is None,
        },
{
    let ghost l = project@.listed();
    let n: usize = refs.len();
    match project.head() {
        Head::Attached(slug) => {
            let ghost p = project@.slug_is(slug@);
            let mut i: usize = 0;
            while i < n
                invariant
                    i <= n,
                    n == refs.len(),
                    l == project@.listed(),
                    refs@.map_values(|t: Timeline| t@) == l,
                    project@.head == HeadData::Attached(slug@),
                    p == project@.slug_is(slug@),
                    first_from(0, n as int, p) == first_from(i as int, n as int, p),
                decreases n - i,
            {
                assert(l[i as int] == refs@[i as int]@);
                if same_text(refs[i].slug.as_str(), slug.as_str()) {
                    assert(p(i as int));
                    return Some(i);
                }
                assert(!p(i as int));
                i += 1;
            }
            None
        },
        Head::Detached(here) => {
            if project.main_tip().is_none() && project.timelines().len() == 0 {
                assert(project@.timelines =~= Seq::empty());
                return Some(0);
            }
            assert(project@.refs().len() > 0) by {
                if project@.main is None {
                    assert(project@.timelines.len() > 0);
                }
            }
            let ghost p = project@.tip_is(*here);
            let mut i: usize = 0;
            while i < n
                invariant
                    i <= n,
                    n == refs.len(),
                    l == project@.listed(),
                    refs@.map_values(|t: Timeline| t@) == l,
                    project@.refs().len() > 0,
                    project@.head == HeadData::Detached(*here),
                    p == project@.tip_is(*here),
                    first_from(0, n as int, p) == first_from(i as int, n as int, p),
                decreases n - i,
            {
                assert(l[i as int] == refs@[i as int]@);
                if refs[i].tip == *here {
                    assert(p(i as int));
                    return Some(i);
                }
                assert(!p(i as int));
                i += 1;
            }
            let ghost q = project@.reaches(*here);
            let mut i: usize = 0;
            while i < n
                invariant
                    i <= n,
                    n == refs.len(),
                    l == project@.listed(),
                    refs@.map_values(|t: Timeline| t@) == l,
                    project@.wf(),
                    project@.refs().len() > 0,
                    project@.head == HeadData::Detached(*here),
                    q == project@.reaches(*here),
                    first_from(0, n as int, project@.tip_is(*here)) is None,
                    first_from(0, n as int, q) == first_from(i as int, n as int, q),
                decreases n - i,
            {
                assert(l[i as int] == refs@[i as int]@);
                if is_ancestor(project.store(), *here, refs[i].tip) {
                    assert(q(i as int));
                    return Some(i);
                }
                assert(!q(i as int));
                i += 1;
            }
            None
        },
    }
}

/// Lists the timelines: main first, then the others by slug, each with its
/// label, the number of snapshots that lead up to its tip, and its place in
/// the listing. At most one is marked active: the timeline that the user
/// stands on or, where they stand on none, the first whose tip is their
/// commit or, failing that, the first whose history holds their commit.
#[verifier::rlimit(30)]
pub fn list_timelines(project: &Project) -> (r: Vec<TimelineInfo>)
    requires
        project@.wf(),
    ensures
        r@.map_values(|t: TimelineInfo| t@) == project@.timeline_list(),
{
    let refs = listed_refs(project);
    let active = active_place(project, &refs);
    let ghost want = project@.timeline_list();
    let ghost l = project@.listed();
    proof {
        project@.lemma_listed_stored();
    }
    let mut list: Vec<TimelineInfo> = Vec::new();
    let mut i: usize = 0;
    while i < refs.len()
        invariant
            i <= refs.len(),
            project@.wf(),
            l == project@.listed(),
            want == project@.timeline_list(),
            refs@.map_values(|t: Timeline| t@) == l,
            forall|j: int| 0 <= j < l.len() ==> project@.store.has_commit((#[trigger] l[j]).tip),
            match active {
                Some(a) => project@.active_index() == Some(a as int),
                None => project@.active_index() is None,
            },
            list@.len() == i,
            forall|j: int| 0 <= j < i ==> (#[trigger] list@[j])@ == want[j],
        decreases refs.len() - i,
    {
        assert(l[i as int] == refs@[i as int]@);
        let tip = refs[i].tip;
        let count: usize = match project.store().find_commit(tip) {
            Some(at) => {
                proof {
                    project@.store.lemma_commit_at(at as int);
                }
                walk(project.store(), at).len()
            },
            None => {
                assert(false);
                0
            },
        };
        let is_active: bool = match active {
            Some(a) => a == i,
            None => false,
        };
        list.push(
            TimelineInfo {
                name: refs[i].slug.clone(),
                label: display_label(project, refs[i].slug.as_str()),
                is_active,
                snapshot_count: count,
                color_index: i,
            },
        );
        i += 1;
    }
    assert(list@.map_values(|t: TimelineInfo| t@) =~= want);
    list
}

impl ProjectData {
    /// The project after a timeline was created at a stored commit: the
    /// timeline stands in the registry under the first free slug, labelled
    /// with the name as given; the user stands on it; the commit is checked
    /// out. `None` where no slug is free or the name leaves none.
    pub open spec fn created(self, from: ObjectId, name: Seq<char>) -> Option<ProjectData> {
        match self.free_slug(slug_of(name)) {
            Some(slug) => Some(
                (ProjectData {
                    timelines: placed(self.timelines, TimelineData { slug, tip: from }),
                    labels: with_label(self.labels, slug, name),
                    head: HeadData::Attached(slug),
                    ..self
                }).checked_out(from),
            ),
            None => None,
        }
    }

    /// The project after the user switched to a timeline that has a tip.
    pub open spec fn switched(self, slug: Seq<char>) -> ProjectData {
        (ProjectData { head: HeadData::Attached(slug), ..self }).checked_out(
            self.tip_of(slug).unwrap(),
        )
    }

    /// The project after a timeline other than main was deleted.
    pub open spec fn deleted(self, slug: Seq<char>) -> ProjectData {
        ProjectData {
            timelines: self.timelines.remove(self.timeline_index(slug)),
            labels: without_label(self.labels, slug),
            ..self
        }
    }
}

/// Creates a timeline at a commit and switches to it.
///
/// The slug is derived from the name; where it is taken, `-2`, `-3` and so
/// on are tried behind it. The name as given becomes the label. The user
/// then stands on the new timeline and the commit is checked out. Returns
/// the slug.
///
/// Fails with `NotFound` where the id is no commit id or names no stored
/// commit, and with `InvalidOperation` where the name leaves an empty slug;
/// it succeeds otherwise. A failure changes nothing.
#[verifier::rlimit(30)]
pub fn create_timeline(project: &mut Project, from_commit_id: &str, name: &str) -> (r: Result<
    String,
    VersioningError,
>)
    requires
        old(project)@.wf(),
    ensures
        final(project)@.wf(),
        match r {
            Ok(slug) => match hex_id(from_commit_id@) {
                Some(id) => old(project)@.store.has_commit(id) && old(project)@.created(id, name@)
                    == Some(final(project)@) && old(project)@.free_slug(slug_of(name@)) == Some(
                    slug@,
                ),
                None => false,
            },
            Err(e) => final(project)@ == old(project)@ && match hex_id(from_commit_id@) {
                Some(id) => if old(project)@.store.has_commit(id) {
                    e == VersioningError::InvalidOperation && slug_of(name@).len() == 0
                } else {
                    e == VersioningError::NotFound
                },
                None => e == VersioningError::NotFound,
            },
        },
{
    let ghost before = project@;
    let from = match ObjectId::parse(from_commit_id) {
        Some(id) => id,
        None => {
            return Err(VersioningError::NotFound);
        },
    };
    let at = match project.store().find_commit(from) {
        Some(at) => at,
        None => {
            return Err(VersioningError::NotFound);
        },
    };
    let base = slugify_timeline_name(name);
    let slug = match free_slug(project, base.as_str()) {
        Some(slug) => slug,
        None => {
            return Err(VersioningError::InvalidOperation);
        },
    };
    let ghost t = TimelineData { slug: slug@, tip: from };
    proof {
        lemma_placed(before.timelines, t);
        before.store.lemma_commit_at(at as int);
    }
    place_timeline(project, Timeline { slug: slug.clone(), tip: from });
    save_timeline_label(project, slug.as_str(), name);
    project.put_head(Head::Attached(slug.clone()));
    proof {
        let after = project@;
        let x = choose|x: int| 0 <= x < after.timelines.len() && after.timelines[x] == t;
        assert(after.timelines[x].slug == slug@);
        assert forall|i: int| 0 <= i < after.timelines.len() implies after.store.has_commit(
            (#[trigger] after.timelines[i]).tip,
        ) && after.timelines[i].slug != main_slug() by {
            if after.timelines[i] != t {
                let y = choose|y: int|
                    0 <= y < before.timelines.len() && before.timelines[y] == after.timelines[i];
                assert(before.timelines[y].slug != main_slug());
            }
        }
        assert(after.wf());
    }
    overwrite_from_commit(project, at);
    Ok(slug)
}

/// Switches to a timeline: the user then stands on it and its tip is
/// checked out, which discards unsaved changes. Fails with `NotFound`, and
/// changes nothing, where no timeline with a tip has that slug.
pub fn switch_timeline(project: &mut Project, name: &str) -> (r: Result<(), VersioningError>)
    requires
        old(project)@.wf(),
    ensures
        final(project)@.wf(),
        match r {
            Ok(_) => old(project)@.tip_of(name@) is Some && final(project)@ == old(project)@.switched(name@),
            Err(e) => e == VersioningError::NotFound && old(project)@.tip_of(name@) is None
                && final(project)@ == old(project)@,
        },
{
    let ghost before = project@;
    let tip = match tip_of(project, name) {
        Some(tip) => tip,
        None => {
            return Err(VersioningError::NotFound);
        },
    };
    proof {
        if name@ != main_slug() {
            let i = before.timeline_index(name@);
            assert(before.store.has_commit(before.timelines[i].tip));
        }
    }
    let at = match project.store().find_commit(tip) {
        Some(at) => at,
        None => {
            assert(false);
            return Err(VersioningError::NotFound);
        },
    };
    proof {
        before.store.lemma_commit_at(at as int);
        let next = ProjectData { head: HeadData::Attached(name@), ..before };
        if name@ != main_slug() {
            let i = before.timeline_index(name@);
            assert(next.timelines[i].slug == name@);
        }
        assert(next.wf());
    }
    project.put_head(Head::Attached(String::from_str(name)));
    overwrite_from_commit(project, at);
    Ok(())
}

/// Deletes a timeline and its label. Fails with `InvalidOperation` for
/// main and for the timeline that the user stands on, and with `NotFound`
/// where there is no such timeline. A failure changes nothing.
#[verifier::rlimit(30)]
pub fn delete_timeline(project: &mut Project, name: &str) -> (r: Result<(), VersioningError>)
    requires
        old(project)@.wf(),
    ensures
        final(project)@.wf(),
        match r {
            Ok(_) => name@ != main_slug() && old(project)@.head != HeadData::Attached(name@)
                && old(project)@.has_timeline(name@) && final(project)@ == old(project)@.deleted(
                name@,
            ),
            Err(e) => final(project)@ == old(project)@ && e == (if name@ == main_slug() || old(project)@.head == HeadData::Attached(name@) {
                VersioningError::InvalidOperation
            } else {
                VersioningError::NotFound
            }) && (e == VersioningError::NotFound ==> !old(project)@.has_timeline(name@)),
        },
{
    let ghost before = project@;
    if same_text(name, "main") {
        return Err(VersioningError::InvalidOperation);
    }
    let active: bool = match project.head() {
        Head::Attached(slug) => same_text(slug.as_str(), name),
        Head::Detached(_) => false,
    };
    if active {
        return Err(VersioningError::InvalidOperation);
    }
    let at = match find_timeline(project, name) {
        Some(at) => at,
        None => {
            return Err(VersioningError::NotFound);
        },
    };
    proof {
        before.lemma_timeline_at(at as int);
    }
    project.remove_timeline(at);
    remove_timeline_label(project, name);
    proof {
        let after = project@;
        assert forall|i: int| 0 <= i < after.timelines.len() implies after.store.has_commit(
            (#[trigger] after.timelines[i]).tip,
        ) && after.timelines[i].slug != main_slug() by {
            if i < at {
                assert(after.timelines[i] == before.timelines[i]);
            } else {
                assert(after.timelines[i] == before.timelines[i + 1]);
            }
        }
        assert forall|i: int, j: int| 0 <= i < j < after.timelines.len() implies crate::text::text_lt(
            (#[trigger] after.timelines[i]).slug,
            (#[trigger] after.timelines[j]).slug,
        ) by {
            let x = if i < at { i } else { i + 1 };
            let y = if j < at { j } else { j + 1 };
            assert(after.timelines[i] == before.timelines[x]);
            assert(after.timelines[j] == before.timelines[y]);
        }
        match before.head {
            HeadData::Attached(slug) => {
                if slug != main_slug() {
                    let k = before.timeline_index(slug);
                    let x = if k < at { k } else { k - 1 };
                    assert(after.timelines[x] == before.timelines[k]);
                }
            },
            HeadData::Detached(_) => {},
        }
    }
    Ok(())
}

} // verus!
