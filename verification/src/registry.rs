//! The timeline registry: finding timelines, placing new ones, and the
//! label table.

use crate::object_id::ObjectId;
use crate::project::{
    main_slug, Head, HeadData, Label, LabelData, Project, ProjectData, Timeline, TimelineData,
};
use crate::store::StoreData;
use crate::worktree::items_wf;
use crate::text::{
    decimal_text, lemma_text_lt_irreflexive, lemma_text_lt_total, lemma_text_lt_transitive,
    same_text, text_before, text_lt,
};
use vstd::prelude::*;
use vstd::string::StringExecFns;

verus! {

/// The timelines are in strict order of their slugs.
pub open spec fn timelines_sorted(ts: Seq<TimelineData>) -> bool {
    forall|i: int, j: int|
        0 <= i < j < ts.len() ==> text_lt((#[trigger] ts[i]).slug, (#[trigger] ts[j]).slug)
}

/// The timelines with one more put in its place.
pub open spec fn placed(ts: Seq<TimelineData>, t: TimelineData) -> Seq<TimelineData>
    decreases ts.len(),
{
    if ts.len() == 0 {
        seq![t]
    } else if text_lt(ts.last().slug, t.slug) {
        ts.push(t)
    } else {
        placed(ts.drop_last(), t).push(ts.last())
    }
}

/// The label table with a label set for a slug: its line is replaced where
/// the table has one, and added at the end where it has none.
pub open spec fn with_label(labels: Seq<LabelData>, slug: Seq<char>, text: Seq<char>) -> Seq<
    LabelData,
>
    decreases labels.len(),
{
    if labels.len() == 0 {
        seq![LabelData { slug, text }]
    } else if labels.first().slug == slug {
        seq![LabelData { slug, text }] + labels.drop_first()
    } else {
        seq![labels.first()] + with_label(labels.drop_first(), slug, text)
    }
}

/// The label table without the lines of a slug.
pub open spec fn without_label(labels: Seq<LabelData>, slug: Seq<char>) -> Seq<LabelData>
    decreases labels.len(),
{
    if labels.len() == 0 {
        labels
    } else if labels.first().slug == slug {
        without_label(labels.drop_first(), slug)
    } else {
        seq![labels.first()] + without_label(labels.drop_first(), slug)
    }
}

/// The label that the table holds for a slug, if it holds one.
pub open spec fn label_in(labels: Seq<LabelData>, slug: Seq<char>) -> Option<Seq<char>>
    decreases labels.len(),
{
    if labels.len() == 0 {
        None
    } else if labels.first().slug == slug {
        Some(labels.first().text)
    } else {
        label_in(labels.drop_first(), slug)
    }
}

impl ProjectData {
    /// The name under which a timeline is shown: `Main` for main, the label
    /// from the table for another, and its slug where the table has none.
    pub open spec fn display_label(self, slug: Seq<char>) -> Seq<char> {
        if slug == main_slug() {
            "Main"@
        } else {
            match label_in(self.labels, slug) {
                Some(text) => text,
                None => slug,
            }
        }
    }

    /// A slug that no new timeline may take.
    pub open spec fn slug_taken(self, slug: Seq<char>) -> bool {
        slug == main_slug() || self.has_timeline(slug)
    }

    /// In a well-formed project a slug finds the one place where it stands.
    pub proof fn lemma_timeline_at(self, i: int)
        requires
            timelines_sorted(self.timelines),
            0 <= i < self.timelines.len(),
        ensures
            self.has_timeline(self.timelines[i].slug),
            self.timeline_index(self.timelines[i].slug) == i,
    {
        let k = self.timeline_index(self.timelines[i].slug);
        lemma_text_lt_irreflexive(self.timelines[i].slug);
        if k < i {
            assert(text_lt(self.timelines[k].slug, self.timelines[i].slug));
        } else if i < k {
            assert(text_lt(self.timelines[i].slug, self.timelines[k].slug));
        }
    }

    /// A project stays well formed when only its working directory, its
    /// stash slot and its labels change, to a well-formed directory and a
    /// stored tree.
    pub proof fn lemma_wf_frame(self, next: ProjectData)
        requires
            self.wf(),
            next.store == self.store,
            next.main == self.main,
            next.timelines == self.timelines,
            next.head == self.head,
            next.prev_tip == self.prev_tip,
            items_wf(next.work),
            match next.stash {
                Some(t) => self.store.has_tree(t),
                None => true,
            },
        ensures
            next.wf(),
    {
        match self.head {
            HeadData::Attached(slug) => {
                if slug != main_slug() {
                    let i = self.timeline_index(slug);
                    assert(next.timelines[i].slug == slug);
                }
            },
            HeadData::Detached(c) => {},
        }
    }

    /// A project stays well formed when its store grows.
    pub proof fn lemma_wf_store_grows(self, later: StoreData)
        requires
            self.wf(),
            later.wf(),
            self.store.extends_to(later),
        ensures
            (ProjectData { store: later, ..self }).wf(),
    {
        let next = ProjectData { store: later, ..self };
        match self.main {
            Some(c) => {
                self.store.lemma_found_later(later, 0, c);
            },
            None => {},
        }
        assert forall|i: int| 0 <= i < next.timelines.len() implies later.has_commit(
            (#[trigger] next.timelines[i]).tip,
        ) by {
            self.store.lemma_found_later(later, 0, self.timelines[i].tip);
        }
        match self.head {
            HeadData::Attached(slug) => {
                if slug != main_slug() {
                    let i = self.timeline_index(slug);
                    assert(next.timelines[i].slug == slug);
                }
            },
            HeadData::Detached(c) => {
                self.store.lemma_found_later(later, 0, c);
            },
        }
        match self.prev_tip {
            Some(c) => {
                self.store.lemma_found_later(later, 0, c);
            },
            None => {},
        }
        match self.stash {
            Some(t) => {
                self.store.lemma_found_later(later, 0, t);
            },
            None => {},
        }
    }
}

/// Placing a timeline with a new slug keeps the order; the registry then
/// holds the new timeline and those it held.
#[verifier::rlimit(30)]
pub proof fn lemma_placed(ts: Seq<TimelineData>, t: TimelineData)
    requires
        timelines_sorted(ts),
        forall|i: int| 0 <= i < ts.len() ==> (#[trigger] ts[i]).slug != t.slug,
    ensures
        timelines_sorted(placed(ts, t)),
        placed(ts, t).len() == ts.len() + 1,
        forall|x: int|
            0 <= x < placed(ts, t).len() ==> (#[trigger] placed(ts, t)[x]) == t || ts.contains(
                placed(ts, t)[x],
            ),
        placed(ts, t).contains(t),
        forall|i: int| 0 <= i < ts.len() ==> placed(ts, t).contains(#[trigger] ts[i]),
    decreases ts.len(),
{
    let r = placed(ts, t);
    if ts.len() == 0 {
        assert(r[0] == t);
    } else if text_lt(ts.last().slug, t.slug) {
        assert forall|i: int, j: int| 0 <= i < j < r.len() implies text_lt(
            (#[trigger] r[i]).slug,
            (#[trigger] r[j]).slug,
        ) by {
            if j == ts.len() && i < ts.len() - 1 {
                lemma_text_lt_transitive(ts[i].slug, ts.last().slug, t.slug);
            }
        }
        assert forall|x: int| 0 <= x < r.len() implies (#[trigger] r[x]) == t || ts.contains(
            r[x],
        ) by {
            if x < ts.len() {
                assert(ts[x] == r[x]);
            }
        }
        assert(r[ts.len() as int] == t);
        assert forall|i: int| 0 <= i < ts.len() implies r.contains(#[trigger] ts[i]) by {
            assert(r[i] == ts[i]);
        }
    } else {
        let front = ts.drop_last();
        let last = ts.last();
        let mid = placed(front, t);
        assert forall|i: int| 0 <= i < front.len() implies (#[trigger] front[i]).slug != t.slug by {
            assert(front[i] == ts[i]);
        }
        lemma_placed(front, t);
        lemma_text_lt_total(last.slug, t.slug);
        assert(text_lt(t.slug, last.slug));
        assert forall|x: int| 0 <= x < mid.len() implies text_lt((#[trigger] mid[x]).slug, last.slug) by {
            if mid[x] != t {
                let i = choose|i: int| 0 <= i < front.len() && front[i] == mid[x];
                assert(ts[i] == mid[x]);
            }
        }
        assert forall|x: int| 0 <= x < r.len() implies (#[trigger] r[x]) == t || ts.contains(
            r[x],
        ) by {
            if x < mid.len() {
                assert(r[x] == mid[x]);
                if mid[x] != t {
                    let i = choose|i: int| 0 <= i < front.len() && front[i] == mid[x];
                    assert(ts[i] == mid[x]);
                }
            } else {
                assert(ts[ts.len() - 1] == r[x]);
            }
        }
        let at = choose|x: int| 0 <= x < mid.len() && mid[x] == t;
        assert(r[at] == t);
        assert forall|i: int| 0 <= i < ts.len() implies r.contains(#[trigger] ts[i]) by {
            if i < front.len() {
                assert(mid.contains(front[i]));
                let x = choose|x: int| 0 <= x < mid.len() && mid[x] == front[i];
                assert(r[x] == ts[i]);
            } else {
                assert(r[mid.len() as int] == ts[i]);
            }
        }
        assert forall|i: int, j: int| 0 <= i < j < r.len() implies text_lt(
            (#[trigger] r[i]).slug,
            (#[trigger] r[j]).slug,
        ) by {
            assert(r[i] == mid[i]);
            if j < mid.len() {
                assert(r[j] == mid[j]);
            }
        }
    }
}

/// The place of the timeline with a slug other than main's, if there is one.
pub fn find_timeline(project: &Project, slug: &str) -> (r: Option<usize>)
    ensures
        match r {
            Some(i) => i < project@.timelines.len() && project@.timelines[i as int].slug == slug@
                && project@.has_timeline(slug@),
            None => !project@.has_timeline(slug@),
        },
{
    let timelines = project.timelines();
    let mut i: usize = 0;
    while i < timelines.len()
        invariant
            timelines@.map_values(|t: Timeline| t@) == project@.timelines,
            i <= timelines.len(),
            forall|j: int| 0 <= j < i ==> (#[trigger] project@.timelines[j]).slug != slug@,
        decreases timelines.len() - i,
    {
        assert(project@.timelines[i as int] == timelines@[i as int]@);
        if same_text(timelines[i].slug.as_str(), slug) {
            return Some(i);
        }
        i += 1;
    }
    None
}

/// The commit at the tip of a timeline, main or other.
pub fn tip_of(project: &Project, slug: &str) -> (r: Option<ObjectId>)
    requires
        project@.wf(),
    ensures
        r == project@.tip_of(slug@),
{
    if same_text(slug, "main") {
        project.main_tip()
    } else {
        match find_timeline(project, slug) {
            Some(i) => {
                proof {
                    project@.lemma_timeline_at(i as int);
                }
                let timelines = project.timelines();
                assert(project@.timelines[i as int] == timelines@[i as int]@);
                Some(timelines[i].tip)
            },
            None => None,
        }
    }
}

/// The commit where the user stands; none before the first commit.
pub fn head_commit(project: &Project) -> (r: Option<ObjectId>)
    requires
        project@.wf(),
    ensures
        r == project@.head_commit(),
{
    match project.head() {
        Head::Attached(slug) => tip_of(project, slug.as_str()),
        Head::Detached(id) => Some(*id),
    }
}

/// Puts a timeline with a new slug in its place in the registry.
pub(crate) fn place_timeline(project: &mut Project, timeline: Timeline)
    requires
        timelines_sorted(old(project)@.timelines),
        !old(project)@.has_timeline(timeline@.slug),
    ensures
        final(project)@ == (ProjectData {
            timelines: placed(old(project)@.timelines, timeline@),
            ..old(project)@
        }),
{
    let ghost ts = project@.timelines;
    let ghost t = timeline@;
    let mut at: usize = project.timelines().len();
    proof {
        assert(ts.subrange(0, ts.len() as int) =~= ts);
        assert(placed(ts, t) + ts.subrange(ts.len() as int, ts.len() as int) =~= placed(ts, t));
    }
    while at > 0 && !text_before(project.timelines()[at - 1].slug.as_str(), timeline.slug.as_str())
        invariant
            at <= ts.len(),
            ts == project@.timelines,
            project@ == old(project)@,
            t == timeline@,
            placed(ts, t) == placed(ts.subrange(0, at as int), t) + ts.subrange(
                at as int,
                ts.len() as int,
            ),
        decreases at,
    {
        proof {
            let front = ts.subrange(0, at as int);
            assert(front.last() == ts[at as int - 1]);
            assert(front.drop_last() =~= ts.subrange(0, at as int - 1));
            assert(placed(front, t) == placed(front.drop_last(), t).push(front.last()));
            assert(placed(front.drop_last(), t).push(front.last()) + ts.subrange(
                at as int,
                ts.len() as int,
            ) =~= placed(front.drop_last(), t) + ts.subrange(at as int - 1, ts.len() as int));
        }
        at -= 1;
    }
    proof {
        let front = ts.subrange(0, at as int);
        if at > 0 {
            assert(front.last() == ts[at as int - 1]);
            assert(placed(front, t) == front.push(t));
        } else {
            assert(placed(front, t) =~= front.push(t));
        }
        assert(front.push(t) + ts.subrange(at as int, ts.len() as int) =~= ts.insert(at as int, t));
    }
    project.insert_timeline(at, timeline);
}

/// The place of a slug's line in the label table, if it has one.
pub fn find_label(project: &Project, slug: &str) -> (r: Option<usize>)
    ensures
        match r {
            Some(i) => i < project@.labels.len() && project@.labels[i as int].slug == slug@
                && forall|j: int| 0 <= j < i ==> (#[trigger] project@.labels[j]).slug != slug@,
            None => forall|j: int|
                0 <= j < project@.labels.len() ==> (#[trigger] project@.labels[j]).slug != slug@,
        },
{
    let labels = project.labels();
    let mut i: usize = 0;
    while i < labels.len()
        invariant
            labels@.map_values(|l: Label| l@) == project@.labels,
            i <= labels.len(),
            forall|j: int| 0 <= j < i ==> (#[trigger] project@.labels[j]).slug != slug@,
        decreases labels.len() - i,
    {
        assert(project@.labels[i as int] == labels@[i as int]@);
        if same_text(labels[i].slug.as_str(), slug) {
            return Some(i);
        }
        i += 1;
    }
    None
}

/// What setting a label does to a table, by the place of the slug's line.
pub proof fn lemma_with_label_at(labels: Seq<LabelData>, slug: Seq<char>, text: Seq<char>, at: int)
    requires
        0 <= at <= labels.len(),
        forall|j: int| 0 <= j < at ==> (#[trigger] labels[j]).slug != slug,
        at < labels.len() ==> labels[at].slug == slug,
    ensures
        with_label(labels, slug, text) == if at < labels.len() {
            labels.update(at, LabelData { slug, text })
        } else {
            labels.push(LabelData { slug, text })
        },
        label_in(with_label(labels, slug, text), slug) == Some(text),
        label_in(labels, slug) == if at < labels.len() {
            Some(labels[at].text)
        } else {
            None
        },
    decreases labels.len(),
{
    let l = LabelData { slug, text };
    if labels.len() == 0 {
        assert(seq![l] =~= labels.push(l));
        assert(seq![l].drop_first() =~= Seq::<LabelData>::empty());
    } else if at == 0 {
        assert(seq![l] + labels.drop_first() =~= labels.update(0, l));
    } else {
        let rest = labels.drop_first();
        assert forall|j: int| 0 <= j < at - 1 implies (#[trigger] rest[j]).slug != slug by {
            assert(rest[j] == labels[j + 1]);
        }
        lemma_with_label_at(rest, slug, text, at - 1);
        let r = seq![labels.first()] + with_label(rest, slug, text);
        assert(r.drop_first() =~= with_label(rest, slug, text));
        if at < labels.len() {
            assert(r =~= labels.update(at, l));
        } else {
            assert(r =~= labels.push(l));
        }
    }
}

/// A label that was set is the label that is read.
pub proof fn law_label_set_is_read(labels: Seq<LabelData>, slug: Seq<char>, text: Seq<char>)
    ensures
        label_in(with_label(labels, slug, text), slug) == Some(text),
    decreases labels.len(),
{
    let l = LabelData { slug, text };
    let r = with_label(labels, slug, text);
    if labels.len() == 0 {
        assert(r.first() == l);
    } else if labels.first().slug == slug {
        assert(r.first() == l);
    } else {
        law_label_set_is_read(labels.drop_first(), slug, text);
        assert(r.first() == labels.first());
        assert(r.drop_first() =~= with_label(labels.drop_first(), slug, text));
    }
}

/// Setting a label touches no other slug's label.
pub proof fn law_label_set_alone(
    labels: Seq<LabelData>,
    slug: Seq<char>,
    text: Seq<char>,
    other: Seq<char>,
)
    requires
        other != slug,
    ensures
        label_in(with_label(labels, slug, text), other) == label_in(labels, other),
    decreases labels.len(),
{
    let l = LabelData { slug, text };
    let r = with_label(labels, slug, text);
    if labels.len() == 0 {
        assert(r.first() == l);
        assert(r.drop_first() =~= Seq::<LabelData>::empty());
        assert(label_in(r.drop_first(), other) is None);
    } else if labels.first().slug == slug {
        assert(r.first() == l);
        assert(r.drop_first() =~= labels.drop_first());
    } else {
        law_label_set_alone(labels.drop_first(), slug, text, other);
        assert(r.first() == labels.first());
        assert(r.drop_first() =~= with_label(labels.drop_first(), slug, text));
    }
}

/// Taking a slug's lines out leaves it without a label, and touches no
/// other slug's label.
pub proof fn law_label_taken_out_alone(labels: Seq<LabelData>, slug: Seq<char>, other: Seq<char>)
    ensures
        label_in(without_label(labels, slug), slug) is None,
        other != slug ==> label_in(without_label(labels, slug), other) == label_in(labels, other),
    decreases labels.len(),
{
    if labels.len() > 0 {
        law_label_taken_out_alone(labels.drop_first(), slug, other);
        if labels.first().slug != slug {
            let r = without_label(labels, slug);
            assert(r.first() == labels.first());
            assert(r.drop_first() =~= without_label(labels.drop_first(), slug));
        }
    }
}

/// Sets the label of a slug in the label table.
pub fn save_timeline_label(project: &mut Project, slug: &str, label: &str)
    ensures
        final(project)@ == (ProjectData {
            labels: with_label(old(project)@.labels, slug@, label@),
            ..old(project)@
        }),
{
    let line = Label { slug: String::from_str(slug), text: String::from_str(label) };
    match find_label(project, slug) {
        Some(at) => {
            proof {
                lemma_with_label_at(project@.labels, slug@, label@, at as int);
            }
            project.put_label(at, line);
        },
        None => {
            proof {
                lemma_with_label_at(
                    project@.labels,
                    slug@,
                    label@,
                    project@.labels.len() as int,
                );
            }
            project.push_label(line);
        },
    }
}

/// Taking out a line of the slug, then the rest, is taking out all.
pub proof fn lemma_without_label_remove(labels: Seq<LabelData>, slug: Seq<char>, at: int)
    requires
        0 <= at < labels.len(),
        labels[at].slug == slug,
    ensures
        without_label(labels.remove(at), slug) == without_label(labels, slug),
    decreases labels.len(),
{
    if at == 0 {
        assert(labels.remove(0) =~= labels.drop_first());
    } else {
        let rest = labels.drop_first();
        lemma_without_label_remove(rest, slug, at - 1);
        assert(labels.remove(at).drop_first() =~= rest.remove(at - 1));
        assert(labels.remove(at).first() == labels.first());
    }
}

/// A table without lines of the slug loses nothing.
pub proof fn lemma_without_label_none(labels: Seq<LabelData>, slug: Seq<char>)
    requires
        forall|j: int| 0 <= j < labels.len() ==> (#[trigger] labels[j]).slug != slug,
    ensures
        without_label(labels, slug) == labels,
    decreases labels.len(),
{
    if labels.len() > 0 {
        let rest = labels.drop_first();
        assert forall|j: int| 0 <= j < rest.len() implies (#[trigger] rest[j]).slug != slug by {
            assert(rest[j] == labels[j + 1]);
        }
        lemma_without_label_none(rest, slug);
        assert(seq![labels.first()] + rest =~= labels);
    }
}

/// Takes the label of a slug out of the label table.
pub fn remove_timeline_label(project: &mut Project, slug: &str)
    ensures
        final(project)@ == (ProjectData {
            labels: without_label(old(project)@.labels, slug@),
            ..old(project)@
        }),
{
    loop
        invariant
            project@ == (ProjectData { labels: project@.labels, ..old(project)@ }),
            without_label(project@.labels, slug@) == without_label(old(project)@.labels, slug@),
        ensures
            project@ == (ProjectData {
                labels: without_label(old(project)@.labels, slug@),
                ..old(project)@
            }),
        decreases project@.labels.len(),
    {
        match find_label(project, slug) {
            Some(at) => {
                proof {
                    lemma_without_label_remove(project@.labels, slug@, at as int);
                }
                project.drop_label(at);
            },
            None => {
                proof {
                    lemma_without_label_none(project@.labels, slug@);
                }
                break ;
            },
        }
    }
}

/// The name under which a timeline is shown.
pub fn display_label(project: &Project, slug: &str) -> (r: String)
    ensures
        r@ == project@.display_label(slug@),
{
    if same_text(slug, "main") {
        return String::from_str("Main");
    }
    match find_label(project, slug) {
        Some(at) => {
            proof {
                lemma_with_label_at(project@.labels, slug@, slug@, at as int);
            }
            let labels = project.labels();
            assert(project@.labels[at as int] == labels@[at as int]@);
            labels[at].text.clone()
        },
        None => {
            proof {
                lemma_with_label_at(project@.labels, slug@, slug@, project@.labels.len() as int);
            }
            String::from_str(slug)
        },
    }
}

/// The `n`-th slug tried for a new timeline: the wanted slug itself, then
/// the slug with `-2`, `-3` and so on behind it.
pub open spec fn candidate(base: Seq<char>, n: nat) -> Seq<char> {
    if n <= 1 {
        base
    } else {
        base + seq![crate::text::dash()] + crate::text::decimal(n)
    }
}

impl ProjectData {
    /// The first free slug among the candidates from the `n`-th on, `tries`
    /// more being tried after it.
    pub open spec fn free_from(self, base: Seq<char>, n: nat, tries: nat) -> Option<Seq<char>>
        decreases tries,
    {
        if !self.slug_taken(candidate(base, n)) {
            Some(candidate(base, n))
        } else if tries == 0 {
            None
        } else {
            self.free_from(base, n + 1, (tries - 1) as nat)
        }
    }

    /// The slug that a new timeline gets when `base` is wanted: the first
    /// free one among `base`, `base-2`, `base-3` and so on, two more being
    /// tried than there are timelines, which is enough to find one. An empty
    /// slug is never given.
    pub open spec fn free_slug(self, base: Seq<char>) -> Option<Seq<char>> {
        if base.len() == 0 {
            None
        } else {
            self.free_from(base, 1, self.timelines.len() + 1)
        }
    }

    /// The slugs that are taken: main's and those of the timelines.
    pub open spec fn taken_slugs(self) -> Seq<Seq<char>> {
        seq![main_slug()] + self.timelines.map_values(|t: TimelineData| t.slug)
    }

    /// Where no slug was found free, every candidate that was tried is
    /// taken.
    pub proof fn lemma_none_free(self, base: Seq<char>, n: nat, tries: nat, j: nat)
        requires
            self.free_from(base, n, tries) is None,
            n <= j <= n + tries,
        ensures
            self.slug_taken(candidate(base, j)),
        decreases tries,
    {
        if j > n {
            self.lemma_none_free(base, n + 1, (tries - 1) as nat, j);
        }
    }

    /// For every wanted slug that is not empty a free slug is found.
    pub proof fn lemma_free_slug_found(self, base: Seq<char>)
        requires
            base.len() > 0,
        ensures
            self.free_slug(base) is Some,
            !self.slug_taken(self.free_slug(base).unwrap()),
    {
        let n = self.timelines.len();
        if self.free_slug(base) is None {
            let tried = Seq::new(n + 2, |i: int| candidate(base, (i + 1) as nat));
            let taken = self.taken_slugs();
            assert forall|i: int, j: int|
                0 <= i < tried.len() && 0 <= j < tried.len() && i != j implies tried[i]
                != tried[j] by {
                lemma_candidates_differ(base, (i + 1) as nat, (j + 1) as nat);
            }
            tried.unique_seq_to_set();
            taken.lemma_cardinality_of_set();
            assert forall|s: Seq<char>| tried.to_set().contains(s) implies taken.to_set().contains(
                s,
            ) by {
                let i = choose|i: int| 0 <= i < tried.len() && tried[i] == s;
                self.lemma_none_free(base, 1, n + 1, (i + 1) as nat);
                if s == main_slug() {
                    assert(taken[0] == s);
                } else {
                    let x = self.timeline_index(s);
                    assert(taken[x + 1] == s);
                }
            }
            vstd::seq_lib::seq_to_set_is_finite(taken);
            vstd::set_lib::lemma_len_subset(tried.to_set(), taken.to_set());
            assert(false);
        }
        self.lemma_free_is_not_taken(base, 1, n + 1);
    }

    /// A slug that was found free is not taken.
    pub proof fn lemma_free_is_not_taken(self, base: Seq<char>, n: nat, tries: nat)
        requires
            self.free_from(base, n, tries) is Some,
        ensures
            !self.slug_taken(self.free_from(base, n, tries).unwrap()),
        decreases tries,
    {
        if self.slug_taken(candidate(base, n)) && tries > 0 {
            self.lemma_free_is_not_taken(base, n + 1, (tries - 1) as nat);
        }
    }
}

/// Two candidates for the same wanted slug differ.
pub proof fn lemma_candidates_differ(base: Seq<char>, a: nat, b: nat)
    requires
        a >= 1,
        b >= 1,
        a != b,
    ensures
        candidate(base, a) != candidate(base, b),
{
    crate::text::lemma_decimal_value(a);
    crate::text::lemma_decimal_value(b);
    let x = candidate(base, a);
    let y = candidate(base, b);
    if a >= 2 && b >= 2 {
        if x == y {
            assert(x.skip(base.len() as int + 1) =~= crate::text::decimal(a));
            assert(y.skip(base.len() as int + 1) =~= crate::text::decimal(b));
        }
    } else if a >= 2 {
        assert(x.len() > y.len());
    } else {
        assert(y.len() > x.len());
    }
}

/// Finds the slug that a new timeline gets when `base` is wanted.
pub fn free_slug(project: &Project, base: &str) -> (r: Option<String>)
    ensures
        match r {
            Some(slug) => project@.free_slug(base@) == Some(slug@) && !project@.slug_taken(slug@),
            None => project@.free_slug(base@) is None,
        },
        r is None <==> base@.len() == 0,
{
    if base.unicode_len() == 0 {
        return None;
    }
    proof {
        project@.lemma_free_slug_found(base@);
    }
    let mut tries: u128 = project.timelines().len() as u128 + 1;
    let mut n: u128 = 1;
    loop
        invariant
            n + tries == project@.timelines.len() + 2,
            project@.timelines.len() <= usize::MAX,
            project@.free_slug(base@) is Some,
            n >= 1,
            project@.free_slug(base@) == project@.free_from(base@, n as nat, tries as nat),
        decreases tries,
    {
        let mut slug = String::from_str(base);
        if n > 1 {
            slug.append("-");
            slug.append(decimal_text(n).as_str());
            proof {
                reveal_strlit("-");
                assert("-"@ =~= seq![crate::text::dash()]);
            }
        }
        assert(slug@ == candidate(base@, n as nat));
        let taken: bool = same_text(slug.as_str(), "main") || find_timeline(
            project,
            slug.as_str(),
        ).is_some();
        if !taken {
            return Some(slug);
        }
        if tries == 0 {
            assert(false);
            return None;
        }
        tries -= 1;
        n += 1;
    }
}

} // verus!
