//! The graph of all timelines: every commit within sight, with the timeline
//! that counts as its own.

use crate::history::walk;
use crate::object_id::{is_hex_of, ObjectId};
use crate::project::{main_slug, Project, ProjectData, Timeline};
use crate::registry::head_commit;
use crate::store::{ObjectStore, StoreData};
use crate::text::{trim_text, trimmed};
use crate::timelines::{active_place, listed_refs};
use vstd::prelude::*;
use vstd::string::StringExecFns;

verus! {

/// A commit as the graph shows it.
#[derive(Debug)]
pub struct GraphNode {
    /// The commit id, in hexadecimal.
    pub id: String,
    /// The commit message, trimmed.
    pub message: String,
    /// When the commit was made, in seconds since 1970.
    pub timestamp: i64,
    /// The slug of the timeline that the commit counts to.
    pub timeline: String,
    /// The id of the parent, if the commit has one.
    pub parents: Vec<String>,
    /// The lane of that timeline: its place in the listing.
    pub lane: usize,
    /// Whether the user stands on this commit.
    pub is_head: bool,
}

/// A point of the graph: a commit with the timeline that it counts to.
pub struct Point {
    pub commit: ObjectId,
    pub timeline: Seq<char>,
    pub lane: nat,
    pub is_head: bool,
}

/// The commits of a sequence of points.
pub open spec fn commits_of(points: Seq<Point>) -> Seq<ObjectId> {
    points.map_values(|p: Point| p.commit)
}

/// The part of a chain that a walk claims: its commits up to the first one
/// that was seen before.
pub open spec fn claim(seen: Seq<ObjectId>, chain: Seq<ObjectId>) -> Seq<ObjectId>
    decreases chain.len(),
{
    if chain.len() == 0 || seen.contains(chain.first()) {
        Seq::empty()
    } else {
        seq![chain.first()] + claim(seen.push(chain.first()), chain.drop_first())
    }
}

/// Commits as points of one timeline; the commit where the user stands is
/// marked.
pub open spec fn points_for(
    commits: Seq<ObjectId>,
    timeline: Seq<char>,
    lane: nat,
    head: Option<ObjectId>,
) -> Seq<Point> {
    commits.map_values(
        |c: ObjectId| Point { commit: c, timeline, lane, is_head: head == Some(c) },
    )
}

/// A point, counted to a timeline if it is the given commit.
pub open spec fn recount(p: Point, commit: ObjectId, timeline: Seq<char>, lane: nat) -> Point {
    if p.commit == commit {
        Point { timeline, lane, ..p }
    } else {
        p
    }
}

/// Points in order with one more put in its place: behind every point that
/// is as new or newer.
pub open spec fn insert_by_time(store: StoreData, s: Seq<Point>, p: Point) -> Seq<Point>
    decreases s.len(),
{
    if s.len() == 0 {
        seq![p]
    } else if store.commit(s.last().commit).time >= store.commit(p.commit).time {
        s.push(p)
    } else {
        insert_by_time(store, s.drop_last(), p).push(s.last())
    }
}

/// The points, newest first; points of the same time keep their order.
pub open spec fn newest_first(store: StoreData, s: Seq<Point>) -> Seq<Point>
    decreases s.len(),
{
    if s.len() == 0 {
        s
    } else {
        insert_by_time(store, newest_first(store, s.drop_last()), s.last())
    }
}

impl ProjectData {
    /// The points claimed by the walks along the first `k` listed
    /// timelines: each walk goes from the tip towards the first commit and
    /// stops at a commit that an earlier walk claimed.
    pub open spec fn claimed(self, k: nat) -> Seq<Point>
        decreases k,
    {
        if k == 0 || k > self.listed().len() {
            Seq::empty()
        } else {
            let before = self.claimed((k - 1) as nat);
            let t = self.listed()[k - 1];
            before + points_for(
                claim(commits_of(before), self.store.history(t.tip)),
                t.slug,
                (k - 1) as nat,
                self.head_commit(),
            )
        }
    }

    /// The slug of the timeline that counts as the user's; main where none
    /// does.
    pub open spec fn active_slug(self) -> Seq<char> {
        match self.active_index() {
            Some(i) => self.listed()[i].slug,
            None => main_slug(),
        }
    }

    /// The lane of the timeline that counts as the user's.
    pub open spec fn active_lane(self) -> nat {
        match self.active_index() {
            Some(i) => i as nat,
            None => 0,
        }
    }

    /// The claimed points and, while rewound, the commits between the tip
    /// that was left and the claimed ones, counted to the user's timeline.
    pub open spec fn in_sight(self) -> Seq<Point> {
        let walked = self.claimed(self.listed().len());
        match self.prev_tip {
            Some(tip) => walked + points_for(
                claim(commits_of(walked), self.store.history(tip)),
                self.active_slug(),
                self.active_lane(),
                None,
            ),
            None => walked,
        }
    }

    /// The points in sight, the commit where the user stands counted to the
    /// user's timeline whoever claimed it.
    pub open spec fn attributed(self) -> Seq<Point> {
        match (self.head_commit(), self.active_index()) {
            (Some(here), Some(i)) => self.in_sight().map_values(
                |p: Point| recount(p, here, self.listed()[i].slug, i as nat),
            ),
            _ => self.in_sight(),
        }
    }

    /// The graph: the attributed points, newest first.
    pub open spec fn graph(self) -> Seq<Point> {
        newest_first(self.store, self.attributed())
    }
}

/// A node shows a point.
pub open spec fn shows(node: GraphNode, store: StoreData, p: Point) -> bool {
    &&& is_hex_of(node.id@, p.commit)
    &&& node.message@ == trimmed(store.commit(p.commit).message)
    &&& node.timestamp == store.commit(p.commit).time
    &&& node.timeline@ == p.timeline
    &&& node.lane == p.lane
    &&& node.is_head == p.is_head
    &&& match store.commit(p.commit).parent {
        Some(parent) => node.parents@.len() == 1 && is_hex_of(node.parents@[0]@, parent),
        None => node.parents@.len() == 0,
    }
}

/// A point while the graph is built, with the place and the time of its
/// commit. Its view is the point alone; `mark_ok` ties place and time to the
/// commit in the store.
struct Mark {
    place: usize,
    commit: ObjectId,
    time: i64,
    timeline: String,
    lane: usize,
    is_head: bool,
}

impl View for Mark {
    type V = Point;

    closed spec fn view(&self) -> Point {
        Point {
            commit: self.commit,
            timeline: self.timeline@,
            lane: self.lane as nat,
            is_head: self.is_head,
        }
    }
}

/// A mark holds the place and time of its commit.
spec fn mark_ok(m: Mark, store: StoreData) -> bool {
    &&& m.place < store.commits.len()
    &&& store.commits[m.place as int].id == m.commit
    &&& store.commits[m.place as int].time == m.time
}

spec fn points_of(marks: Seq<Mark>) -> Seq<Point> {
    marks.map_values(|m: Mark| m@)
}

/// The flags tell, place by place, which commits are among those seen.
spec fn flags_tell(flags: Seq<bool>, store: StoreData, seen: Seq<ObjectId>) -> bool {
    &&& flags.len() == store.commits.len()
    &&& forall|i: int| 0 <= i < flags.len() ==> (#[trigger] flags[i] <==> seen.contains(store.commits[i].id))
}

/// Walks a chain and claims what no walk claimed before.
#[verifier::rlimit(30)]
fn claim_chain(
    store: &ObjectStore,
    flags: &mut Vec<bool>,
    marks: &mut Vec<Mark>,
    start: usize,
    timeline: &str,
    lane: usize,
    head: Option<ObjectId>,
)
    requires
        store@.wf(),
        start < store@.commits.len(),
        flags_tell(old(flags)@, store@, commits_of(points_of(old(marks)@))),
        forall|i: int| 0 <= i < old(marks)@.len() ==> mark_ok(#[trigger] old(marks)@[i], store@),
    ensures
        points_of(final(marks)@) == points_of(old(marks)@) + points_for(
            claim(commits_of(points_of(old(marks)@)), store@.chain_at(start as int)),
            timeline@,
            lane as nat,
            head,
        ),
        flags_tell(final(flags)@, store@, commits_of(points_of(final(marks)@))),
        forall|i: int| 0 <= i < final(marks)@.len() ==> mark_ok(#[trigger] final(marks)@[i], store@),
{
    let places = walk(store, start);
    let ghost chain = store@.chain_at(start as int);
    let ghost first = points_of(marks@);
    let ghost seen = commits_of(first);
    let ghost mut taken: Seq<ObjectId> = Seq::empty();
    let mut j: usize = 0;
    proof {
        assert(chain.skip(0) =~= chain);
        assert(seen + taken =~= seen);
        assert(points_for(taken, timeline@, lane as nat, head) =~= Seq::<Point>::empty());
        assert(first + Seq::<Point>::empty() =~= first);
        assert(taken + claim(seen, chain) =~= claim(seen, chain));
    }
    while j < places.len()
        invariant
            j <= places.len(),
            store@.wf(),
            chain == store@.chain_at(start as int),
            places@.len() == chain.len(),
            forall|k: int|
                0 <= k < places@.len() ==> (#[trigger] places@[k]) < store@.commits.len()
                    && store@.commits[places@[k] as int].id == chain[k],
            points_of(marks@) == first + points_for(taken, timeline@, lane as nat, head),
            commits_of(points_of(marks@)) == seen + taken,
            claim(seen, chain) == taken + claim(seen + taken, chain.skip(j as int)),
            flags_tell(flags@, store@, seen + taken),
            forall|i: int| 0 <= i < marks@.len() ==> mark_ok(#[trigger] marks@[i], store@),
        ensures
            points_of(marks@) == first + points_for(claim(seen, chain), timeline@, lane as nat, head),
            flags_tell(flags@, store@, commits_of(points_of(marks@))),
            forall|i: int| 0 <= i < marks@.len() ==> mark_ok(#[trigger] marks@[i], store@),
        decreases places.len() - j,
    {
        let place = places[j];
        let commit = store.commit_at(place);
        let ghost c = chain[j as int];
        proof {
            assert(chain.skip(j as int).first() == c);
            assert(chain.skip(j as int).drop_first() =~= chain.skip(j as int + 1));
        }
        if flags[place] {
            proof {
                assert((seen + taken).contains(c));
                assert(taken + Seq::<ObjectId>::empty() =~= taken);
            }
            break ;
        }
        let is_head: bool = match head {
            Some(here) => here == commit.id,
            None => false,
        };
        let ghost before = marks@;
        let ghost flags_before = flags@;
        marks.push(
            Mark {
                place,
                commit: commit.id,
                time: commit.time,
                timeline: String::from_str(timeline),
                lane,
                is_head,
            },
        );
        flags.set(place, true);
        proof {
            let grown = taken.push(c);
            let p = Point { commit: c, timeline: timeline@, lane: lane as nat, is_head };
            assert(points_of(marks@) =~= points_of(before).push(p));
            assert(points_for(grown, timeline@, lane as nat, head) =~= points_for(
                taken,
                timeline@,
                lane as nat,
                head,
            ).push(p));
            assert(points_of(marks@) =~= first + points_for(grown, timeline@, lane as nat, head));
            assert(commits_of(points_of(marks@)) =~= seen + grown);
            assert((seen + taken).push(c) =~= seen + grown);
            assert(taken + (seq![c] + claim(seen + grown, chain.skip(j as int + 1))) =~= grown
                + claim(seen + grown, chain.skip(j as int + 1)));
            assert forall|i: int| 0 <= i < flags@.len() implies (#[trigger] flags@[i] <==> (seen
                + grown).contains(store@.commits[i].id)) by {
                if i == place {
                    assert((seen + grown)[(seen + grown).len() - 1] == c);
                } else {
                    assert(flags@[i] == flags_before[i]);
                    assert(store@.commits[i].id != c);
                    if (seen + grown).contains(store@.commits[i].id) {
                        let x = choose|x: int|
                            0 <= x < (seen + grown).len() && (seen + grown)[x]
                                == store@.commits[i].id;
                        assert((seen + taken)[x] == store@.commits[i].id);
                    }
                    if (seen + taken).contains(store@.commits[i].id) {
                        let x = choose|x: int|
                            0 <= x < (seen + taken).len() && (seen + taken)[x]
                                == store@.commits[i].id;
                        assert((seen + grown)[x] == store@.commits[i].id);
                    }
                }
            }
            taken = grown;
        }
        j += 1;
    }
    proof {
        if j == places.len() {
            assert(chain.skip(j as int) =~= Seq::<ObjectId>::empty());
            assert(taken + Seq::<ObjectId>::empty() =~= taken);
        }
    }
}

/// Puts a mark in its place among marks that are newest first.
#[verifier::rlimit(30)]
fn insert_mark(sorted: &mut Vec<Mark>, mark: Mark, Ghost(store): Ghost<StoreData>)
    requires
        store.wf(),
        mark_ok(mark, store),
        forall|i: int| 0 <= i < old(sorted)@.len() ==> mark_ok(#[trigger] old(sorted)@[i], store),
    ensures
        points_of(final(sorted)@) == insert_by_time(store, points_of(old(sorted)@), mark@),
        forall|i: int| 0 <= i < final(sorted)@.len() ==> mark_ok(#[trigger] final(sorted)@[i], store),
{
    let ghost s = points_of(sorted@);
    let ghost p = mark@;
    let ghost before = sorted@;
    let mut at: usize = sorted.len();
    proof {
        store.lemma_commit_at(mark.place as int);
        assert(s.subrange(0, s.len() as int) =~= s);
        assert(insert_by_time(store, s, p) + s.subrange(s.len() as int, s.len() as int)
            =~= insert_by_time(store, s, p));
    }
    while at > 0 && sorted[at - 1].time < mark.time
        invariant
            at <= sorted.len(),
            sorted@ == before,
            s == points_of(sorted@),
            p == mark@,
            store.wf(),
            mark_ok(mark, store),
            store.commit(p.commit).time == mark.time,
            forall|i: int| 0 <= i < sorted@.len() ==> mark_ok(#[trigger] sorted@[i], store),
            insert_by_time(store, s, p) == insert_by_time(store, s.subrange(0, at as int), p)
                + s.subrange(at as int, s.len() as int),
        decreases at,
    {
        proof {
            let front = s.subrange(0, at as int);
            assert(front.last() == s[at as int - 1]);
            assert(s[at as int - 1] == sorted@[at as int - 1]@);
            assert(mark_ok(sorted@[at as int - 1], store));
            store.lemma_commit_at(sorted@[at as int - 1].place as int);
            assert(front.drop_last() =~= s.subrange(0, at as int - 1));
            assert(insert_by_time(store, front, p) == insert_by_time(
                store,
                front.drop_last(),
                p,
            ).push(front.last()));
            assert(insert_by_time(store, front.drop_last(), p).push(front.last()) + s.subrange(
                at as int,
                s.len() as int,
            ) =~= insert_by_time(store, front.drop_last(), p) + s.subrange(
                at as int - 1,
                s.len() as int,
            ));
        }
        at -= 1;
    }
    proof {
        let front = s.subrange(0, at as int);
        if at > 0 {
            assert(front.last() == s[at as int - 1]);
            assert(s[at as int - 1] == sorted@[at as int - 1]@);
            assert(mark_ok(sorted@[at as int - 1], store));
            store.lemma_commit_at(sorted@[at as int - 1].place as int);
            assert(insert_by_time(store, front, p) == front.push(p));
        } else {
            assert(insert_by_time(store, front, p) =~= front.push(p));
        }
        assert(front.push(p) + s.subrange(at as int, s.len() as int) =~= s.insert(at as int, p));
    }
    sorted.insert(at, mark);
    proof {
        assert(points_of(sorted@) =~= s.insert(at as int, p));
        assert forall|i: int| 0 <= i < sorted@.len() implies mark_ok(
            #[trigger] sorted@[i],
            store,
        ) by {
            if i < at {
                assert(sorted@[i] == before[i]);
            } else if i > at {
                assert(sorted@[i] == before[i - 1]);
            }
        }
    }
}

/// Builds the graph of all timelines.
///
/// The timelines are walked in the order of their listing, each from its
/// tip towards the first commit; a walk stops at a commit that an earlier
/// walk claimed, so a commit shared by several timelines counts to the first
/// of them. While the project is rewound, the commits between the tip that
/// was left and the claimed ones are added and count to the user's
/// timeline. The commit where the user stands counts to the user's timeline
/// whoever claimed it, and it alone is marked as head. The nodes come newest
/// first.
#[verifier::rlimit(30)]
pub fn get_timeline_graph(project: &Project) -> (r: Vec<GraphNode>)
    requires
        project@.wf(),
    ensures
        r@.len() == project@.graph().len(),
        forall|k: int|
            0 <= k < r@.len() ==> shows(#[trigger] r@[k], project@.store, project@.graph()[k]),
{
    let store = project.store();
    let refs = listed_refs(project);
    let active = active_place(project, &refs);
    let head = head_commit(project);
    let ghost l = project@.listed();
    proof {
        project@.lemma_listed_stored();
        project@.lemma_head_stored();
    }
    let mut flags: Vec<bool> = Vec::new();
    let mut i: usize = 0;
    while i < store.commit_count()
        invariant
            i <= store@.commits.len(),
            flags@.len() == i,
            forall|j: int| 0 <= j < i ==> !(#[trigger] flags@[j]),
        decreases store@.commits.len() - i,
    {
        flags.push(false);
        i += 1;
    }
    let mut marks: Vec<Mark> = Vec::new();
    assert(points_of(marks@) =~= Seq::<Point>::empty());
    assert(commits_of(points_of(marks@)) =~= Seq::<ObjectId>::empty());
    let mut k: usize = 0;
    while k < refs.len()
        invariant
            k <= refs.len(),
            project@.wf(),
            store@ == project@.store,
            l == project@.listed(),
            refs@.map_values(|t: Timeline| t@) == l,
            head == project@.head_commit(),
            forall|j: int| 0 <= j < l.len() ==> project@.store.has_commit((#[trigger] l[j]).tip),
            points_of(marks@) == project@.claimed(k as nat),
            flags_tell(flags@, store@, commits_of(points_of(marks@))),
            forall|j: int| 0 <= j < marks@.len() ==> mark_ok(#[trigger] marks@[j], store@),
        decreases refs.len() - k,
    {
        assert(l[k as int] == refs@[k as int]@);
        match store.find_commit(refs[k].tip) {
            Some(start) => {
                proof {
                    store@.lemma_commit_at(start as int);
                }
                claim_chain(store, &mut flags, &mut marks, start, refs[k].slug.as_str(), k, head);
            },
            None => {
                assert(false);
            },
        }
        k += 1;
    }
    match project.prev_tip() {
        Some(tip) => {
            let (slug, lane): (String, usize) = match active {
                Some(a) => {
                    assert(l[a as int] == refs@[a as int]@);
                    (refs[a].slug.clone(), a)
                },
                None => (String::from_str("main"), 0),
            };
            match store.find_commit(tip) {
                Some(start) => {
                    proof {
                        store@.lemma_commit_at(start as int);
                    }
                    claim_chain(store, &mut flags, &mut marks, start, slug.as_str(), lane, None);
                    proof {
                        let walked = project@.claimed(l.len());
                        let got = claim(commits_of(walked), store@.history(tip));
                        assert(points_for(got, slug@, lane as nat, None) =~= points_for(
                            got,
                            project@.active_slug(),
                            project@.active_lane(),
                            None,
                        ));
                    }
                },
                None => {
                    assert(false);
                },
            }
        },
        None => {},
    }
    assert(points_of(marks@) == project@.in_sight());
    let ghost sight = project@.in_sight();
    match (head, active) {
        (Some(here), Some(a)) => {
            assert(l[a as int] == refs@[a as int]@);
            let ghost slug = l[a as int].slug;
            let mut i: usize = 0;
            while i < marks.len()
                invariant
                    i <= marks.len(),
                    a < refs.len(),
                    refs@[a as int]@.slug == slug,
                    marks@.len() == sight.len(),
                    forall|j: int|
                        0 <= j < i ==> (#[trigger] marks@[j])@ == recount(
                            sight[j],
                            here,
                            slug,
                            a as nat,
                        ),
                    forall|j: int| i <= j < marks@.len() ==> (#[trigger] marks@[j])@ == sight[j],
                    forall|j: int| 0 <= j < marks@.len() ==> mark_ok(#[trigger] marks@[j], store@),
                decreases marks.len() - i,
            {
                if marks[i].commit == here {
                    let ghost before = marks@;
                    let fixed = Mark {
                        place: marks[i].place,
                        commit: marks[i].commit,
                        time: marks[i].time,
                        timeline: refs[a].slug.clone(),
                        lane: a,
                        is_head: marks[i].is_head,
                    };
                    marks.set(i, fixed);
                    assert forall|j: int| 0 <= j < marks@.len() && j != i implies marks@[j]
                        == before[j] by {}
                }
                i += 1;
            }
            assert(points_of(marks@) =~= project@.attributed());
        },
        _ => {},
    }
    assert(points_of(marks@) == project@.attributed());
    let ghost all = project@.attributed();
    let mut sorted: Vec<Mark> = Vec::new();
    let ghost mut done: nat = 0;
    proof {
        assert(all.take(0) =~= Seq::<Point>::empty());
        assert(points_of(sorted@) =~= Seq::<Point>::empty());
        assert(all.skip(0) =~= all);
    }
    while marks.len() > 0
        invariant
            store@.wf(),
            done <= all.len(),
            points_of(marks@) == all.skip(done as int),
            points_of(sorted@) == newest_first(store@, all.take(done as int)),
            forall|j: int| 0 <= j < marks@.len() ==> mark_ok(#[trigger] marks@[j], store@),
            forall|j: int| 0 <= j < sorted@.len() ==> mark_ok(#[trigger] sorted@[j], store@),
        decreases marks.len(),
    {
        let ghost before = marks@;
        let mark = marks.remove(0);
        proof {
            assert(mark == before[0]);
            assert(points_of(before).len() == before.len());
            assert(all.skip(done as int).len() == all.len() - done);
            assert(points_of(before)[0] == before[0]@);
            assert(all.skip(done as int)[0] == all[done as int]);
            assert(mark@ == all[done as int]);
            assert forall|j: int| 0 <= j < marks@.len() implies (#[trigger] points_of(marks@)[j])
                == all.skip(done as int + 1)[j] by {
                assert(marks@[j] == before[j + 1]);
                assert(points_of(before)[j + 1] == before[j + 1]@);
                assert(all.skip(done as int)[j + 1] == all[done as int + 1 + j]);
            }
            assert(points_of(marks@) =~= all.skip(done as int + 1));
            assert(all.take(done as int + 1).drop_last() =~= all.take(done as int));
            assert(all.take(done as int + 1).last() == all[done as int]);
            assert forall|j: int| 0 <= j < marks@.len() implies mark_ok(
                #[trigger] marks@[j],
                store@,
            ) by {
                assert(marks@[j] == before[j + 1]);
            }
        }
        insert_mark(&mut sorted, mark, Ghost(store@));
        proof {
            done = done + 1;
        }
    }
    proof {
        assert(all.take(all.len() as int) =~= all);
    }
    let ghost want = project@.graph();
    let mut nodes: Vec<GraphNode> = Vec::new();
    let mut i: usize = 0;
    while i < sorted.len()
        invariant
            i <= sorted.len(),
            store@ == project@.store,
            store@.wf(),
            want == project@.graph(),
            points_of(sorted@) == want,
            forall|j: int| 0 <= j < sorted@.len() ==> mark_ok(#[trigger] sorted@[j], store@),
            nodes@.len() == i,
            forall|j: int| 0 <= j < i ==> shows(#[trigger] nodes@[j], store@, want[j]),
        decreases sorted.len() - i,
    {
        let mark = &sorted[i];
        assert(mark@ == want[i as int]);
        assert(mark_ok(*mark, store@));
        let commit = store.commit_at(mark.place);
        proof {
            store@.lemma_commit_at(mark.place as int);
        }
        let mut parents: Vec<String> = Vec::new();
        match commit.parent {
            Some(parent) => {
                parents.push(parent.to_hex());
            },
            None => {},
        }
        nodes.push(
            GraphNode {
                id: commit.id.to_hex(),
                message: trim_text(commit.message.as_str()),
                timestamp: commit.time,
                timeline: mark.timeline.clone(),
                parents,
                lane: mark.lane,
                is_head: mark.is_head,
            },
        );
        i += 1;
    }
    nodes
}

} // verus!
