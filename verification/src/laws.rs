//! What holds of the operations together.

use crate::canonical::{kept, lemma_stored_content};
use crate::graph::{claim, commits_of, newest_first, points_for, Point};
use crate::graph_laws::{
    law_graph_holds_the_histories, lemma_claim_is_prefix, lemma_claimed, lemma_commits_after_insert,
    lemma_newest_first,
    lemma_commits_of_points_for, lemma_history_no_duplicates, lemma_history_suffix, lemma_stop,
    lemma_walk_closes, on_a_timeline,
};
use crate::navigate::{first_tip, lemma_first_tip};
use crate::object_id::ObjectId;
use crate::project::{main_slug, HeadData, ProjectData, TimelineData};
use crate::registry::{law_label_set_alone, law_label_set_is_read, lemma_placed, placed};
use crate::snapshot::{fork_base, fork_label_text};
use crate::timelines::first_from;
use crate::store::StoreData;
use crate::worktree::{
    hidden_only, lemma_hidden_front_stored, lemma_hidden_only_members, lemma_rebuild,
    lemma_stored_again, lemma_stored_grows, lemma_stored_name, stored, tree_items, NodeData,
};
use vstd::prelude::*;

verus! {

/// Determinism: two commits of the same working directory, on top of the
/// same commit, with the same message at the same time, have the same id,
/// whatever else the two projects hold.
pub proof fn law_commit_id_is_determined(
    p: ProjectData,
    q: ProjectData,
    message: Seq<char>,
    time: int,
)
    requires
        p.work == q.work,
        p.head_commit() == q.head_commit(),
        p.commit_parts(message, time) is Some,
        q.commit_parts(message, time) is Some,
    ensures
        p.commit_parts(message, time).unwrap().1 == q.commit_parts(message, time).unwrap().1,
{
    lemma_stored_name(p.store, q.store, NodeData::Dir(p.work));
}

/// What a successful commit leaves behind, whether it forked or not: the
/// user stands on the new commit, whose parent is the commit they stood on
/// and whose tree is the working directory's; the project is well formed
/// and not rewound.
#[verifier::rlimit(30)]
pub proof fn law_commit_moves_head(
    p: ProjectData,
    message: Seq<char>,
    fork_label: Option<Seq<char>>,
    time: int,
)
    requires
        p.wf(),
        p.committed(message, fork_label, time) is Some,
    ensures
        ({
            let q = p.committed(message, fork_label, time).unwrap();
            let id = p.commit_parts(message, time).unwrap().1;
            &&& q.wf()
            &&& q.head_commit() == Some(id)
            &&& q.store.has_commit(id)
            &&& q.store.commit(id).parent == p.head_commit()
            &&& q.store.commit(id).message == message
            &&& q.store.commit(id).time == time
            &&& Some(q.store.commit(id).tree) == match stored(p.store, NodeData::Dir(p.work)) {
                Some((_, tree)) => Some(tree),
                None => None,
            }
            &&& q.work == p.work
            &&& p.store.extends_to(q.store)
            &&& (p.prev_tip is None ==> q.prev_tip is None)
        }),
{
    let q = p.committed(message, fork_label, time).unwrap();
    let (store, id) = p.commit_parts(message, time).unwrap();
    let (mid, tree) = stored(p.store, NodeData::Dir(p.work)).unwrap();
    lemma_stored_grows(p.store, NodeData::Dir(p.work));
    mid.lemma_with_commit(tree, p.head_commit(), time, message);
    p.store.lemma_extends_transitive(mid, store);
    p.lemma_wf_store_grows(store);
    let grown = ProjectData { store, ..p };
    if p.prev_tip is None {
        match p.head {
            HeadData::Attached(slug) => {
                if slug != main_slug() {
                    let at = p.timeline_index(slug);
                    grown.lemma_timeline_at(at);
                    assert(q.timelines[at].slug == slug);
                    assert forall|i: int, j: int|
                        0 <= i < j < q.timelines.len() implies crate::text::text_lt(
                        (#[trigger] q.timelines[i]).slug,
                        (#[trigger] q.timelines[j]).slug,
                    ) by {
                        assert(q.timelines[i].slug == p.timelines[i].slug);
                        assert(q.timelines[j].slug == p.timelines[j].slug);
                    }
                    assert forall|i: int| 0 <= i < q.timelines.len() implies q.store.has_commit(
                        (#[trigger] q.timelines[i]).tip,
                    ) && q.timelines[i].slug != main_slug() by {
                        if i != at {
                            assert(q.timelines[i] == grown.timelines[i]);
                        } else {
                            assert(q.timelines[i].slug == grown.timelines[i].slug);
                        }
                    }
                    q.lemma_timeline_at(at);
                }
            },
            HeadData::Detached(_) => {},
        }
    } else {
        let slug = p.free_slug(crate::snapshot::fork_base(time)).unwrap();
        p.lemma_free_is_not_taken(crate::snapshot::fork_base(time), 1, p.timelines.len() + 1);
        let t = TimelineData { slug, tip: id };
        lemma_placed(p.timelines, t);
        let at = choose|x: int| 0 <= x < q.timelines.len() && q.timelines[x] == t;
        assert(q.timelines[at].slug == slug);
        assert forall|i: int| 0 <= i < q.timelines.len() implies q.store.has_commit(
            (#[trigger] q.timelines[i]).tip,
        ) && q.timelines[i].slug != main_slug() by {
            if q.timelines[i] != t {
                let x = choose|x: int| 0 <= x < p.timelines.len() && p.timelines[x] == q.timelines[i];
                assert(grown.store.has_commit(grown.timelines[x].tip));
                assert(p.timelines[x].slug != main_slug());
            }
        }
        q.lemma_timeline_at(at);
    }
}

/// After a commit every timeline that was listed is listed still, with
/// the tip that it had or, where the user stood on its tip, with the new
/// commit.
#[verifier::rlimit(30)]
pub proof fn lemma_listed_after_commit(
    p: ProjectData,
    message: Seq<char>,
    fork_label: Option<Seq<char>>,
    time: int,
    i: int,
) -> (j: int)
    requires
        p.wf(),
        p.committed(message, fork_label, time) is Some,
        0 <= i < p.listed().len(),
    ensures
        ({
            let q = p.committed(message, fork_label, time).unwrap();
            let id = p.commit_parts(message, time).unwrap().1;
            &&& 0 <= j < q.listed().len()
            &&& q.listed()[j].tip == p.listed()[i].tip || (q.listed()[j].tip == id && p.head_commit()
                == Some(p.listed()[i].tip))
        }),
{
    let q = p.committed(message, fork_label, time).unwrap();
    let id = p.commit_parts(message, time).unwrap().1;
    let off: int = if p.main is Some { 1 } else { 0 };
    if p.prev_tip is None {
        match p.head {
            HeadData::Attached(slug) => {
                if slug == main_slug() {
                    if p.main is Some {
                        assert(q.listed()[i] == if i == 0 {
                            TimelineData { slug: main_slug(), tip: id }
                        } else {
                            p.listed()[i]
                        });
                        i
                    } else {
                        assert(p.refs().len() > 0);
                        assert(q.listed()[i + 1] == p.listed()[i]);
                        i + 1
                    }
                } else {
                    let at = p.timeline_index(slug);
                    p.lemma_timeline_at(at);
                    assert(p.refs().len() > 0);
                    if i == at + off {
                        assert(p.listed()[i] == p.timelines[at]);
                        assert(q.listed()[i] == q.timelines[at]);
                    } else if i >= off {
                        assert(p.listed()[i] == p.timelines[i - off]);
                        assert(q.listed()[i] == q.timelines[i - off]);
                    } else {
                        assert(q.listed()[i] == p.listed()[i]);
                    }
                    i
                }
            },
            HeadData::Detached(here) => {
                i
            },
        }
    } else {
        let fork = p.free_slug(crate::snapshot::fork_base(time)).unwrap();
        let t = TimelineData { slug: fork, tip: id };
        p.lemma_free_is_not_taken(crate::snapshot::fork_base(time), 1, p.timelines.len() + 1);
        lemma_placed(p.timelines, t);
        if p.refs().len() > 0 {
            if i < off {
                assert(q.listed()[0] == p.listed()[0]);
                0
            } else {
                assert(p.listed()[i] == p.timelines[i - off]);
                assert(q.timelines.contains(p.timelines[i - off]));
                let x = choose|x: int| 0 <= x < q.timelines.len() && q.timelines[x] == p.timelines[i
                    - off];
                assert(q.listed()[x + off] == q.timelines[x]);
                x + off
            }
        } else {
            assert(p.timelines.len() == 0);
            assert(q.timelines.len() == 1);
            assert(q.timelines.contains(t));
            assert(q.timelines[0] == t);
            assert(q.listed()[0] == t);
            0
        }
    }
}

/// A commit keeps history in sight. After a commit the graph holds every
/// commit that it held, provided that the tip remembered by a rewound
/// project lies on a listed timeline. The new commit is in the graph
/// wherever the user then stands on a timeline.
///
/// Left out is a rewound project whose remembered tip no timeline holds:
/// the fork forgets that tip. `law_commit_off_every_timeline` tells where
/// such a tip comes from.
#[verifier::rlimit(30)]
pub proof fn law_commit_keeps_history(
    p: ProjectData,
    message: Seq<char>,
    fork_label: Option<Seq<char>>,
    time: int,
)
    requires
        p.wf(),
        p.committed(message, fork_label, time) is Some,
        match p.prev_tip {
            Some(tip) => on_a_timeline(p, tip),
            None => true,
        },
    ensures
        ({
            let q = p.committed(message, fork_label, time).unwrap();
            let id = p.commit_parts(message, time).unwrap().1;
            &&& forall|c: ObjectId|
                commits_of(p.graph()).contains(c) ==> commits_of(q.graph()).contains(c)
            &&& q.head is Attached ==> commits_of(q.graph()).contains(id)
        }),
{
    let q = p.committed(message, fork_label, time).unwrap();
    let id = p.commit_parts(message, time).unwrap().1;
    law_commit_moves_head(p, message, fork_label, time);
    p.lemma_listed_stored();
    q.store.lemma_history_unfold(id);
    assert forall|c: ObjectId| commits_of(p.graph()).contains(c) implies commits_of(
        q.graph(),
    ).contains(c) by {
        law_graph_holds_the_histories(p, c);
        law_graph_holds_the_histories(q, c);
        if !on_a_timeline(p, c) {
            let tip = p.prev_tip.unwrap();
            let i = choose|i: int|
                0 <= i < p.listed().len() && #[trigger] p.store.is_ancestor(tip, p.listed()[i].tip);
            let chain = p.store.history(p.listed()[i].tip);
            let a = choose|a: int| 0 <= a < chain.len() && chain[a] == tip;
            lemma_history_suffix(p.store, p.listed()[i].tip, a);
            let k = choose|k: int| 0 <= k < chain.skip(a).len() && chain.skip(a)[k] == c;
            assert(chain[a + k] == c);
            assert(p.store.is_ancestor(c, p.listed()[i].tip));
        }
        let i = choose|i: int|
            0 <= i < p.listed().len() && #[trigger] p.store.is_ancestor(c, p.listed()[i].tip);
        let was = p.listed()[i].tip;
        p.store.lemma_history_later(q.store, was);
        let j = lemma_listed_after_commit(p, message, fork_label, time, i);
        if q.listed()[j].tip != was {
            let k = choose|k: int| 0 <= k < q.store.history(was).len() && q.store.history(was)[k]
                == c;
            assert(q.store.history(id)[k + 1] == c);
        }
        assert(q.store.is_ancestor(c, q.listed()[j].tip));
    }
    if q.head is Attached {
        law_graph_holds_the_histories(q, id);
        let slug = q.head->Attached_0;
        assert(q.tip_of(slug) == Some(id));
        assert(q.refs().len() > 0);
        if slug == main_slug() {
            assert(q.listed()[0].tip == id);
            assert(q.store.is_ancestor(id, q.listed()[0].tip));
        } else {
            let at = q.timeline_index(slug);
            let off: int = if q.main is Some { 1 } else { 0 };
            assert(q.listed()[at + off] == q.timelines[at]);
            assert(q.store.is_ancestor(id, q.listed()[at + off].tip));
        }
    }
}

/// A commit made while the user stands on no timeline and is not rewound
/// joins no timeline: no timeline moves, the user stands on the new commit
/// alone, and the commit, unless it was stored before, lies on no timeline.
/// It is within sight by the user's position only, and as the remembered tip
/// once the user goes back from it, until they commit again.
pub proof fn law_commit_off_every_timeline(
    p: ProjectData,
    message: Seq<char>,
    fork_label: Option<Seq<char>>,
    time: int,
)
    requires
        p.wf(),
        p.prev_tip is None,
        p.head is Detached,
        p.committed(message, fork_label, time) is Some,
    ensures
        ({
            let q = p.committed(message, fork_label, time).unwrap();
            let id = p.commit_parts(message, time).unwrap().1;
            &&& q.refs() == p.refs()
            &&& q.head == HeadData::Detached(id)
            &&& q.prev_tip is None
            &&& !p.store.has_commit(id) ==> forall|i: int|
                0 <= i < q.refs().len() ==> !q.store.is_ancestor(id, (#[trigger] q.refs()[i]).tip)
        }),
{
    let q = p.committed(message, fork_label, time).unwrap();
    let id = p.commit_parts(message, time).unwrap().1;
    law_commit_moves_head(p, message, fork_label, time);
    if !p.store.has_commit(id) {
        assert forall|i: int| 0 <= i < q.refs().len() implies !q.store.is_ancestor(
            id,
            (#[trigger] q.refs()[i]).tip,
        ) by {
            lemma_ref_tip(p, i);
            let tip = p.refs()[i].tip;
            assert(p.store.has_commit(tip)) by {
                if p.main is Some && i == 0 {
                } else {
                    let off: int = if p.main is Some { 1 } else { 0 };
                    assert(p.refs()[i] == p.timelines[i - off]);
                }
            }
            p.store.lemma_history_later(q.store, tip);
            if p.store.is_ancestor(id, tip) {
                p.store.lemma_ancestor_stored(id, tip);
            }
        }
    }
}

/// Linear append, one commit: after a successful commit the list of
/// versions is the new commit followed by the list as it was, and the
/// working directory holds no unsaved change.
pub proof fn law_commit_appends(
    p: ProjectData,
    message: Seq<char>,
    fork_label: Option<Seq<char>>,
    time: int,
)
    requires
        p.wf(),
        p.committed(message, fork_label, time) is Some,
    ensures
        p.committed(message, fork_label, time).unwrap().versions() == seq![
            p.commit_parts(message, time).unwrap().1,
        ] + p.versions(),
        p.committed(message, fork_label, time).unwrap().dirty() == Some(false),
{
    let q = p.committed(message, fork_label, time).unwrap();
    let id = p.commit_parts(message, time).unwrap().1;
    law_commit_moves_head(p, message, fork_label, time);
    q.store.lemma_history_unfold(id);
    match p.head_commit() {
        Some(here) => {
            p.lemma_head_stored();
            p.store.lemma_history_later(q.store, here);
        },
        None => {},
    }
    let (mid, tree) = stored(p.store, NodeData::Dir(p.work)).unwrap();
    lemma_stored_grows(p.store, NodeData::Dir(p.work));
    mid.lemma_with_commit(tree, p.head_commit(), time, message);
    lemma_stored_again(p.store, NodeData::Dir(p.work), q.store);
}

/// What a save is made with.
pub struct Save {
    pub message: Seq<char>,
    pub fork_label: Option<Seq<char>>,
    pub time: int,
}

/// The project after a run of commits, one after the other; `None` where
/// one of them fails.
pub open spec fn after_saves(p: ProjectData, saves: Seq<Save>) -> Option<ProjectData>
    decreases saves.len(),
{
    if saves.len() == 0 {
        Some(p)
    } else {
        match after_saves(p, saves.drop_last()) {
            Some(q) => q.committed(saves.last().message, saves.last().fork_label, saves.last().time),
            None => None,
        }
    }
}

/// Linear append: after a run of N successful commits the list of versions
/// is N entries longer, the entries that were there coming last, and the
/// project is well formed. From a project just made, the list has exactly N
/// entries.
pub proof fn law_linear_append(p: ProjectData, saves: Seq<Save>)
    requires
        p.wf(),
        after_saves(p, saves) is Some,
    ensures
        after_saves(p, saves).unwrap().wf(),
        after_saves(p, saves).unwrap().versions().len() == p.versions().len() + saves.len(),
        after_saves(p, saves).unwrap().versions().skip(saves.len() as int) == p.versions(),
        p == ProjectData::fresh() ==> after_saves(p, saves).unwrap().versions().len()
            == saves.len(),
        saves.len() > 0 ==> after_saves(p, saves).unwrap().dirty() == Some(false),
    decreases saves.len(),
{
    if saves.len() == 0 {
        assert(p.versions().skip(0) =~= p.versions());
    } else {
        let q = after_saves(p, saves.drop_last()).unwrap();
        law_linear_append(p, saves.drop_last());
        let last = saves.last();
        law_commit_moves_head(q, last.message, last.fork_label, last.time);
        law_commit_appends(q, last.message, last.fork_label, last.time);
        let r = q.committed(last.message, last.fork_label, last.time).unwrap();
        assert(r.versions().skip(saves.len() as int) =~= q.versions().skip(saves.len() - 1));
    }
}

/// The ids of the commits that a run of saves makes, in the order of the
/// saves.
pub open spec fn saved_ids(p: ProjectData, saves: Seq<Save>) -> Seq<ObjectId>
    decreases saves.len(),
{
    if saves.len() == 0 {
        Seq::empty()
    } else {
        let before = saved_ids(p, saves.drop_last());
        match after_saves(p, saves.drop_last()) {
            Some(q) => match q.commit_parts(saves.last().message, saves.last().time) {
                Some((_, id)) => before.push(id),
                None => before,
            },
            None => before,
        }
    }
}

/// Linear append, place by place: after a run of N successful commits the
/// list of versions starts with the N new commits, the last made first,
/// each stored with the message and the time of its save; the entries that
/// were there follow. Where no save carries an earlier time than the save
/// before it, the new entries come newest first by their times as well.
#[verifier::rlimit(30)]
pub proof fn law_versions_by_position(p: ProjectData, saves: Seq<Save>)
    requires
        p.wf(),
        after_saves(p, saves) is Some,
    ensures
        ({
            let r = after_saves(p, saves).unwrap();
            let ids = saved_ids(p, saves);
            let n = saves.len() as int;
            &&& ids.len() == n
            &&& r.versions().len() == n + p.versions().len()
            &&& r.versions().skip(n) == p.versions()
            &&& forall|i: int|
                0 <= i < n ==> {
                    &&& (#[trigger] r.versions()[i]) == ids[n - 1 - i]
                    &&& r.store.has_commit(ids[n - 1 - i])
                    &&& r.store.commit(ids[n - 1 - i]).message == saves[n - 1 - i].message
                    &&& r.store.commit(ids[n - 1 - i]).time == saves[n - 1 - i].time
                }
            &&& (forall|a: int, b: int|
                0 <= a < b < n ==> (#[trigger] saves[a]).time <= (#[trigger] saves[b]).time)
                ==> forall|i: int, j: int|
                0 <= i < j < n ==> r.store.commit(#[trigger] r.versions()[i]).time >= r.store.commit(
                    #[trigger] r.versions()[j],
                ).time
        }),
    decreases saves.len(),
{
    let n = saves.len() as int;
    law_linear_append(p, saves);
    if n > 0 {
        let front = saves.drop_last();
        let last = saves.last();
        let q = after_saves(p, front).unwrap();
        let r = after_saves(p, saves).unwrap();
        law_linear_append(p, front);
        law_versions_by_position(p, front);
        law_commit_moves_head(q, last.message, last.fork_label, last.time);
        law_commit_appends(q, last.message, last.fork_label, last.time);
        let id = q.commit_parts(last.message, last.time).unwrap().1;
        let was = saved_ids(p, front);
        let ids = saved_ids(p, saves);
        assert(ids == was.push(id));
        assert forall|i: int| 0 <= i < n implies {
            &&& (#[trigger] r.versions()[i]) == ids[n - 1 - i]
            &&& r.store.has_commit(ids[n - 1 - i])
            &&& r.store.commit(ids[n - 1 - i]).message == saves[n - 1 - i].message
            &&& r.store.commit(ids[n - 1 - i]).time == saves[n - 1 - i].time
        } by {
            if i > 0 {
                assert(r.versions()[i] == q.versions()[i - 1]);
                assert(q.versions()[i - 1] == was[n - 1 - i]);
                assert(front[n - 1 - i] == saves[n - 1 - i]);
                q.store.lemma_extends_keeps(r.store, was[n - 1 - i]);
            }
        }
    }
}

/// Round trip: with a commit checked out, writing the working directory
/// changes nothing in the store and gives the commit's tree. Hidden entries
/// of the working directory do not count.
pub proof fn law_checkout_round_trip(p: ProjectData, commit: ObjectId)
    requires
        p.wf(),
        p.store.has_commit(commit),
    ensures
        stored(p.checked_out(commit).store, NodeData::Dir(p.checked_out(commit).work)) == Some(
            (p.store, p.store.commit(commit).tree),
        ),
        p.checked_out(commit).wf(),
{
    p.store.lemma_commit_index(commit);
    assert(p.store.commit_ok(p.store.commit_index(commit)));
    lemma_tree_round_trip(p, p.store.commit(commit).tree);
}

/// With a stored tree written over the working directory, writing the
/// working directory changes nothing in the store and gives that tree.
pub proof fn lemma_tree_round_trip(p: ProjectData, tree: ObjectId)
    requires
        p.wf(),
        p.store.has_tree(tree),
    ensures
        stored(p.store, NodeData::Dir(p.with_tree_checked_out(tree).work)) == Some((p.store, tree)),
        p.with_tree_checked_out(tree).wf(),
        hidden_only(p.with_tree_checked_out(tree).work) == hidden_only(p.work),
{
    p.store.lemma_tree_index(tree);
    let index = p.store.tree_index(tree);
    lemma_rebuild(p.store, index);
    lemma_hidden_only_members(p.work);
    lemma_hidden_front_stored(p.store, hidden_only(p.work), tree_items(p.store, index));
    p.lemma_checked_out_wf(tree);
    crate::worktree::lemma_tree_items_visible(p.store, index);
    lemma_hidden_only_of_mixed(hidden_only(p.work), tree_items(p.store, index));
}

/// The hidden part of hidden items followed by visible ones is the hidden
/// items.
pub proof fn lemma_hidden_only_of_mixed(
    front: Seq<crate::worktree::ItemData>,
    rest: Seq<crate::worktree::ItemData>,
)
    requires
        forall|i: int| 0 <= i < front.len() ==> crate::names::hidden_name(#[trigger] front[i].name),
        forall|i: int| 0 <= i < rest.len() ==> !crate::names::hidden_name(#[trigger] rest[i].name),
    ensures
        hidden_only(front + rest) == front,
    decreases rest.len(),
{
    if rest.len() == 0 {
        assert(front + rest =~= front);
        crate::worktree::lemma_hidden_only_all(front);
    } else {
        let all = front + rest;
        assert(all.last() == rest.last());
        assert(all.drop_last() =~= front + rest.drop_last());
        lemma_hidden_only_of_mixed(front, rest.drop_last());
    }
}

/// Stash round trip: set the working directory aside, check any commit out,
/// bring back what was set aside. The slot is then empty. The working
/// directory holds the hidden entries that were there, followed by its
/// visible content as it was: every file with its bytes, every directory in
/// the order of a listing and without hidden entries below the top. It is
/// written under the very name under which it was set aside.
pub proof fn law_stash_round_trip(p: ProjectData, other: ObjectId)
    requires
        p.wf(),
        p.stashed() is Some,
        p.store.has_commit(other),
    ensures
        ({
            let set_aside = p.stashed().unwrap();
            let back = set_aside.checked_out(other).popped();
            &&& back.wf()
            &&& back.stash is None
            &&& back.work == hidden_only(p.work) + kept(p.work)
            &&& hidden_only(back.work) == hidden_only(p.work)
            &&& stored(back.store, NodeData::Dir(back.work)) == Some(
                (back.store, set_aside.stash.unwrap()),
            )
            &&& stored(p.store, NodeData::Dir(p.work)).unwrap().1 == set_aside.stash.unwrap()
        }),
{
    let set_aside = p.stashed().unwrap();
    let tree = set_aside.stash.unwrap();
    lemma_stored_grows(p.store, NodeData::Dir(p.work));
    p.lemma_wf_store_grows(set_aside.store);
    (ProjectData { store: set_aside.store, ..p }).lemma_wf_frame(set_aside);
    p.store.lemma_found_later(set_aside.store, 0, other);
    set_aside.store.lemma_commit_index(other);
    assert(set_aside.store.commit_ok(set_aside.store.commit_index(other)));
    let away = set_aside.checked_out(other);
    lemma_tree_round_trip(set_aside, set_aside.store.commit(other).tree);
    lemma_tree_round_trip(away, tree);
    let back = away.popped();
    away.with_tree_checked_out(tree).lemma_wf_frame(back);
    lemma_stored_content(p.store, NodeData::Dir(p.work));
}

/// Bringing back from an empty slot changes nothing.
pub proof fn law_pop_of_nothing(p: ProjectData)
    requires
        p.stash is None,
    ensures
        p.popped() == p,
{
}

/// In a well-formed project every slug of the registry leads to its tip.
pub proof fn lemma_ref_tip(p: ProjectData, i: int)
    requires
        p.wf(),
        0 <= i < p.refs().len(),
    ensures
        p.tip_of(p.refs()[i].slug) == Some(p.refs()[i].tip),
        p.refs()[i].slug == main_slug() || p.has_timeline(p.refs()[i].slug),
{
    match p.main {
        Some(c) => {
            if i > 0 {
                assert(p.refs()[i] == p.timelines[i - 1]);
                p.lemma_timeline_at(i - 1);
            }
        },
        None => {
            assert(p.refs()[i] == p.timelines[i]);
            p.lemma_timeline_at(i);
        },
    }
}

/// Going to a stored commit from a position that has one keeps the project
/// well formed, and the user then stands on the target.
pub proof fn lemma_navigated(p: ProjectData, target: ObjectId)
    requires
        p.wf(),
        p.store.has_commit(target),
        p.head_commit() is Some,
    ensures
        p.navigated(target).wf(),
        p.navigated(target).head_commit() == Some(target),
        p.navigated(target).store == p.store,
        p.navigated(target).main == p.main,
        p.navigated(target).timelines == p.timelines,
        p.navigated(target).labels == p.labels,
        p.navigated(target).stash == p.stash,
{
    let here = p.head_commit().unwrap();
    p.lemma_head_stored();
    p.store.lemma_commit_index(target);
    assert(p.store.commit_ok(p.store.commit_index(target)));
    if target == here {
        p.lemma_checked_out_wf(p.store.commit(target).tree);
    } else {
        let saved = if p.store.is_ancestor(target, here) && p.prev_tip is None {
            Some(here)
        } else {
            p.prev_tip
        };
        let prev_tip = if saved == Some(target) {
            None
        } else {
            saved
        };
        let head = match first_tip(p.refs(), target) {
            Some(slug) => HeadData::Attached(slug),
            None => HeadData::Detached(target),
        };
        let moved = ProjectData { prev_tip, head, ..p };
        lemma_first_tip(p.refs(), target);
        match first_tip(p.refs(), target) {
            Some(slug) => {
                let i = choose|i: int|
                    0 <= i < p.refs().len() && (#[trigger] p.refs()[i]).slug == slug
                        && p.refs()[i].tip == target;
                lemma_ref_tip(p, i);
                if slug != main_slug() {
                    let x = p.timeline_index(slug);
                    assert(moved.timelines[x].slug == slug);
                }
            },
            None => {},
        }
        assert(moved.wf());
        moved.lemma_checked_out_wf(p.store.commit(target).tree);
    }
}

/// What the tips are once a timeline with a new slug was placed.
pub proof fn lemma_tips_after_placed(p: ProjectData, t: TimelineData, slug: Seq<char>)
    requires
        p.wf(),
        !p.slug_taken(t.slug),
    ensures
        (ProjectData { timelines: placed(p.timelines, t), ..p }).tip_of(slug) == if slug
            == t.slug {
            Some(t.tip)
        } else {
            p.tip_of(slug)
        },
{
    let q = ProjectData { timelines: placed(p.timelines, t), ..p };
    lemma_placed(p.timelines, t);
    if slug == main_slug() {
    } else if slug == t.slug {
        let x = choose|x: int| 0 <= x < q.timelines.len() && q.timelines[x] == t;
        q.lemma_timeline_at(x);
    } else if p.has_timeline(slug) {
        let i = p.timeline_index(slug);
        p.lemma_timeline_at(i);
        assert(q.timelines.contains(p.timelines[i]));
        let x = choose|x: int| 0 <= x < q.timelines.len() && q.timelines[x] == p.timelines[i];
        q.lemma_timeline_at(x);
    } else {
        if q.has_timeline(slug) {
            let x = q.timeline_index(slug);
            assert(q.timelines[x] == t || p.timelines.contains(q.timelines[x]));
            if q.timelines[x] != t {
                let i = choose|i: int| 0 <= i < p.timelines.len() && p.timelines[i] == q.timelines[x];
                assert(p.timelines[i].slug == slug);
            }
        }
    }
}

/// Putting the points newest first neither adds a commit nor loses one.
pub proof fn lemma_newest_first_members(store: StoreData, s: Seq<Point>, c: ObjectId)
    ensures
        commits_of(newest_first(store, s)).contains(c) <==> commits_of(s).contains(c),
        newest_first(store, s).len() == s.len(),
    decreases s.len(),
{
    if s.len() > 0 {
        let front = s.drop_last();
        lemma_newest_first_members(store, front, c);
        lemma_commits_after_insert(store, newest_first(store, front), s.last(), c);
        lemma_newest_first(store, s);
        assert(commits_of(s) =~= commits_of(front).push(s.last().commit));
        assert(commits_of(s)[front.len() as int] == s.last().commit);
        if commits_of(front).contains(c) {
            let i = choose|i: int| 0 <= i < commits_of(front).len() && commits_of(front)[i] == c;
            assert(commits_of(s)[i] == c);
        }
        if commits_of(s).contains(c) {
            let i = choose|i: int| 0 <= i < commits_of(s).len() && commits_of(s)[i] == c;
            if i < front.len() {
                assert(commits_of(front)[i] == c);
            }
        }
    }
}

/// Which commits the walks claim depends on the store and on the listed
/// timelines alone.
pub proof fn lemma_claimed_commits(p: ProjectData, q: ProjectData, k: nat)
    requires
        p.store == q.store,
        p.listed() == q.listed(),
    ensures
        commits_of(p.claimed(k)) == commits_of(q.claimed(k)),
    decreases k,
{
    if k == 0 || k > p.listed().len() {
        assert(commits_of(p.claimed(k)) =~= commits_of(q.claimed(k)));
    } else {
        lemma_claimed_commits(p, q, (k - 1) as nat);
        let a = p.claimed((k - 1) as nat);
        let b = q.claimed((k - 1) as nat);
        let t = p.listed()[k - 1];
        let got = claim(commits_of(a), p.store.history(t.tip));
        assert(commits_of(p.claimed(k)) =~= commits_of(a) + got);
        assert(commits_of(q.claimed(k)) =~= commits_of(b) + got);
    }
}

/// The commits of the graph are those in sight.
pub proof fn lemma_graph_commits(p: ProjectData, c: ObjectId)
    ensures
        commits_of(p.graph()).contains(c) <==> commits_of(p.in_sight()).contains(c),
        p.graph().len() == p.in_sight().len(),
{
    lemma_newest_first_members(p.store, p.attributed(), c);
    assert(commits_of(p.attributed()) =~= commits_of(p.in_sight()));
}

/// Rewinding is not destructive. When the user goes to an ancestor of the
/// commit on which they stand, the list of versions ends at that ancestor,
/// the project is rewound and remembers the tip that was left first, no
/// timeline has moved, and the graph still holds every commit that it held.
///
/// Left out are the target on which the user stands already, the target
/// that is the remembered tip, at which a rewind ends, and a rewound
/// project without any timeline.
#[verifier::rlimit(30)]
pub proof fn law_rewind_keeps_history(p: ProjectData, target: ObjectId)
    requires
        p.wf(),
        p.head_commit() is Some,
        p.store.is_ancestor(target, p.head_commit().unwrap()),
        target != p.head_commit().unwrap(),
        p.prev_tip != Some(target),
        p.prev_tip is Some ==> p.refs().len() > 0,
    ensures
        ({
            let q = p.navigated(target);
            &&& q.wf()
            &&& q.versions() == p.store.history(target)
            &&& q.is_rewound()
            &&& q.prev_tip == match p.prev_tip {
                Some(tip) => Some(tip),
                None => p.head_commit(),
            }
            &&& q.refs() == p.refs()
            &&& forall|c: ObjectId|
                commits_of(p.graph()).contains(c) ==> commits_of(q.graph()).contains(c)
        }),
{
    let q = p.navigated(target);
    let here = p.head_commit().unwrap();
    p.store.lemma_ancestor_stored(target, here);
    lemma_navigated(p, target);
    if p.refs().len() > 0 {
        assert(q.listed() == p.listed());
        let n = p.listed().len();
        lemma_claimed_commits(p, q, n);
        let seen = commits_of(p.claimed(n));
        assert forall|c: ObjectId| commits_of(p.graph()).contains(c) implies commits_of(
            q.graph(),
        ).contains(c) by {
            lemma_graph_commits(p, c);
            lemma_graph_commits(q, c);
            let i = choose|i: int|
                0 <= i < commits_of(p.in_sight()).len() && commits_of(p.in_sight())[i] == c;
            match p.prev_tip {
                Some(tip) => {
                    let got = claim(seen, p.store.history(tip));
                    lemma_commits_of_points_for(got, p.active_slug(), p.active_lane(), None);
                    lemma_commits_of_points_for(got, q.active_slug(), q.active_lane(), None);
                    assert(commits_of(p.in_sight()) =~= seen + got);
                    assert(commits_of(q.in_sight()) =~= seen + got);
                },
                None => {
                    assert(commits_of(q.claimed(n))[i] == c);
                    assert(commits_of(q.in_sight())[i] == c);
                },
            }
        }
    } else {
        assert(p.head == HeadData::Detached(here)) by {
            match p.head {
                HeadData::Attached(slug) => {
                    if slug != main_slug() && p.has_timeline(slug) {
                        let i = p.timeline_index(slug);
                        assert(p.refs()[i] == p.timelines[i]);
                    }
                },
                HeadData::Detached(_) => {},
            }
        }
        assert(q.head == HeadData::Detached(target));
        let left = TimelineData { slug: main_slug(), tip: here };
        let now = TimelineData { slug: main_slug(), tip: target };
        assert(p.listed() =~= seq![left]);
        assert(q.listed() =~= seq![now]);
        lemma_claimed(q, 1);
        let seen = commits_of(q.claimed(1));
        lemma_walk_closes(p.store, seen, here);
        let more = claim(seen, p.store.history(here));
        lemma_commits_of_points_for(more, q.active_slug(), q.active_lane(), None);
        assert(commits_of(q.in_sight()) =~= seen + more);
        lemma_history_no_duplicates(p.store, here);
        assert(Seq::<ObjectId>::empty() + Seq::<ObjectId>::empty() =~= Seq::<ObjectId>::empty());
        lemma_claim_is_prefix(Seq::empty(), Seq::empty(), p.store.history(here));
        lemma_stop(Seq::empty(), p.store.history(here));
        let first = claim(Seq::<ObjectId>::empty(), p.store.history(here));
        lemma_commits_of_points_for(first, main_slug(), 0, p.head_commit());
        assert(p.claimed(0) =~= Seq::<Point>::empty());
        assert(commits_of(p.claimed(0)) =~= Seq::<ObjectId>::empty());
        assert(p.claimed(1) =~= points_for(first, main_slug(), 0, p.head_commit()));
        assert forall|c: ObjectId| commits_of(p.graph()).contains(c) implies commits_of(
            q.graph(),
        ).contains(c) by {
            lemma_graph_commits(p, c);
            lemma_graph_commits(q, c);
            assert(commits_of(p.in_sight()) == first);
            let i = choose|i: int| 0 <= i < first.len() && first[i] == c;
            assert(p.store.history(here)[i] == c);
            assert(p.store.history(here).contains(c));
        }
    }
}

/// While rewound, the tip that was left is remembered until the user
/// returns to it: going anywhere else leaves the memory alone, and arriving
/// at the tip clears it.
pub proof fn law_rewound_until_return(p: ProjectData, target: ObjectId)
    requires
        p.wf(),
        p.is_rewound(),
        p.head_commit() is Some,
        p.store.has_commit(target),
    ensures
        p.navigated(target).wf(),
        p.navigated(target).head_commit() == Some(target),
        target != p.head_commit().unwrap() ==> p.navigated(target).is_rewound() == (Some(target)
            != p.prev_tip),
        p.navigated(target).is_rewound() ==> p.navigated(target).prev_tip == p.prev_tip,
        p.navigated(target).refs() == p.refs(),
{
    lemma_navigated(p, target);
}

/// The fork is lazy. When the user goes to an ancestor of the commit on
/// which they stand and commits there, exactly one timeline is new, the new
/// commit's parent is that ancestor, every timeline that was there has the
/// tip that it had, and the project is rewound no more.
///
/// Left out are the target on which the user stands already, the target
/// that is the remembered tip, at which a rewind ends, and a project without
/// any timeline.
#[verifier::rlimit(30)]
pub proof fn law_lazy_fork(
    p: ProjectData,
    target: ObjectId,
    message: Seq<char>,
    fork_label: Option<Seq<char>>,
    time: int,
)
    requires
        p.wf(),
        p.head_commit() is Some,
        p.store.is_ancestor(target, p.head_commit().unwrap()),
        target != p.head_commit().unwrap(),
        p.prev_tip != Some(target),
        p.refs().len() > 0,
        p.navigated(target).committed(message, fork_label, time) is Some,
    ensures
        ({
            let q = p.navigated(target);
            let r = q.committed(message, fork_label, time).unwrap();
            let id = q.commit_parts(message, time).unwrap().1;
            &&& r.wf()
            &&& q.timeline_list().len() == p.timeline_list().len()
            &&& r.timeline_list().len() == p.timeline_list().len() + 1
            &&& r.head_commit() == Some(id)
            &&& r.store.commit(id).parent == Some(target)
            &&& forall|s: Seq<char>| p.tip_of(s) is Some ==> r.tip_of(s) == p.tip_of(s)
            &&& !r.is_rewound()
        }),
{
    let q = p.navigated(target);
    let r = q.committed(message, fork_label, time).unwrap();
    let (store, id) = q.commit_parts(message, time).unwrap();
    p.store.lemma_ancestor_stored(target, p.head_commit().unwrap());
    law_rewind_keeps_history(p, target);
    lemma_navigated(p, target);
    law_commit_moves_head(q, message, fork_label, time);
    let fork = q.free_slug(crate::snapshot::fork_base(time)).unwrap();
    q.lemma_free_is_not_taken(crate::snapshot::fork_base(time), 1, q.timelines.len() + 1);
    let t = TimelineData { slug: fork, tip: id };
    lemma_placed(q.timelines, t);
    assert(r.refs().len() == p.refs().len() + 1);
    let grown = ProjectData { store, ..q };
    lemma_stored_grows(q.store, NodeData::Dir(q.work));
    let (mid, tree) = stored(q.store, NodeData::Dir(q.work)).unwrap();
    mid.lemma_with_commit(tree, q.head_commit(), time, message);
    q.store.lemma_extends_transitive(mid, store);
    q.lemma_wf_store_grows(store);
    assert forall|s: Seq<char>| p.tip_of(s) is Some implies r.tip_of(s) == p.tip_of(s) by {
        lemma_tips_after_placed(grown, t, s);
        if s != main_slug() {
            assert(p.has_timeline(s));
            assert(q.slug_taken(s));
        }
        assert(r.tip_of(s) == (ProjectData { timelines: placed(grown.timelines, t), ..grown }).tip_of(
            s,
        ));
    }
}

/// In a well-formed project no slug is listed twice.
pub proof fn lemma_refs_distinct(p: ProjectData)
    requires
        p.wf(),
    ensures
        forall|a: int, b: int|
            0 <= a < b < p.refs().len() ==> (#[trigger] p.refs()[a]).slug != (#[trigger] p.refs()[b]).slug,
{
    let off: int = if p.main is Some { 1 } else { 0 };
    assert forall|a: int, b: int| 0 <= a < b < p.refs().len() implies (#[trigger] p.refs()[a]).slug != (
    #[trigger] p.refs()[b]).slug by {
        assert(p.refs()[b] == p.timelines[b - off]);
        if a >= off {
            assert(p.refs()[a] == p.timelines[a - off]);
            crate::text::lemma_text_lt_irreflexive(p.timelines[a - off].slug);
            assert(crate::text::text_lt(p.timelines[a - off].slug, p.timelines[b - off].slug));
        }
    }
}

/// The first place where something holds is the place where it alone
/// holds.
pub proof fn lemma_first_from_only(i: int, n: int, holds: spec_fn(int) -> bool, k: int)
    requires
        0 <= i <= k < n,
        holds(k),
        forall|j: int| i <= j < k ==> !(#[trigger] holds(j)),
    ensures
        first_from(i, n, holds) == Some(k),
    decreases k - i,
{
    if i < k {
        lemma_first_from_only(i + 1, n, holds, k);
    }
}

/// The listing after a lazy fork. When the user goes to an ancestor of the
/// commit on which they stand and commits there, the listing has one entry
/// more. The new entry bears the fork's slug and label, is the one active
/// entry, and counts the target's history and the new commit. Every entry
/// that was listed is listed still under its name, with its label and its
/// count, and no other entry is.
///
/// Left out are the same projects and targets as in `law_lazy_fork`.
#[verifier::rlimit(30)]
pub proof fn law_lazy_fork_listing(
    p: ProjectData,
    target: ObjectId,
    message: Seq<char>,
    fork_label: Option<Seq<char>>,
    time: int,
)
    requires
        p.wf(),
        p.head_commit() is Some,
        p.store.is_ancestor(target, p.head_commit().unwrap()),
        target != p.head_commit().unwrap(),
        p.prev_tip != Some(target),
        p.refs().len() > 0,
        p.navigated(target).committed(message, fork_label, time) is Some,
    ensures
        ({
            let q = p.navigated(target);
            let r = q.committed(message, fork_label, time).unwrap();
            let fork = q.free_slug(fork_base(time)).unwrap();
            let before = p.timeline_list();
            let after = r.timeline_list();
            &&& after.len() == before.len() + 1
            &&& forall|i: int| 0 <= i < before.len() ==> (#[trigger] before[i]).name != fork
            &&& forall|i: int|
                0 <= i < before.len() ==> exists|j: int|
                    0 <= j < after.len() && (#[trigger] after[j]).name == (#[trigger] before[i]).name
                        && after[j].label == before[i].label && after[j].snapshot_count
                        == before[i].snapshot_count
            &&& forall|j: int|
                0 <= j < after.len() ==> if (#[trigger] after[j]).name == fork {
                    &&& after[j].is_active
                    &&& after[j].label == fork_label_text(fork_label)
                    &&& after[j].snapshot_count == p.store.history(target).len() + 1
                } else {
                    &&& !after[j].is_active
                    &&& exists|i: int| 0 <= i < before.len() && (#[trigger] before[i]).name == after[j].name
                }
            &&& exists|j: int| 0 <= j < after.len() && (#[trigger] after[j]).name == fork
            &&& forall|a: int, b: int|
                0 <= a < b < after.len() ==> (#[trigger] after[a]).name != (#[trigger] after[b]).name
        }),
{
    let q = p.navigated(target);
    let r = q.committed(message, fork_label, time).unwrap();
    let id = q.commit_parts(message, time).unwrap().1;
    let fork = q.free_slug(fork_base(time)).unwrap();
    let before = p.timeline_list();
    let after = r.timeline_list();
    p.store.lemma_ancestor_stored(target, p.head_commit().unwrap());
    law_rewind_keeps_history(p, target);
    lemma_navigated(p, target);
    law_lazy_fork(p, target, message, fork_label, time);
    law_commit_moves_head(q, message, fork_label, time);
    q.lemma_free_is_not_taken(fork_base(time), 1, q.timelines.len() + 1);
    let t = TimelineData { slug: fork, tip: id };
    lemma_placed(q.timelines, t);
    lemma_refs_distinct(r);
    p.lemma_listed_stored();
    let off: int = if p.main is Some { 1 } else { 0 };
    let x = choose|x: int| 0 <= x < r.timelines.len() && r.timelines[x] == t;
    let k = x + off;
    assert(r.listed() == r.refs());
    assert(p.listed() == p.refs());
    assert(r.listed()[k] == t);
    let holds = r.slug_is(fork);
    assert(holds(k));
    assert forall|j: int| 0 <= j < r.listed().len() && j != k implies !(#[trigger] holds(j)) by {
        if j < k {
            assert(r.refs()[j].slug != r.refs()[k].slug);
        } else {
            assert(r.refs()[k].slug != r.refs()[j].slug);
        }
    }
    lemma_first_from_only(0, r.listed().len() as int, holds, k);
    assert(r.active_index() == Some(k));
    r.store.lemma_history_unfold(id);
    p.store.lemma_history_later(r.store, target);
    law_label_set_is_read(q.labels, fork, fork_label_text(fork_label));
    assert forall|i: int| 0 <= i < before.len() implies (#[trigger] before[i]).name != fork by {
        lemma_ref_tip(p, i);
        assert(q.slug_taken(p.refs()[i].slug));
    }
    assert forall|i: int| 0 <= i < before.len() implies exists|j: int|
        0 <= j < after.len() && (#[trigger] after[j]).name == (#[trigger] before[i]).name
            && after[j].label == before[i].label && after[j].snapshot_count
            == before[i].snapshot_count by {
        let was = p.listed()[i];
        lemma_ref_tip(p, i);
        assert(q.slug_taken(was.slug));
        let j = if i < off {
            0
        } else {
            assert(was == p.timelines[i - off]);
            assert(r.timelines.contains(q.timelines[i - off]));
            (choose|y: int| 0 <= y < r.timelines.len() && r.timelines[y] == q.timelines[i - off])
                + off
        };
        assert(r.listed()[j] == was);
        p.store.lemma_history_later(r.store, was.tip);
        law_label_set_alone(q.labels, fork, fork_label_text(fork_label), was.slug);
        assert(after[j].name == before[i].name);
    }
    assert forall|j: int| 0 <= j < after.len() implies if (#[trigger] after[j]).name == fork {
        &&& after[j].is_active
        &&& after[j].label == fork_label_text(fork_label)
        &&& after[j].snapshot_count == p.store.history(target).len() + 1
    } else {
        &&& !after[j].is_active
        &&& exists|i: int| 0 <= i < before.len() && (#[trigger] before[i]).name == after[j].name
    } by {
        if after[j].name == fork {
            assert(holds(j));
            assert(j == k);
        } else {
            assert(j != k);
            if j < off {
                assert(r.listed()[0] == p.listed()[0]);
                assert(before[0].name == after[j].name);
            } else {
                let now = r.timelines[j - off];
                assert(r.listed()[j] == now);
                assert(now != t);
                assert(q.timelines.contains(now));
                let y = choose|y: int| 0 <= y < q.timelines.len() && q.timelines[y] == now;
                assert(p.listed()[y + off] == now);
                assert(before[y + off].name == after[j].name);
            }
        }
    }
    assert(after[k].name == fork);
    assert forall|a: int, b: int| 0 <= a < b < after.len() implies (#[trigger] after[a]).name != (
    #[trigger] after[b]).name by {
        assert(r.refs()[a].slug != r.refs()[b].slug);
    }
}

} // verus!
