//! Moving through history: going to a snapshot, and restoring one.

use crate::error::VersioningError;
use crate::history::is_ancestor;
use crate::object_id::{hex_id, ObjectId};
use crate::project::{Head, HeadData, Project, ProjectData, Timeline, TimelineData};
use crate::registry::head_commit;
use crate::snapshot::{commit_snapshot, overwrite_from_commit, text_view};
use vstd::prelude::*;
use vstd::string::StringExecFns;

verus! {

/// The slug of the first timeline, in the order given, whose tip is the
/// target.
pub open spec fn first_tip(refs: Seq<TimelineData>, target: ObjectId) -> Option<Seq<char>>
    decreases refs.len(),
{
    if refs.len() == 0 {
        None
    } else if refs.first().tip == target {
        Some(refs.first().slug)
    } else {
        first_tip(refs.drop_first(), target)
    }
}

/// A slug found by its tip belongs to one of the timelines.
pub proof fn lemma_first_tip(refs: Seq<TimelineData>, target: ObjectId)
    ensures
        match first_tip(refs, target) {
            Some(slug) => exists|i: int|
                0 <= i < refs.len() && (#[trigger] refs[i]).slug == slug && refs[i].tip == target,
            None => forall|i: int| 0 <= i < refs.len() ==> (#[trigger] refs[i]).tip != target,
        },
    decreases refs.len(),
{
    if refs.len() > 0 {
        if refs.first().tip == target {
            assert(refs[0].slug == refs.first().slug);
        } else {
            let rest = refs.drop_first();
            lemma_first_tip(rest, target);
            match first_tip(rest, target) {
                Some(slug) => {
                    let i = choose|i: int|
                        0 <= i < rest.len() && (#[trigger] rest[i]).slug == slug && rest[i].tip
                            == target;
                    assert(refs[i + 1] == rest[i]);
                },
                None => {
                    assert forall|i: int| 0 <= i < refs.len() implies (#[trigger] refs[i]).tip
                        != target by {
                        if i > 0 {
                            assert(refs[i] == rest[i - 1]);
                        }
                    }
                },
            }
        }
    }
}

impl ProjectData {
    /// The project after the user went to a stored commit from a position
    /// that has one.
    ///
    /// Going to where one stands only checks that commit out again.
    /// Otherwise: going to an ancestor of one's position while not rewound
    /// saves the position as the tip gone back from; arriving at the saved
    /// tip forgets it; the user stands on the first timeline whose tip is
    /// the target, or on none; and the target is checked out.
    pub open spec fn navigated(self, target: ObjectId) -> ProjectData {
        let here = self.head_commit().unwrap();
        if target == here {
            self.checked_out(target)
        } else {
            let saved = if self.store.is_ancestor(target, here) && self.prev_tip is None {
                Some(here)
            } else {
                self.prev_tip
            };
            let prev_tip = if saved == Some(target) {
                None
            } else {
                saved
            };
            let head = match first_tip(self.refs(), target) {
                Some(slug) => HeadData::Attached(slug),
                None => HeadData::Detached(target),
            };
            (ProjectData { prev_tip, head, ..self }).checked_out(target)
        }
    }

    /// Whether going to the commit that a text names is possible: the text
    /// names a stored commit, and the user stands on a commit.
    pub open spec fn can_navigate(self, commit_id: Seq<char>) -> bool {
        match hex_id(commit_id) {
            Some(id) => self.store.has_commit(id) && self.head_commit() is Some,
            None => false,
        }
    }
}

/// The slug of the first timeline, main first, whose tip is the target.
fn timeline_at_tip(project: &Project, target: ObjectId) -> (r: Option<String>)
    requires
        project@.wf(),
    ensures
        text_view_owned(r) == first_tip(project@.refs(), target),
{
    let ghost refs = project@.refs();
    match project.main_tip() {
        Some(tip) => {
            assert(refs.drop_first() =~= project@.timelines);
            if tip == target {
                return Some(String::from_str("main"));
            }
        },
        None => {},
    }
    let timelines = project.timelines();
    let ghost ts = project@.timelines;
    let mut i: usize = 0;
    proof {
        assert(ts.skip(0) =~= ts);
    }
    while i < timelines.len()
        invariant
            i <= timelines.len(),
            ts == project@.timelines,
            timelines@.map_values(|t: Timeline| t@) == ts,
            first_tip(project@.refs(), target) == first_tip(ts.skip(i as int), target),
        decreases timelines.len() - i,
    {
        proof {
            assert(ts.skip(i as int).first() == timelines@[i as int]@);
            assert(ts.skip(i as int).drop_first() =~= ts.skip(i as int + 1));
        }
        if timelines[i].tip == target {
            return Some(timelines[i].slug.clone());
        }
        i += 1;
    }
    None
}

/// An owned text that may be absent, as a mathematical value.
pub open spec fn text_view_owned(text: Option<String>) -> Option<Seq<char>> {
    match text {
        Some(t) => Some(t@),
        None => None,
    }
}

/// Goes to a snapshot.
///
/// Going to the snapshot where one stands only checks it out again, which
/// discards unsaved changes. Going back to an ancestor for the first time
/// remembers the tip that was left, so that the commits after the target
/// stay in sight; going deeper leaves that memory alone; arriving at the
/// remembered tip clears it. The user then stands on the first timeline
/// whose tip is the target, main first, or on no timeline. No timeline
/// moves. The target's files replace the visible working directory.
///
/// Fails with `NotFound`, and changes nothing, where the id is no commit id
/// or names no stored commit, or where there is no commit yet.
#[verifier::rlimit(30)]
pub fn navigate_to_snapshot(project: &mut Project, commit_id: &str) -> (r: Result<
    (),
    VersioningError,
>)
    requires
        old(project)@.wf(),
    ensures
        final(project)@.wf(),
        match r {
            Ok(_) => old(project)@.can_navigate(commit_id@) && final(project)@ == old(project)@.navigated(hex_id(commit_id@).unwrap()),
            Err(e) => e == VersioningError::NotFound && !old(project)@.can_navigate(commit_id@)
                && final(project)@ == old(project)@,
        },
{
    let ghost before = project@;
    let target = match ObjectId::parse(commit_id) {
        Some(id) => id,
        None => {
            return Err(VersioningError::NotFound);
        },
    };
    let at = match project.store().find_commit(target) {
        Some(at) => at,
        None => {
            return Err(VersioningError::NotFound);
        },
    };
    let here = match head_commit(project) {
        Some(here) => here,
        None => {
            return Err(VersioningError::NotFound);
        },
    };
    proof {
        before.lemma_head_stored();
        before.store.lemma_commit_at(at as int);
    }
    if target == here {
        overwrite_from_commit(project, at);
        return Ok(());
    }
    let going_back = is_ancestor(project.store(), target, here);
    let saved: Option<ObjectId> = if going_back && project.prev_tip().is_none() {
        Some(here)
    } else {
        project.prev_tip()
    };
    let prev_tip: Option<ObjectId> = match saved {
        Some(tip) => if tip == target {
            None
        } else {
            Some(tip)
        },
        None => None,
    };
    let head = match timeline_at_tip(project, target) {
        Some(slug) => Head::Attached(slug),
        None => Head::Detached(target),
    };
    proof {
        lemma_first_tip(before.refs(), target);
        let next = ProjectData { prev_tip, head: head@, ..before };
        match first_tip(before.refs(), target) {
            Some(slug) => {
                let i = choose|i: int|
                    0 <= i < before.refs().len() && (#[trigger] before.refs()[i]).slug == slug
                        && before.refs()[i].tip == target;
                if before.main is Some {
                    if i > 0 {
                        assert(before.refs()[i] == before.timelines[i - 1]);
                        assert(next.timelines[i - 1].slug == slug);
                    }
                } else {
                    assert(next.timelines[i].slug == slug);
                }
            },
            None => {},
        }
        assert(next.wf());
    }
    project.put_prev_tip(prev_tip);
    project.put_head(head);
    overwrite_from_commit(project, at);
    Ok(())
}

/// The message of the commit that restores a snapshot: `Restored from` and
/// the first eight characters of the id that was given.
pub open spec fn restore_message(commit_id: Seq<char>) -> Seq<char> {
    "Restored from "@ + commit_id.subrange(0, 8)
}

/// Restores a snapshot: checks it out and commits it now on top of the
/// present position, under a message that names it. Returns the new
/// commit's id.
///
/// Fails with `NotFound`, and changes nothing, where the id is no commit id
/// or names no stored commit. On a stored commit there is a time for which
/// the commit of the checked-out snapshot went as it had to: it succeeded
/// just where the store admitted it at that time, and where the store
/// refused, the result is `ObjectStore` and the snapshot is checked out all
/// the same.
pub fn restore_version(project: &mut Project, commit_id: &str) -> (r: Result<
    String,
    VersioningError,
>)
    requires
        old(project)@.wf(),
    ensures
        final(project)@.wf(),
        old(project)@.store.extends_to(final(project)@.store),
        match hex_id(commit_id@) {
            Some(id) => if old(project)@.store.has_commit(id) {
                &&& exists|time: int|
                    #[trigger] old(project)@.checked_out(id).commit_outcome(
                        final(project)@,
                        restore_message(commit_id@),
                        None,
                        time,
                        r,
                    )
                &&& match r {
                    Ok(hex) => hex_id(hex@) == final(project)@.head_commit() && hex_id(hex@) is Some,
                    Err(e) => e == VersioningError::ObjectStore && final(project)@ == (ProjectData {
                        store: final(project)@.store,
                        ..old(project)@.checked_out(id)
                    }),
                }
            } else {
                r == Err::<String, VersioningError>(VersioningError::NotFound) && final(project)@
                    == old(project)@
            },
            None => r == Err::<String, VersioningError>(VersioningError::NotFound) && final(project)@
                == old(project)@,
        },
{
    let target = match ObjectId::parse(commit_id) {
        Some(id) => id,
        None => {
            return Err(VersioningError::NotFound);
        },
    };
    let at = match project.store().find_commit(target) {
        Some(at) => at,
        None => {
            return Err(VersioningError::NotFound);
        },
    };
    proof {
        project@.store.lemma_commit_at(at as int);
    }
    overwrite_from_commit(project, at);
    let mut message = String::from_str("Restored from ");
    message.append(commit_id.substring_char(0, 8));
    let ghost mid = project@;
    let r = commit_snapshot(project, message.as_str(), None);
    proof {
        assert(text_view(None) == None::<Seq<char>>);
        let time = choose|time: int|
            #[trigger] mid.commit_outcome(project@, message@, text_view(None), time, r);
        assert(old(project)@.checked_out(target).commit_outcome(
            project@,
            restore_message(commit_id@),
            None,
            time,
            r,
        ));
    }
    r
}

} // verus!
