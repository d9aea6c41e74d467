//! What holds of the graph of all timelines.

use crate::graph::{claim, commits_of, insert_by_time, newest_first, points_for, Point};
use crate::object_id::ObjectId;
use crate::project::ProjectData;
use crate::store::StoreData;
use vstd::prelude::*;

verus! {

/// The points are in order of time, newest first.
pub open spec fn newest_leads(store: StoreData, s: Seq<Point>) -> bool {
    forall|i: int, j: int|
        0 <= i < j < s.len() ==> store.commit((#[trigger] s[i]).commit).time >= store.commit(
            (#[trigger] s[j]).commit,
        ).time
}

/// Putting a point in its place keeps the order, and the points are then
/// the point and those that were there.
#[verifier::rlimit(30)]
pub proof fn lemma_insert_by_time(store: StoreData, s: Seq<Point>, p: Point)
    requires
        newest_leads(store, s),
    ensures
        newest_leads(store, insert_by_time(store, s, p)),
        insert_by_time(store, s, p).len() == s.len() + 1,
        forall|x: int|
            0 <= x < insert_by_time(store, s, p).len() ==> (#[trigger] insert_by_time(store, s, p)[x])
                == p || s.contains(insert_by_time(store, s, p)[x]),
        insert_by_time(store, s, p).contains(p),
        forall|i: int| 0 <= i < s.len() ==> insert_by_time(store, s, p).contains(#[trigger] s[i]),
    decreases s.len(),
{
    let r = insert_by_time(store, s, p);
    if s.len() == 0 {
        assert(r[0] == p);
    } else if store.commit(s.last().commit).time >= store.commit(p.commit).time {
        assert forall|x: int| 0 <= x < r.len() implies (#[trigger] r[x]) == p || s.contains(r[x]) by {
            if x < s.len() {
                assert(s[x] == r[x]);
            }
        }
        assert(r[s.len() as int] == p);
        assert forall|i: int| 0 <= i < s.len() implies r.contains(#[trigger] s[i]) by {
            assert(r[i] == s[i]);
        }
        assert forall|i: int, j: int| 0 <= i < j < r.len() implies store.commit(
            (#[trigger] r[i]).commit,
        ).time >= store.commit((#[trigger] r[j]).commit).time by {
            assert(r[i] == s[i]);
            if j < s.len() {
                assert(r[j] == s[j]);
            } else if i < s.len() - 1 {
                assert(store.commit(s[i].commit).time >= store.commit(s[s.len() - 1].commit).time);
            }
        }
    } else {
        let front = s.drop_last();
        let last = s.last();
        assert forall|i: int, j: int| 0 <= i < j < front.len() implies store.commit(
            (#[trigger] front[i]).commit,
        ).time >= store.commit((#[trigger] front[j]).commit).time by {
            assert(front[i] == s[i]);
            assert(front[j] == s[j]);
        }
        lemma_insert_by_time(store, front, p);
        let mid = insert_by_time(store, front, p);
        assert forall|x: int| 0 <= x < mid.len() implies store.commit((#[trigger] mid[x]).commit).time
            >= store.commit(last.commit).time by {
            if mid[x] != p {
                let i = choose|i: int| 0 <= i < front.len() && front[i] == mid[x];
                assert(s[i] == mid[x]);
                assert(store.commit(s[i].commit).time >= store.commit(s[s.len() - 1].commit).time);
            }
        }
        assert forall|x: int| 0 <= x < r.len() implies (#[trigger] r[x]) == p || s.contains(r[x]) by {
            if x < mid.len() {
                assert(r[x] == mid[x]);
                if mid[x] != p {
                    let i = choose|i: int| 0 <= i < front.len() && front[i] == mid[x];
                    assert(s[i] == mid[x]);
                }
            } else {
                assert(s[s.len() - 1] == r[x]);
            }
        }
        let at = choose|x: int| 0 <= x < mid.len() && mid[x] == p;
        assert(r[at] == p);
        assert forall|i: int| 0 <= i < s.len() implies r.contains(#[trigger] s[i]) by {
            if i < front.len() {
                assert(mid.contains(front[i]));
                let x = choose|x: int| 0 <= x < mid.len() && mid[x] == front[i];
                assert(r[x] == s[i]);
            } else {
                assert(r[mid.len() as int] == s[i]);
            }
        }
        assert forall|i: int, j: int| 0 <= i < j < r.len() implies store.commit(
            (#[trigger] r[i]).commit,
        ).time >= store.commit((#[trigger] r[j]).commit).time by {
            assert(r[i] == mid[i]);
            if j < mid.len() {
                assert(r[j] == mid[j]);
            }
        }
    }
}

/// Putting a point of a new commit in its place leaves no commit twice.
#[verifier::rlimit(30)]
pub proof fn lemma_insert_by_time_distinct(store: StoreData, s: Seq<Point>, p: Point)
    requires
        commits_of(s).no_duplicates(),
        !commits_of(s).contains(p.commit),
    ensures
        commits_of(insert_by_time(store, s, p)).no_duplicates(),
    decreases s.len(),
{
    let r = insert_by_time(store, s, p);
    if s.len() == 0 {
    } else if store.commit(s.last().commit).time >= store.commit(p.commit).time {
        assert forall|i: int, j: int|
            0 <= i < commits_of(r).len() && 0 <= j < commits_of(r).len() && i != j implies commits_of(
            r,
        )[i] != commits_of(r)[j] by {
            if i < s.len() && j < s.len() {
                assert(commits_of(s)[i] != commits_of(s)[j]);
            } else if i < s.len() {
                assert(commits_of(s)[i] == r[i].commit);
            } else {
                assert(commits_of(s)[j] == r[j].commit);
            }
        }
    } else {
        let front = s.drop_last();
        let last = s.last();
        let mid = insert_by_time(store, front, p);
        assert(commits_of(front) =~= commits_of(s).drop_last());
        assert(commits_of(front).no_duplicates()) by {
            assert forall|i: int, j: int|
                0 <= i < commits_of(front).len() && 0 <= j < commits_of(front).len() && i
                    != j implies commits_of(front)[i] != commits_of(front)[j] by {
                assert(commits_of(s)[i] != commits_of(s)[j]);
            }
        }
        assert(!commits_of(front).contains(p.commit)) by {
            if commits_of(front).contains(p.commit) {
                let i = choose|i: int|
                    0 <= i < commits_of(front).len() && commits_of(front)[i] == p.commit;
                assert(commits_of(s)[i] == p.commit);
            }
        }
        lemma_insert_by_time_distinct(store, front, p);
        assert(commits_of(r) =~= commits_of(mid).push(last.commit));
        lemma_commits_after_insert(store, front, p, last.commit);
        assert(!commits_of(mid).contains(last.commit)) by {
            if commits_of(front).contains(last.commit) {
                let i = choose|i: int|
                    0 <= i < commits_of(front).len() && commits_of(front)[i] == last.commit;
                assert(commits_of(s)[i] == last.commit);
                assert(commits_of(s)[s.len() - 1] == last.commit);
            }
            assert(commits_of(s)[s.len() - 1] == last.commit);
        }
        assert forall|i: int, j: int|
            0 <= i < commits_of(r).len() && 0 <= j < commits_of(r).len() && i != j implies commits_of(
            r,
        )[i] != commits_of(r)[j] by {
            let n = mid.len() as int;
            if i < n && j < n {
                assert(commits_of(mid)[i] != commits_of(mid)[j]);
            } else if i < n {
                assert(commits_of(mid)[i] == commits_of(r)[i]);
            } else {
                assert(commits_of(mid)[j] == commits_of(r)[j]);
            }
        }
    }
}

/// The commits of points with one more put in its place are the commit of
/// that point and the commits that were there.
pub proof fn lemma_commits_after_insert(store: StoreData, s: Seq<Point>, p: Point, c: ObjectId)
    ensures
        commits_of(insert_by_time(store, s, p)).contains(c) <==> (c == p.commit || commits_of(
            s,
        ).contains(c)),
    decreases s.len(),
{
    let r = insert_by_time(store, s, p);
    if s.len() == 0 {
        assert(commits_of(r)[0] == p.commit);
    } else if store.commit(s.last().commit).time >= store.commit(p.commit).time {
        assert(commits_of(r) =~= commits_of(s).push(p.commit));
        assert(commits_of(r)[s.len() as int] == p.commit);
        if commits_of(s).contains(c) {
            let i = choose|i: int| 0 <= i < commits_of(s).len() && commits_of(s)[i] == c;
            assert(commits_of(r)[i] == c);
        }
    } else {
        let front = s.drop_last();
        lemma_commits_after_insert(store, front, p, c);
        let mid = insert_by_time(store, front, p);
        assert(commits_of(r) =~= commits_of(mid).push(s.last().commit));
        assert(commits_of(s) =~= commits_of(front).push(s.last().commit));
        assert(commits_of(r)[mid.len() as int] == s.last().commit);
        assert(commits_of(s)[front.len() as int] == s.last().commit);
        if commits_of(mid).contains(c) {
            let i = choose|i: int| 0 <= i < commits_of(mid).len() && commits_of(mid)[i] == c;
            assert(commits_of(r)[i] == c);
        }
        if commits_of(front).contains(c) {
            let i = choose|i: int| 0 <= i < commits_of(front).len() && commits_of(front)[i] == c;
            assert(commits_of(s)[i] == c);
        }
        if commits_of(r).contains(c) {
            let i = choose|i: int| 0 <= i < commits_of(r).len() && commits_of(r)[i] == c;
            if i < mid.len() {
                assert(commits_of(mid)[i] == c);
            }
        }
        if commits_of(s).contains(c) {
            let i = choose|i: int| 0 <= i < commits_of(s).len() && commits_of(s)[i] == c;
            if i < front.len() {
                assert(commits_of(front)[i] == c);
            }
        }
    }
}

/// The points put newest first are in that order; they are the points that
/// were given, none twice that was not twice before.
#[verifier::rlimit(30)]
pub proof fn lemma_newest_first(store: StoreData, s: Seq<Point>)
    ensures
        newest_leads(store, newest_first(store, s)),
        newest_first(store, s).len() == s.len(),
        forall|x: int|
            0 <= x < newest_first(store, s).len() ==> s.contains(#[trigger] newest_first(store, s)[x]),
        forall|i: int| 0 <= i < s.len() ==> newest_first(store, s).contains(#[trigger] s[i]),
        commits_of(s).no_duplicates() ==> commits_of(newest_first(store, s)).no_duplicates(),
    decreases s.len(),
{
    if s.len() > 0 {
        let front = s.drop_last();
        let last = s.last();
        lemma_newest_first(store, front);
        let sorted = newest_first(store, front);
        lemma_insert_by_time(store, sorted, last);
        let r = newest_first(store, s);
        assert forall|x: int| 0 <= x < r.len() implies s.contains(#[trigger] r[x]) by {
            if r[x] == last {
                assert(s[s.len() - 1] == last);
            } else {
                let y = choose|y: int| 0 <= y < sorted.len() && sorted[y] == r[x];
                let z = choose|z: int| 0 <= z < front.len() && front[z] == sorted[y];
                assert(s[z] == r[x]);
            }
        }
        assert forall|i: int| 0 <= i < s.len() implies r.contains(#[trigger] s[i]) by {
            if i < front.len() {
                assert(front[i] == s[i]);
                assert(sorted.contains(front[i]));
                let y = choose|y: int| 0 <= y < sorted.len() && sorted[y] == front[i];
                assert(r.contains(sorted[y]));
            }
        }
        if commits_of(s).no_duplicates() {
            assert(commits_of(front).no_duplicates()) by {
                assert forall|i: int, j: int|
                    0 <= i < commits_of(front).len() && 0 <= j < commits_of(front).len() && i
                        != j implies commits_of(front)[i] != commits_of(front)[j] by {
                    assert(commits_of(s)[i] != commits_of(s)[j]);
                }
            }
            assert(!commits_of(sorted).contains(last.commit)) by {
                if commits_of(sorted).contains(last.commit) {
                    let y = choose|y: int|
                        0 <= y < commits_of(sorted).len() && commits_of(sorted)[y] == last.commit;
                    let z = choose|z: int| 0 <= z < front.len() && front[z] == sorted[y];
                    assert(commits_of(s)[z] == last.commit);
                    assert(commits_of(s)[s.len() - 1] == last.commit);
                }
            }
            lemma_insert_by_time_distinct(store, sorted, last);
        }
    }
}

/// The graph comes newest first.
pub proof fn law_graph_is_newest_first(p: ProjectData)
    ensures
        newest_leads(p.store, p.graph()),
{
    lemma_newest_first(p.store, p.attributed());
}

/// Every commit of a history has the rest of the history as its own.
pub proof fn lemma_history_suffix(store: StoreData, id: ObjectId, a: int)
    requires
        store.wf(),
        store.has_commit(id),
        0 <= a < store.history(id).len(),
    ensures
        store.has_commit(store.history(id)[a]),
        store.history(store.history(id)[a]) == store.history(id).skip(a),
    decreases a,
{
    store.lemma_history_unfold(id);
    let h = store.history(id);
    if a == 0 {
        assert(h.skip(0) =~= h);
    } else {
        match store.commit(id).parent {
            Some(parent) => {
                let rest = store.history(parent);
                assert(h[a] == rest[a - 1]);
                lemma_history_suffix(store, parent, a - 1);
                assert(h.skip(a) =~= rest.skip(a - 1));
            },
            None => {},
        }
    }
}

/// No commit stands twice in a history.
pub proof fn lemma_history_no_duplicates(store: StoreData, id: ObjectId)
    requires
        store.wf(),
        store.has_commit(id),
    ensures
        store.history(id).no_duplicates(),
{
    let h = store.history(id);
    assert forall|i: int, j: int| 0 <= i < h.len() && 0 <= j < h.len() && i != j implies h[i]
        != h[j] by {
        if h[i] == h[j] {
            lemma_history_suffix(store, id, i);
            lemma_history_suffix(store, id, j);
            assert(h.skip(i).len() != h.skip(j).len());
        }
    }
}

/// Where a walk stops: at the first commit of the chain that was seen
/// before, or at the chain's end.
pub open spec fn stop(seen: Seq<ObjectId>, chain: Seq<ObjectId>) -> nat
    decreases chain.len(),
{
    if chain.len() == 0 || seen.contains(chain.first()) {
        0
    } else {
        1 + stop(seen, chain.drop_first())
    }
}

/// A walk stops within the chain, at a commit that was seen, and not
/// before one.
pub proof fn lemma_stop(seen: Seq<ObjectId>, chain: Seq<ObjectId>)
    ensures
        stop(seen, chain) <= chain.len(),
        stop(seen, chain) < chain.len() ==> seen.contains(chain[stop(seen, chain) as int]),
        forall|b: int| 0 <= b < stop(seen, chain) ==> !seen.contains(#[trigger] chain[b]),
    decreases chain.len(),
{
    if chain.len() > 0 && !seen.contains(chain.first()) {
        let rest = chain.drop_first();
        lemma_stop(seen, rest);
        assert forall|b: int| 0 <= b < stop(seen, chain) implies !seen.contains(
            #[trigger] chain[b],
        ) by {
            if b > 0 {
                assert(chain[b] == rest[b - 1]);
            }
        }
        if stop(seen, chain) < chain.len() {
            assert(chain[stop(seen, chain) as int] == rest[stop(seen, rest) as int]);
        }
    }
}

/// Along a chain without doubles, a walk claims the commits before its
/// stop, whatever else was claimed meanwhile from outside the chain.
#[verifier::rlimit(30)]
pub proof fn lemma_claim_is_prefix(seen: Seq<ObjectId>, added: Seq<ObjectId>, chain: Seq<ObjectId>)
    requires
        chain.no_duplicates(),
        forall|i: int, j: int|
            0 <= i < added.len() && 0 <= j < chain.len() ==> added[i] != chain[j],
    ensures
        claim(seen + added, chain) == chain.take(stop(seen, chain) as int),
    decreases chain.len(),
{
    lemma_stop(seen, chain);
    if chain.len() == 0 {
        assert(chain.take(0) =~= Seq::<ObjectId>::empty());
    } else {
        let first = chain.first();
        let rest = chain.drop_first();
        let all = seen + added;
        assert(all.contains(first) <==> seen.contains(first)) by {
            if all.contains(first) {
                let i = choose|i: int| 0 <= i < all.len() && all[i] == first;
                if i >= seen.len() {
                    assert(added[i - seen.len()] == chain[0]);
                } else {
                    assert(seen[i] == first);
                }
            }
            if seen.contains(first) {
                let i = choose|i: int| 0 <= i < seen.len() && seen[i] == first;
                assert(all[i] == first);
            }
        }
        if seen.contains(first) {
            assert(chain.take(0) =~= Seq::<ObjectId>::empty());
        } else {
            let grown = added.push(first);
            assert(all.push(first) =~= seen + grown);
            assert(rest.no_duplicates()) by {
                assert forall|i: int, j: int|
                    0 <= i < rest.len() && 0 <= j < rest.len() && i != j implies rest[i]
                    != rest[j] by {
                    assert(chain[i + 1] != chain[j + 1]);
                }
            }
            assert forall|i: int, j: int|
                0 <= i < grown.len() && 0 <= j < rest.len() implies grown[i] != rest[j] by {
                if i < added.len() {
                    assert(added[i] != chain[j + 1]);
                } else {
                    assert(chain[0] != chain[j + 1]);
                }
            }
            lemma_claim_is_prefix(seen, grown, rest);
            assert(seq![first] + rest.take(stop(seen, rest) as int) =~= chain.take(
                stop(seen, chain) as int,
            ));
        }
    }
}

/// The commits hold, with each commit, the commit's whole history.
pub open spec fn closed_under_history(store: StoreData, s: Seq<ObjectId>) -> bool {
    forall|x: ObjectId, y: ObjectId|
        s.contains(x) && #[trigger] store.history(x).contains(y) ==> #[trigger] s.contains(y)
}

/// After a walk along the history of a stored commit, everything seen holds
/// that history, is closed under history still, and holds no commit twice.
#[verifier::rlimit(30)]
pub proof fn lemma_walk_closes(store: StoreData, seen: Seq<ObjectId>, tip: ObjectId)
    requires
        store.wf(),
        store.has_commit(tip),
        closed_under_history(store, seen),
        seen.no_duplicates(),
        forall|i: int| 0 <= i < seen.len() ==> store.has_commit(#[trigger] seen[i]),
    ensures
        ({
            let after = seen + claim(seen, store.history(tip));
            &&& closed_under_history(store, after)
            &&& after.no_duplicates()
            &&& forall|i: int| 0 <= i < after.len() ==> store.has_commit(#[trigger] after[i])
            &&& forall|y: ObjectId| store.history(tip).contains(y) ==> after.contains(y)
            &&& forall|y: ObjectId| seen.contains(y) ==> after.contains(y)
        }),
{
    let chain = store.history(tip);
    lemma_history_no_duplicates(store, tip);
    assert(seen + Seq::<ObjectId>::empty() =~= seen);
    lemma_claim_is_prefix(seen, Seq::empty(), chain);
    lemma_stop(seen, chain);
    let m = stop(seen, chain) as int;
    let got = chain.take(m);
    let after = seen + got;
    assert forall|y: ObjectId| seen.contains(y) implies after.contains(y) by {
        let i = choose|i: int| 0 <= i < seen.len() && seen[i] == y;
        assert(after[i] == y);
    }
    assert forall|y: ObjectId| chain.contains(y) implies after.contains(y) by {
        let b = choose|b: int| 0 <= b < chain.len() && chain[b] == y;
        if b < m {
            assert(after[seen.len() + b] == y);
        } else {
            lemma_history_suffix(store, tip, m);
            assert(chain.skip(m)[b - m] == y);
            assert(store.history(chain[m]).contains(y));
            assert(seen.contains(y));
        }
    }
    assert forall|i: int| 0 <= i < after.len() implies store.has_commit(#[trigger] after[i]) by {
        if i >= seen.len() {
            lemma_history_suffix(store, tip, i - seen.len());
        }
    }
    assert forall|x: ObjectId, y: ObjectId|
        after.contains(x) && #[trigger] store.history(x).contains(y) implies #[trigger] after.contains(
        y,
    ) by {
        let i = choose|i: int| 0 <= i < after.len() && after[i] == x;
        if i < seen.len() {
            assert(seen.contains(x));
            assert(seen.contains(y));
        } else {
            let a = i - seen.len();
            lemma_history_suffix(store, tip, a);
            let k = choose|k: int| 0 <= k < chain.skip(a).len() && chain.skip(a)[k] == y;
            assert(chain[a + k] == y);
            assert(chain.contains(y));
        }
    }
    assert forall|i: int, j: int| 0 <= i < after.len() && 0 <= j < after.len() && i != j implies after[i]
        != after[j] by {
        if i < seen.len() && j < seen.len() {
        } else if i >= seen.len() && j >= seen.len() {
            assert(chain[i - seen.len()] != chain[j - seen.len()]);
        } else {
            let (x, b) = if i < seen.len() {
                (i, j - seen.len())
            } else {
                (j, i - seen.len())
            };
            assert(!seen.contains(chain[b]));
        }
    }
}

/// The commits of points made from commits are those commits.
pub proof fn lemma_commits_of_points_for(
    commits: Seq<ObjectId>,
    timeline: Seq<char>,
    lane: nat,
    head: Option<ObjectId>,
)
    ensures
        commits_of(points_for(commits, timeline, lane, head)) == commits,
{
    assert(commits_of(points_for(commits, timeline, lane, head)) =~= commits);
}

/// What the walks along the first timelines have claimed holds the history
/// of each of their tips, is closed under history, and holds no commit
/// twice. A claimed point is marked as head just where it is the commit on
/// which the user stands.
#[verifier::rlimit(30)]
pub proof fn lemma_claimed(p: ProjectData, k: nat)
    requires
        p.wf(),
        k <= p.listed().len(),
    ensures
        closed_under_history(p.store, commits_of(p.claimed(k))),
        commits_of(p.claimed(k)).no_duplicates(),
        forall|i: int|
            0 <= i < commits_of(p.claimed(k)).len() ==> p.store.has_commit(
                #[trigger] commits_of(p.claimed(k))[i],
            ),
        forall|i: int, y: ObjectId|
            0 <= i < k && #[trigger] p.store.history(p.listed()[i].tip).contains(y) ==> commits_of(
                p.claimed(k),
            ).contains(y),
        forall|x: int|
            0 <= x < p.claimed(k).len() ==> ((#[trigger] p.claimed(k)[x]).is_head <==> p.head_commit()
                == Some(p.claimed(k)[x].commit)),
    decreases k,
{
    if k == 0 {
        assert(commits_of(p.claimed(0)) =~= Seq::<ObjectId>::empty());
    } else {
        lemma_claimed(p, (k - 1) as nat);
        p.lemma_listed_stored();
        let before = p.claimed((k - 1) as nat);
        let seen = commits_of(before);
        let t = p.listed()[k - 1];
        let got = claim(seen, p.store.history(t.tip));
        let fresh = points_for(got, t.slug, (k - 1) as nat, p.head_commit());
        lemma_walk_closes(p.store, seen, t.tip);
        lemma_commits_of_points_for(got, t.slug, (k - 1) as nat, p.head_commit());
        assert(commits_of(before + fresh) =~= seen + got);
        let now = commits_of(p.claimed(k));
        assert forall|i: int, y: ObjectId|
            0 <= i < k && #[trigger] p.store.history(p.listed()[i].tip).contains(
                y,
            ) implies now.contains(y) by {
            if i < k - 1 {
                assert(seen.contains(y));
            }
        }
        assert forall|x: int| 0 <= x < p.claimed(k).len() implies ((#[trigger] p.claimed(
            k,
        )[x]).is_head <==> p.head_commit() == Some(p.claimed(k)[x].commit)) by {
            if x < before.len() {
                assert(p.claimed(k)[x] == before[x]);
            } else {
                assert(p.claimed(k)[x] == fresh[x - before.len()]);
            }
        }
    }
}

/// What a walk claims lies on the chain that it walks.
pub proof fn lemma_claim_on_chain(seen: Seq<ObjectId>, chain: Seq<ObjectId>)
    requires
        chain.no_duplicates(),
    ensures
        forall|k: int|
            0 <= k < claim(seen, chain).len() ==> chain.contains(#[trigger] claim(seen, chain)[k]),
{
    assert(seen + Seq::<ObjectId>::empty() =~= seen);
    lemma_claim_is_prefix(seen, Seq::empty(), chain);
    lemma_stop(seen, chain);
    let got = claim(seen, chain);
    assert forall|k: int| 0 <= k < got.len() implies chain.contains(#[trigger] got[k]) by {
        assert(chain[k] == got[k]);
    }
}

/// The commit is the tip of a listed timeline or one of the tip's
/// ancestors.
pub open spec fn on_a_timeline(p: ProjectData, c: ObjectId) -> bool {
    exists|i: int|
        0 <= i < p.listed().len() && #[trigger] p.store.is_ancestor(c, p.listed()[i].tip)
}

/// The commit is the tip of one of the first `k` listed timelines or one
/// of the tip's ancestors.
pub open spec fn on_one_of(p: ProjectData, k: nat, c: ObjectId) -> bool {
    exists|i: int| 0 <= i < k && #[trigger] p.store.is_ancestor(c, p.listed()[i].tip)
}

/// Whatever the walks along the first timelines have claimed lies in the
/// history of one of their tips.
#[verifier::rlimit(30)]
pub proof fn lemma_claimed_from_histories(p: ProjectData, k: nat)
    requires
        p.wf(),
        k <= p.listed().len(),
    ensures
        forall|x: int|
            0 <= x < p.claimed(k).len() ==> on_one_of(p, k, (#[trigger] p.claimed(k)[x]).commit),
    decreases k,
{
    if k > 0 {
        lemma_claimed_from_histories(p, (k - 1) as nat);
        p.lemma_listed_stored();
        let before = p.claimed((k - 1) as nat);
        let t = p.listed()[k - 1];
        let chain = p.store.history(t.tip);
        let got = claim(commits_of(before), chain);
        let fresh = points_for(got, t.slug, (k - 1) as nat, p.head_commit());
        lemma_history_no_duplicates(p.store, t.tip);
        lemma_claim_on_chain(commits_of(before), chain);
        assert forall|x: int| 0 <= x < p.claimed(k).len() implies on_one_of(
            p,
            k,
            (#[trigger] p.claimed(k)[x]).commit,
        ) by {
            if x < before.len() {
                assert(p.claimed(k)[x] == before[x]);
                assert(on_one_of(p, (k - 1) as nat, before[x].commit));
                let i = choose|i: int|
                    0 <= i < k - 1 && #[trigger] p.store.is_ancestor(
                        before[x].commit,
                        p.listed()[i].tip,
                    );
                assert(p.store.is_ancestor(p.claimed(k)[x].commit, p.listed()[i].tip));
            } else {
                assert(p.claimed(k)[x] == fresh[x - before.len()]);
                assert(fresh[x - before.len()].commit == got[x - before.len()]);
                assert(chain.contains(got[x - before.len()]));
                assert(p.store.is_ancestor(p.claimed(k)[x].commit, p.listed()[k - 1].tip));
            }
        }
    } else {
        assert(p.claimed(0).len() == 0);
    }
}

/// What the graph holds: the commits on the listed timelines and, while the
/// project is rewound, the remembered tip and its ancestors.
#[verifier::rlimit(30)]
pub proof fn law_graph_holds_the_histories(p: ProjectData, c: ObjectId)
    requires
        p.wf(),
    ensures
        commits_of(p.graph()).contains(c) <==> on_a_timeline(p, c) || match p.prev_tip {
            Some(tip) => p.store.is_ancestor(c, tip),
            None => false,
        },
{
    let n = p.listed().len();
    lemma_claimed(p, n);
    lemma_claimed_from_histories(p, n);
    let walked = p.claimed(n);
    let seen = commits_of(walked);
    let sight = p.in_sight();
    lemma_newest_first(p.store, p.attributed());
    assert(commits_of(p.attributed()) =~= commits_of(sight));
    assert(commits_of(p.graph()).contains(c) <==> commits_of(sight).contains(c)) by {
        let shown = p.attributed();
        let graph = p.graph();
        if commits_of(graph).contains(c) {
            let k = choose|k: int| 0 <= k < commits_of(graph).len() && commits_of(graph)[k] == c;
            assert(shown.contains(graph[k]));
            let x = choose|x: int| 0 <= x < shown.len() && shown[x] == graph[k];
            assert(commits_of(shown)[x] == c);
        }
        if commits_of(sight).contains(c) {
            let x = choose|x: int| 0 <= x < commits_of(sight).len() && commits_of(sight)[x] == c;
            assert(graph.contains(shown[x]));
            let k = choose|k: int| 0 <= k < graph.len() && graph[k] == shown[x];
            assert(commits_of(graph)[k] == c);
        }
    }
    if on_a_timeline(p, c) {
        let i = choose|i: int|
            0 <= i < p.listed().len() && #[trigger] p.store.is_ancestor(c, p.listed()[i].tip);
        assert(p.store.history(p.listed()[i].tip).contains(c));
        assert(seen.contains(c));
    }
    if seen.contains(c) {
        let x = choose|x: int| 0 <= x < seen.len() && seen[x] == c;
        assert(walked[x].commit == c);
        assert(on_one_of(p, n, walked[x].commit));
        let i = choose|i: int|
            0 <= i < n && #[trigger] p.store.is_ancestor(walked[x].commit, p.listed()[i].tip);
        assert(on_a_timeline(p, c));
    }
    match p.prev_tip {
        Some(tip) => {
            lemma_walk_closes(p.store, seen, tip);
            lemma_history_no_duplicates(p.store, tip);
            lemma_claim_on_chain(seen, p.store.history(tip));
            let got = claim(seen, p.store.history(tip));
            lemma_commits_of_points_for(got, p.active_slug(), p.active_lane(), None);
            assert(commits_of(sight) =~= seen + got);
            if commits_of(sight).contains(c) && !seen.contains(c) {
                let x = choose|x: int| 0 <= x < (seen + got).len() && (seen + got)[x] == c;
                assert(x >= seen.len()) by {
                    if x < seen.len() {
                        assert(seen[x] == c);
                    }
                }
                assert(got[x - seen.len()] == c);
                assert(p.store.history(tip).contains(c));
            }
        },
        None => {},
    }
}

/// The graph marks one head. Where the user stands on a commit that is the
/// tip of a listed timeline or one of the tip's ancestors, the graph holds
/// that commit, holds no commit twice, and marks as head the node of that
/// commit and no other.
#[verifier::rlimit(30)]
pub proof fn law_graph_marks_one_head(p: ProjectData, at: int)
    requires
        p.wf(),
        p.head_commit() is Some,
        0 <= at < p.listed().len(),
        p.store.is_ancestor(p.head_commit().unwrap(), p.listed()[at].tip),
    ensures
        commits_of(p.graph()).no_duplicates(),
        commits_of(p.graph()).contains(p.head_commit().unwrap()),
        forall|k: int|
            0 <= k < p.graph().len() ==> ((#[trigger] p.graph()[k]).is_head <==> p.graph()[k].commit
                == p.head_commit().unwrap()),
{
    let here = p.head_commit().unwrap();
    let n = p.listed().len();
    lemma_claimed(p, n);
    let walked = p.claimed(n);
    let seen = commits_of(walked);
    assert(seen.contains(here));
    let sight = p.in_sight();
    match p.prev_tip {
        Some(tip) => {
            lemma_walk_closes(p.store, seen, tip);
            let got = claim(seen, p.store.history(tip));
            let more = points_for(got, p.active_slug(), p.active_lane(), None);
            lemma_commits_of_points_for(got, p.active_slug(), p.active_lane(), None);
            assert(commits_of(sight) =~= seen + got);
            assert forall|x: int| 0 <= x < sight.len() implies ((#[trigger] sight[x]).is_head
                <==> sight[x].commit == here) by {
                if x < walked.len() {
                    assert(sight[x] == walked[x]);
                } else {
                    assert(sight[x] == more[x - walked.len()]);
                    let i = choose|i: int| 0 <= i < seen.len() && seen[i] == here;
                    assert((seen + got)[i] == here);
                    assert((seen + got)[x] == sight[x].commit);
                }
            }
        },
        None => {},
    }
    let shown = p.attributed();
    assert(commits_of(shown) =~= commits_of(sight));
    assert forall|x: int| 0 <= x < shown.len() implies ((#[trigger] shown[x]).is_head
        <==> shown[x].commit == here) by {
        assert(sight[x].is_head <==> sight[x].commit == here);
    }
    lemma_newest_first(p.store, shown);
    let graph = p.graph();
    assert forall|k: int| 0 <= k < graph.len() implies ((#[trigger] graph[k]).is_head
        <==> graph[k].commit == here) by {
        let x = choose|x: int| 0 <= x < shown.len() && shown[x] == graph[k];
        assert(shown[x].is_head <==> shown[x].commit == here);
    }
    let i = choose|i: int| 0 <= i < commits_of(shown).len() && commits_of(shown)[i] == here;
    assert(graph.contains(shown[i]));
    let k = choose|k: int| 0 <= k < graph.len() && graph[k] == shown[i];
    assert(commits_of(graph)[k] == here);
}

} // verus!
