//! Walks along the chain of parents, from a commit down to the first one.

use crate::object_id::ObjectId;
use crate::store::{ObjectStore, StoreData};
use vstd::prelude::*;

verus! {

impl StoreData {
    /// The names of the commit at a place of the store and of its ancestors,
    /// newest first.
    pub open spec fn chain_at(self, i: int) -> Seq<ObjectId>
        decreases i,
    {
        if 0 <= i < self.commits.len() {
            match self.commits[i].parent {
                Some(p) => {
                    let j = self.commit_index(p);
                    if 0 <= j < i {
                        seq![self.commits[i].id] + self.chain_at(j)
                    } else {
                        seq![self.commits[i].id]
                    }
                },
                None => seq![self.commits[i].id],
            }
        } else {
            Seq::empty()
        }
    }

    /// The names of a commit and its ancestors, newest first; empty for a
    /// name that the store does not hold.
    pub open spec fn history(self, id: ObjectId) -> Seq<ObjectId> {
        if self.has_commit(id) {
            self.chain_at(self.commit_index(id))
        } else {
            Seq::empty()
        }
    }

    /// `a` is `d` or one of its ancestors.
    pub open spec fn is_ancestor(self, a: ObjectId, d: ObjectId) -> bool {
        self.history(d).contains(a)
    }

    /// A chain starts with the commit itself and holds stored commits only.
    pub proof fn lemma_chain_at(self, i: int)
        requires
            self.wf(),
            0 <= i < self.commits.len(),
        ensures
            self.chain_at(i).len() >= 1,
            self.chain_at(i).len() <= i + 1,
            self.chain_at(i)[0] == self.commits[i].id,
            forall|k: int|
                0 <= k < self.chain_at(i).len() ==> self.commit_before(
                    i + 1,
                    #[trigger] self.chain_at(i)[k],
                ),
        decreases i,
    {
        assert(self.commit_ok(i));
        let c = self.chain_at(i);
        match self.commits[i].parent {
            Some(p) => {
                let j = choose|j: int|
                    0 <= j < i && j < self.commits.len() && (#[trigger] self.commits[j]).id == p;
                self.lemma_commit_at(j);
                self.lemma_chain_at(j);
                let rest = self.chain_at(j);
                assert forall|k: int| 0 <= k < c.len() implies self.commit_before(
                    i + 1,
                    #[trigger] c[k],
                ) by {
                    if k == 0 {
                        assert(self.commits[i].id == c[0]);
                    } else {
                        assert(c[k] == rest[k - 1]);
                        assert(self.commit_before(j + 1, rest[k - 1]));
                        let x = choose|x: int|
                            0 <= x < j + 1 && x < self.commits.len() && (
                            #[trigger] self.commits[x]).id == rest[k - 1];
                        assert(self.commits[x].id == c[k]);
                    }
                }
            },
            None => {
                assert(self.commits[i].id == c[0]);
            },
        }
    }

    /// The history of a stored commit is the commit followed by the history
    /// of its parent.
    pub proof fn lemma_history_unfold(self, id: ObjectId)
        requires
            self.wf(),
            self.has_commit(id),
        ensures
            self.history(id) == match self.commit(id).parent {
                Some(p) => seq![id] + self.history(p),
                None => seq![id],
            },
            self.history(id).len() >= 1,
            self.history(id)[0] == id,
            match self.commit(id).parent {
                Some(p) => self.has_commit(p),
                None => true,
            },
    {
        self.lemma_commit_index(id);
        let i = self.commit_index(id);
        assert(self.commit_ok(i));
        self.lemma_chain_at(i);
        match self.commits[i].parent {
            Some(p) => {
                let j = choose|j: int|
                    0 <= j < i && j < self.commits.len() && (#[trigger] self.commits[j]).id == p;
                self.lemma_commit_at(j);
            },
            None => {},
        }
    }

    /// Growing a store keeps every chain.
    pub proof fn lemma_chain_later(self, later: StoreData, i: int)
        requires
            self.wf(),
            later.wf(),
            self.extends_to(later),
            0 <= i < self.commits.len(),
        ensures
            later.chain_at(i) == self.chain_at(i),
        decreases i,
    {
        assert(later.commits[i] == self.commits[i]);
        assert(self.commit_ok(i));
        match self.commits[i].parent {
            Some(p) => {
                let j = choose|j: int|
                    0 <= j < i && j < self.commits.len() && (#[trigger] self.commits[j]).id == p;
                self.lemma_commit_at(j);
                assert(later.commits[j] == self.commits[j]);
                later.lemma_commit_at(j);
                self.lemma_chain_later(later, j);
            },
            None => {},
        }
    }

    /// Growing a store keeps every history.
    pub proof fn lemma_history_later(self, later: StoreData, id: ObjectId)
        requires
            self.wf(),
            later.wf(),
            self.extends_to(later),
            self.has_commit(id),
        ensures
            later.history(id) == self.history(id),
    {
        self.lemma_extends_keeps(later, id);
        self.lemma_commit_index(id);
        self.lemma_chain_later(later, self.commit_index(id));
    }

    /// Whoever has an ancestor is stored, and so is the ancestor.
    pub proof fn lemma_ancestor_stored(self, a: ObjectId, d: ObjectId)
        requires
            self.wf(),
            self.is_ancestor(a, d),
        ensures
            self.has_commit(a),
            self.has_commit(d),
    {
        self.lemma_commit_index(d);
        let i = self.commit_index(d);
        self.lemma_chain_at(i);
        let k = choose|k: int| 0 <= k < self.history(d).len() && self.history(d)[k] == a;
        assert(self.commit_before(i + 1, self.chain_at(i)[k]));
        let x = choose|x: int|
            0 <= x < i + 1 && x < self.commits.len() && (#[trigger] self.commits[x]).id == a;
        assert(self.commits[x].id == a);
    }
}

/// The places of a commit and of its ancestors in the store, newest first.
pub fn walk(store: &ObjectStore, start: usize) -> (r: Vec<usize>)
    requires
        store@.wf(),
        start < store@.commits.len(),
    ensures
        r@.len() == store@.chain_at(start as int).len(),
        r@.len() >= 1,
        r@[0] == start,
        forall|k: int|
            0 <= k < r@.len() ==> (#[trigger] r@[k]) < store@.commits.len() && store@.commits[r@[k] as int].id
                == store@.chain_at(start as int)[k],
        forall|k: int|
            0 <= k < r@.len() ==> store@.chain_at(#[trigger] r@[k] as int)
                == store@.chain_at(start as int).skip(k),
{
    let ghost whole = store@.chain_at(start as int);
    let mut places: Vec<usize> = Vec::new();
    let mut at: usize = start;
    places.push(at);
    proof {
        store@.lemma_chain_at(start as int);
        assert(whole.skip(0) =~= whole);
    }
    loop
        invariant
            store@.wf(),
            whole == store@.chain_at(start as int),
            at < store@.commits.len(),
            places@.len() >= 1,
            places@.len() <= whole.len(),
            places@[0] == start,
            places@.last() == at,
            whole.skip(places@.len() - 1) == store@.chain_at(at as int),
            forall|k: int|
                0 <= k < places@.len() ==> (#[trigger] places@[k]) < store@.commits.len()
                    && store@.commits[places@[k] as int].id == whole[k],
            forall|k: int|
                0 <= k < places@.len() ==> store@.chain_at(#[trigger] places@[k] as int)
                    == whole.skip(k),
        ensures
            places@.len() == whole.len(),
            places@.len() >= 1,
            places@[0] == start,
            forall|k: int|
                0 <= k < places@.len() ==> (#[trigger] places@[k]) < store@.commits.len()
                    && store@.commits[places@[k] as int].id == whole[k],
            forall|k: int|
                0 <= k < places@.len() ==> store@.chain_at(#[trigger] places@[k] as int)
                    == whole.skip(k),
        decreases at,
    {
        let commit = store.commit_at(at);
        proof {
            assert(store@.commit_ok(at as int));
            store@.lemma_chain_at(at as int);
        }
        let parent = match commit.parent {
            Some(p) => p,
            None => {
                assert(whole.skip(places@.len() - 1).len() == 1);
                break ;
            },
        };
        let next = match store.find_commit_before(at, parent) {
            Some(j) => j,
            None => {
                assert(false);
                break ;
            },
        };
        proof {
            store@.lemma_commit_at(next as int);
            store@.lemma_chain_at(next as int);
            let n = places@.len() as int;
            let tail = whole.skip(n - 1);
            assert(tail == seq![store@.commits[at as int].id] + store@.chain_at(next as int));
            assert(whole.skip(n) =~= tail.skip(1));
            assert(tail.skip(1) =~= store@.chain_at(next as int));
            assert(whole[n] == tail[1]);
        }
        places.push(next);
        at = next;
    }
    places
}

/// Whether `a` is `d` or one of its ancestors.
pub fn is_ancestor(store: &ObjectStore, a: ObjectId, d: ObjectId) -> (r: bool)
    requires
        store@.wf(),
    ensures
        r == store@.is_ancestor(a, d),
{
    let start = match store.find_commit(d) {
        Some(start) => start,
        None => {
            return false;
        },
    };
    proof {
        store@.lemma_commit_at(start as int);
    }
    let places = walk(store, start);
    let ghost chain = store@.history(d);
    let mut k: usize = 0;
    while k < places.len()
        invariant
            k <= places.len(),
            chain == store@.chain_at(start as int),
            chain == store@.history(d),
            places@.len() == chain.len(),
            forall|j: int|
                0 <= j < places@.len() ==> (#[trigger] places@[j]) < store@.commits.len()
                    && store@.commits[places@[j] as int].id == chain[j],
            forall|j: int| 0 <= j < k ==> chain[j] != a,
        decreases places.len() - k,
    {
        if store.commit_at(places[k]).id == a {
            assert(chain[k as int] == a);
            return true;
        }
        k += 1;
    }
    false
}

} // verus!
