//! Putting a directory listing in order.

use crate::names::{
    hidden_name, lemma_lex_transitive, lemma_name_order_total, name_precedes, sort_key, valid_name,
};
use crate::objects::{canonical_listing, entry_lt, listing, EntryData, TreeEntry};
use vstd::prelude::*;

verus! {

/// A listing in order, with one more entry put in its place.
pub open spec fn insert_entry(s: Seq<EntryData>, e: EntryData) -> Seq<EntryData>
    decreases s.len(),
{
    if s.len() == 0 {
        seq![e]
    } else if entry_lt(s.last(), e) {
        s.push(e)
    } else {
        insert_entry(s.drop_last(), e).push(s.last())
    }
}

/// The entries of a listing, put in order one after the other.
pub open spec fn sort_listing(s: Seq<EntryData>) -> Seq<EntryData>
    decreases s.len(),
{
    if s.len() == 0 {
        s
    } else {
        insert_entry(sort_listing(s.drop_last()), s.last())
    }
}

/// An entry that may join a canonical listing: a valid, visible name that
/// the listing does not hold yet.
pub open spec fn may_join(s: Seq<EntryData>, e: EntryData) -> bool {
    &&& valid_name(e.name)
    &&& !hidden_name(e.name)
    &&& forall|i: int| 0 <= i < s.len() ==> (#[trigger] s[i]).name != e.name
}

/// Putting an entry in its place keeps a listing canonical, and the
/// listing then holds the entry and what it held before.
#[verifier::rlimit(30)]
pub proof fn lemma_insert_canonical(s: Seq<EntryData>, e: EntryData)
    requires
        canonical_listing(s),
        may_join(s, e),
    ensures
        canonical_listing(insert_entry(s, e)),
        insert_entry(s, e).len() == s.len() + 1,
        forall|x: int|
            0 <= x < insert_entry(s, e).len() ==> (#[trigger] insert_entry(s, e)[x]) == e
                || s.contains(insert_entry(s, e)[x]),
        insert_entry(s, e).contains(e),
        forall|i: int| 0 <= i < s.len() ==> insert_entry(s, e).contains(#[trigger] s[i]),
    decreases s.len(),
{
    let r = insert_entry(s, e);
    if s.len() == 0 {
        assert(r[0] == e);
    } else if entry_lt(s.last(), e) {
        assert forall|i: int, j: int| 0 <= i < j < r.len() implies entry_lt(
            #[trigger] r[i],
            #[trigger] r[j],
        ) by {
            if j == s.len() && i < s.len() - 1 {
                lemma_lex_transitive(
                    sort_key(s[i].name, s[i].is_dir),
                    sort_key(s.last().name, s.last().is_dir),
                    sort_key(e.name, e.is_dir),
                );
            }
        }
        assert forall|x: int| 0 <= x < r.len() implies (#[trigger] r[x]) == e || s.contains(
            r[x],
        ) by {
            if x < s.len() {
                assert(s[x] == r[x]);
            }
        }
        assert(r[s.len() as int] == e);
        assert forall|i: int| 0 <= i < s.len() implies r.contains(#[trigger] s[i]) by {
            assert(r[i] == s[i]);
        }
    } else {
        let front = s.drop_last();
        let last = s.last();
        let mid = insert_entry(front, e);
        assert forall|i: int| 0 <= i < front.len() implies (#[trigger] front[i]).name != e.name by {
            assert(front[i] == s[i]);
        }
        lemma_insert_canonical(front, e);
        lemma_name_order_total(last.name, last.is_dir, e.name, e.is_dir);
        assert(entry_lt(e, last));
        assert forall|x: int| 0 <= x < mid.len() implies entry_lt(#[trigger] mid[x], last) && mid[x].name
            != last.name by {
            if mid[x] != e {
                let i = choose|i: int| 0 <= i < front.len() && front[i] == mid[x];
                assert(s[i] == mid[x]);
            }
        }
        assert forall|x: int| 0 <= x < r.len() implies (#[trigger] r[x]) == e || s.contains(
            r[x],
        ) by {
            if x < mid.len() {
                assert(r[x] == mid[x]);
                if mid[x] != e {
                    let i = choose|i: int| 0 <= i < front.len() && front[i] == mid[x];
                    assert(s[i] == mid[x]);
                }
            } else {
                assert(s[s.len() - 1] == r[x]);
            }
        }
        let at = choose|x: int| 0 <= x < mid.len() && mid[x] == e;
        assert(r[at] == e);
        assert forall|i: int| 0 <= i < s.len() implies r.contains(#[trigger] s[i]) by {
            if i < front.len() {
                assert(mid.contains(front[i]));
                let x = choose|x: int| 0 <= x < mid.len() && mid[x] == front[i];
                assert(r[x] == s[i]);
            } else {
                assert(r[mid.len() as int] == s[i]);
            }
        }
        assert forall|i: int| 0 <= i < r.len() implies valid_name(#[trigger] r[i].name)
            && !hidden_name(r[i].name) by {
            if i < mid.len() {
                assert(r[i] == mid[i]);
            }
        }
        assert forall|i: int, j: int| 0 <= i < j < r.len() implies entry_lt(
            #[trigger] r[i],
            #[trigger] r[j],
        ) && r[i].name != r[j].name by {
            assert(r[i] == mid[i]);
            if j < mid.len() {
                assert(r[j] == mid[j]);
            }
        }
    }
}

/// A listing that is in order already is its own sorting.
pub proof fn lemma_sort_canonical_is_identity(s: Seq<EntryData>)
    requires
        canonical_listing(s),
    ensures
        sort_listing(s) == s,
    decreases s.len(),
{
    if s.len() > 0 {
        let front = s.drop_last();
        lemma_sort_canonical_is_identity(front);
        if front.len() == 0 {
            assert(insert_entry(front, s.last()) =~= s);
        } else {
            assert(front.last() == s[s.len() - 2]);
            assert(entry_lt(front.last(), s.last()));
            assert(front.push(s.last()) =~= s);
        }
    }
}

/// Entries with valid, visible names, no name twice, make a canonical
/// listing once they are put in order, and the listing holds just them.
#[verifier::rlimit(30)]
pub proof fn lemma_sort_canonical(s: Seq<EntryData>)
    requires
        forall|i: int| 0 <= i < s.len() ==> valid_name(#[trigger] s[i].name) && !hidden_name(s[i].name),
        forall|i: int, j: int| 0 <= i < j < s.len() ==> (#[trigger] s[i]).name != (#[trigger] s[j]).name,
    ensures
        canonical_listing(sort_listing(s)),
        sort_listing(s).len() == s.len(),
        forall|x: int| 0 <= x < sort_listing(s).len() ==> s.contains(#[trigger] sort_listing(s)[x]),
        forall|i: int| 0 <= i < s.len() ==> sort_listing(s).contains(#[trigger] s[i]),
    decreases s.len(),
{
    if s.len() > 0 {
        let front = s.drop_last();
        let e = s.last();
        assert forall|i: int| 0 <= i < front.len() implies valid_name(#[trigger] front[i].name)
            && !hidden_name(front[i].name) by {
            assert(front[i] == s[i]);
        }
        assert forall|i: int, j: int| 0 <= i < j < front.len() implies (#[trigger] front[i]).name != (
        #[trigger] front[j]).name by {
            assert(front[i] == s[i]);
            assert(front[j] == s[j]);
        }
        lemma_sort_canonical(front);
        let sorted = sort_listing(front);
        assert forall|i: int| 0 <= i < sorted.len() implies (#[trigger] sorted[i]).name != e.name by {
            let x = choose|x: int| 0 <= x < front.len() && front[x] == sorted[i];
            assert(s[x] == sorted[i]);
            assert(s[x].name != s[s.len() - 1].name);
        }
        lemma_insert_canonical(sorted, e);
        let r = sort_listing(s);
        assert forall|x: int| 0 <= x < r.len() implies s.contains(#[trigger] r[x]) by {
            if r[x] == e {
                assert(s[s.len() - 1] == e);
            } else {
                let y = choose|y: int| 0 <= y < sorted.len() && sorted[y] == r[x];
                let z = choose|z: int| 0 <= z < front.len() && front[z] == sorted[y];
                assert(s[z] == r[x]);
            }
        }
        assert forall|i: int| 0 <= i < s.len() implies r.contains(#[trigger] s[i]) by {
            if i < front.len() {
                assert(front[i] == s[i]);
                assert(sorted.contains(front[i]));
                let y = choose|y: int| 0 <= y < sorted.len() && sorted[y] == front[i];
                assert(r.contains(sorted[y]));
            }
        }
    }
}

/// Puts an entry in its place in a canonical listing.
pub(crate) fn insert_sorted(entries: &mut Vec<TreeEntry>, entry: TreeEntry)
    requires
        canonical_listing(listing(old(entries)@)),
        may_join(listing(old(entries)@), entry@),
    ensures
        listing(final(entries)@) == insert_entry(listing(old(entries)@), entry@),
        canonical_listing(listing(final(entries)@)),
{
    let ghost s = listing(entries@);
    let ghost e = entry@;
    let mut at: usize = entries.len();
    proof {
        assert(s.subrange(0, s.len() as int) =~= s);
        assert(insert_entry(s, e) + s.subrange(s.len() as int, s.len() as int) =~= insert_entry(
            s,
            e,
        ));
    }
    while at > 0 && !name_precedes(
        &entries[at - 1].name,
        entries[at - 1].is_dir,
        &entry.name,
        entry.is_dir,
    )
        invariant
            at <= entries.len(),
            s == listing(entries@),
            e == entry@,
            canonical_listing(s),
            may_join(s, e),
            insert_entry(s, e) == insert_entry(s.subrange(0, at as int), e) + s.subrange(
                at as int,
                s.len() as int,
            ),
        decreases at,
    {
        let ghost front = s.subrange(0, at as int);
        assert(front.last() == s[at as int - 1]);
        assert(front.drop_last() =~= s.subrange(0, at as int - 1));
        assert(insert_entry(front, e) == insert_entry(front.drop_last(), e).push(front.last()));
        assert(insert_entry(front.drop_last(), e).push(front.last()) + s.subrange(
            at as int,
            s.len() as int,
        ) =~= insert_entry(front.drop_last(), e) + s.subrange(at as int - 1, s.len() as int));
        at -= 1;
    }
    proof {
        let front = s.subrange(0, at as int);
        if at > 0 {
            assert(front.last() == s[at as int - 1]);
            assert(insert_entry(front, e) == front.push(e));
        } else {
            assert(insert_entry(front, e) =~= front.push(e));
        }
        assert(front.push(e) + s.subrange(at as int, s.len() as int) =~= s.insert(at as int, e));
        lemma_insert_canonical(s, e);
    }
    entries.insert(at, entry);
    assert(listing(entries@) =~= s.insert(at as int, e));
}

} // verus!
