//! Entry names and the order in which a directory listing is kept.
//!
//! A name is a string of bytes. Listings are ordered by comparing names byte
//! by byte, a directory's name counting as if it ended in a slash.

use vstd::prelude::*;

verus! {

/// The byte `/`.
pub open spec fn slash() -> u8 {
    47
}

/// A name that can stand in a listing: not empty, and free of `/` and NUL.
pub open spec fn valid_name(name: Seq<u8>) -> bool {
    &&& name.len() > 0
    &&& forall|i: int| 0 <= i < name.len() ==> #[trigger] name[i] != 0 && name[i] != slash()
}

/// A hidden name starts with a dot. Hidden entries never enter a snapshot.
pub open spec fn hidden_name(name: Seq<u8>) -> bool {
    name.len() > 0 && name[0] == 46
}

/// Strict lexicographic order on byte strings; a proper prefix comes first.
pub open spec fn lex_lt(a: Seq<u8>, b: Seq<u8>) -> bool
    decreases a.len(),
{
    if b.len() == 0 {
        false
    } else if a.len() == 0 {
        true
    } else if a[0] != b[0] {
        a[0] < b[0]
    } else {
        lex_lt(a.drop_first(), b.drop_first())
    }
}

/// What a name is compared by: the name itself for a file, the name followed
/// by a slash for a directory.
pub open spec fn sort_key(name: Seq<u8>, is_dir: bool) -> Seq<u8> {
    if is_dir {
        name.push(slash())
    } else {
        name
    }
}

/// The first name comes strictly before the second in a listing.
pub open spec fn name_lt(a: Seq<u8>, a_dir: bool, b: Seq<u8>, b_dir: bool) -> bool {
    lex_lt(sort_key(a, a_dir), sort_key(b, b_dir))
}

/// What comes before something that comes before a third comes before the
/// third.
pub proof fn lemma_lex_transitive(a: Seq<u8>, b: Seq<u8>, c: Seq<u8>)
    requires
        lex_lt(a, b),
        lex_lt(b, c),
    ensures
        lex_lt(a, c),
    decreases a.len(),
{
    if a.len() > 0 && b.len() > 0 && c.len() > 0 {
        if a[0] == b[0] && b[0] == c[0] {
            lemma_lex_transitive(a.drop_first(), b.drop_first(), c.drop_first());
        }
    }
}

/// Of two different byte strings one comes before the other.
pub proof fn lemma_lex_total(a: Seq<u8>, b: Seq<u8>)
    ensures
        a == b || lex_lt(a, b) || lex_lt(b, a),
    decreases a.len(),
{
    if a.len() == 0 || b.len() == 0 {
        if a.len() == 0 && b.len() == 0 {
            assert(a =~= b);
        }
    } else if a[0] == b[0] {
        lemma_lex_total(a.drop_first(), b.drop_first());
        if a.drop_first() == b.drop_first() {
            assert(a =~= seq![a[0]] + a.drop_first());
            assert(b =~= seq![b[0]] + b.drop_first());
        }
    }
}

/// Two valid names have the same sort key only if they are the same name of
/// the same kind.
pub proof fn lemma_sort_key_injective(a: Seq<u8>, a_dir: bool, b: Seq<u8>, b_dir: bool)
    requires
        valid_name(a),
        valid_name(b),
        sort_key(a, a_dir) == sort_key(b, b_dir),
    ensures
        a == b,
        a_dir == b_dir,
{
    if a_dir && b_dir {
        assert(a =~= a.push(slash()).drop_last());
        assert(b =~= b.push(slash()).drop_last());
    } else if a_dir {
        assert(a.push(slash())[a.len() as int] == slash());
        assert(b[a.len() as int] == slash());
    } else if b_dir {
        assert(b.push(slash())[b.len() as int] == slash());
        assert(a[b.len() as int] == slash());
    }
}

/// Of two different valid names, one comes before the other.
pub proof fn lemma_name_order_total(a: Seq<u8>, a_dir: bool, b: Seq<u8>, b_dir: bool)
    requires
        valid_name(a),
        valid_name(b),
        a != b,
    ensures
        name_lt(a, a_dir, b, b_dir) || name_lt(b, b_dir, a, a_dir),
{
    lemma_lex_total(sort_key(a, a_dir), sort_key(b, b_dir));
    if sort_key(a, a_dir) == sort_key(b, b_dir) {
        lemma_sort_key_injective(a, a_dir, b, b_dir);
    }
}

/// Calls `gix::objs::tree::name_order`, which compares two entry names as a
/// tree object orders them: byte by byte over the common length, then by the
/// byte that follows, a directory's name being followed by `/` and a file's
/// by nothing. For names without `/` that is the lexicographic order of the
/// sort keys.
#[verifier::external_body]
pub(crate) fn name_precedes(a: &Vec<u8>, a_dir: bool, b: &Vec<u8>, b_dir: bool) -> (r: bool)
    requires
        valid_name(a@),
        valid_name(b@),
    ensures
        r == name_lt(a@, a_dir, b@, b_dir),
{
    gix::objs::tree::name_order(a, a_dir, b, b_dir).is_lt()
}

/// Whether two byte strings are the same.
pub fn same_bytes(a: &Vec<u8>, b: &Vec<u8>) -> (r: bool)
    ensures
        r == (a@ == b@),
{
    if a.len() != b.len() {
        return false;
    }
    let mut i: usize = 0;
    while i < a.len()
        invariant
            a.len() == b.len(),
            i <= a.len(),
            forall|j: int| 0 <= j < i ==> a@[j] == b@[j],
        decreases a.len() - i,
    {
        if a[i] != b[i] {
            return false;
        }
        i += 1;
    }
    assert(a@ =~= b@);
    true
}

/// A copy of a byte string.
pub fn copy_bytes(a: &Vec<u8>) -> (r: Vec<u8>)
    ensures
        r@ == a@,
{
    let mut r: Vec<u8> = Vec::new();
    let mut i: usize = 0;
    while i < a.len()
        invariant
            i <= a.len(),
            r@ == a@.subrange(0, i as int),
        decreases a.len() - i,
    {
        r.push(a[i]);
        i += 1;
        assert(r@ =~= a@.subrange(0, i as int));
    }
    assert(a@.subrange(0, a.len() as int) =~= a@);
    r
}

/// Whether a name is hidden.
pub fn is_hidden(name: &Vec<u8>) -> (r: bool)
    ensures
        r == hidden_name(name@),
{
    name.len() > 0 && name[0] == 46
}

/// Whether a name can stand in a listing.
pub fn is_valid_name(name: &Vec<u8>) -> (r: bool)
    ensures
        r == valid_name(name@),
{
    if name.len() == 0 {
        return false;
    }
    let mut i: usize = 0;
    while i < name.len()
        invariant
            i <= name.len(),
            forall|j: int| 0 <= j < i ==> #[trigger] name@[j] != 0 && name@[j] != slash(),
        decreases name.len() - i,
    {
        if name[i] == 0 || name[i] == 47 {
            return false;
        }
        i += 1;
    }
    true
}

} // verus!
