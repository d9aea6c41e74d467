//! The three kinds of object that a snapshot is made of, and the names that
//! their contents give them.

use crate::names::{hidden_name, name_lt, valid_name};
use crate::object_id::ObjectId;
use crate::text::decimal;
use vstd::arithmetic::power::pow;
use vstd::prelude::*;
use vstd::utf8::encode_utf8;

verus! {

/// The kind of an object.
#[derive(Clone, Copy, PartialEq, Eq, Structural, Debug)]
pub enum ObjectKind {
    Blob,
    Tree,
    Commit,
}

/// One line of a directory listing: a name and the object it stands for.
#[derive(Debug)]
pub struct TreeEntry {
    pub name: Vec<u8>,
    pub is_dir: bool,
    pub id: ObjectId,
}

/// A `TreeEntry` as a mathematical value.
pub struct EntryData {
    pub name: Seq<u8>,
    pub is_dir: bool,
    pub id: ObjectId,
}

impl View for TreeEntry {
    type V = EntryData;

    open spec fn view(&self) -> EntryData {
        EntryData { name: self.name@, is_dir: self.is_dir, id: self.id }
    }
}

/// The listing that a vector of entries holds.
pub open spec fn listing(entries: Seq<TreeEntry>) -> Seq<EntryData> {
    entries.map_values(|e: TreeEntry| e@)
}

/// The first entry comes strictly before the second.
pub open spec fn entry_lt(a: EntryData, b: EntryData) -> bool {
    name_lt(a.name, a.is_dir, b.name, b.is_dir)
}

/// A listing as a tree object holds it: valid visible names, no name twice,
/// in strictly increasing order.
pub open spec fn canonical_listing(s: Seq<EntryData>) -> bool {
    &&& forall|i: int| 0 <= i < s.len() ==> valid_name(#[trigger] s[i].name)
    &&& forall|i: int| 0 <= i < s.len() ==> !hidden_name(#[trigger] s[i].name)
    &&& forall|i: int, j: int| 0 <= i < j < s.len() ==> #[trigger] s[i].name != #[trigger] s[j].name
    &&& forall|i: int, j: int| 0 <= i < j < s.len() ==> entry_lt(#[trigger] s[i], #[trigger] s[j])
}

/// The author that every snapshot is signed with.
pub open spec fn author_name() -> Seq<char> {
    "CutReady"@
}

/// The author's address.
pub open spec fn author_email() -> Seq<char> {
    "app@cutready.local"@
}

/// The name that `gix::objs::compute_hash` gives to an object of a kind with
/// given serialized data, if it gives one.
pub uninterp spec fn object_hash(kind: ObjectKind, data: Seq<u8>) -> Option<ObjectId>;

/// The file mode of an entry in octal digits, without a leading zero:
/// `40000` for a directory and `100644` for a file.
pub open spec fn mode_bytes(is_dir: bool) -> Seq<u8> {
    if is_dir {
        seq![52u8, 48u8, 48u8, 48u8, 48u8]
    } else {
        seq![49u8, 48u8, 48u8, 54u8, 52u8, 52u8]
    }
}

/// The 20 bytes of an object name, the most significant first.
pub open spec fn id_bytes(id: ObjectId) -> Seq<u8> {
    Seq::new(20, |i: int| ((id.number() as int / pow(256, (19 - i) as nat)) % 256) as u8)
}

/// An entry as a tree object holds it: mode, a space, the name, a NUL byte
/// and the bytes of the object's name.
pub open spec fn entry_bytes(e: EntryData) -> Seq<u8> {
    mode_bytes(e.is_dir) + seq![32u8] + e.name + seq![0u8] + id_bytes(e.id)
}

/// The data of a tree object: its entries one after the other.
pub open spec fn tree_bytes(entries: Seq<EntryData>) -> Seq<u8>
    decreases entries.len(),
{
    if entries.len() == 0 {
        Seq::empty()
    } else {
        tree_bytes(entries.drop_last()) + entry_bytes(entries.last())
    }
}

/// The character of a hexadecimal digit, in lower case.
pub open spec fn hex_char(d: int) -> char {
    if d < 10 {
        (48 + d) as char
    } else {
        (87 + d) as char
    }
}

/// An object name in 40 lower-case hexadecimal digits.
pub open spec fn hex_text(id: ObjectId) -> Seq<char> {
    Seq::new(40, |i: int| hex_char((id.number() as int / pow(16, (39 - i) as nat)) % 16))
}

/// A whole number in decimal digits, with a minus sign if it is negative.
pub open spec fn signed_decimal(n: int) -> Seq<char> {
    if n < 0 {
        seq!['-'] + decimal((-n) as nat)
    } else {
        decimal(n as nat)
    }
}

/// A name or an address that a signature can carry: free of `<`, `>` and
/// line ends.
pub open spec fn valid_token(s: Seq<char>) -> bool {
    !s.contains('<') && !s.contains('>') && !s.contains('\n')
}

/// Who made a commit and when: name, address, seconds since 1970, and the
/// offset of UTC from itself.
pub open spec fn signature_text(author: Seq<char>, email: Seq<char>, time: int) -> Seq<char> {
    author + " <"@ + email + "> "@ + signed_decimal(time) + " +0000"@
}

/// A commit object as text: the tree, the parent if there is one, author
/// and committer, an empty line, and the message.
pub open spec fn commit_text(
    tree: ObjectId,
    parent: Option<ObjectId>,
    author: Seq<char>,
    email: Seq<char>,
    time: int,
    message: Seq<char>,
) -> Seq<char> {
    "tree "@ + hex_text(tree) + "\n"@ + (match parent {
        Some(p) => "parent "@ + hex_text(p) + "\n"@,
        None => Seq::empty(),
    }) + "author "@ + signature_text(author, email, time) + "\n"@ + "committer "@ + signature_text(
        author,
        email,
        time,
    ) + "\n\n"@ + message
}

/// The data of a commit object: its text in UTF-8. A commit whose author's
/// name or address is no valid token has none.
pub open spec fn commit_encoding(
    tree: ObjectId,
    parent: Option<ObjectId>,
    author: Seq<char>,
    email: Seq<char>,
    time: int,
    message: Seq<char>,
) -> Option<Seq<u8>> {
    if valid_token(author) && valid_token(email) {
        Some(encode_utf8(commit_text(tree, parent, author, email, time, message)))
    } else {
        None
    }
}

/// The name of the blob that holds `data`.
pub open spec fn blob_id(data: Seq<u8>) -> Option<ObjectId> {
    object_hash(ObjectKind::Blob, data)
}

/// The name of the tree that holds a listing.
pub open spec fn tree_id(entries: Seq<EntryData>) -> Option<ObjectId> {
    object_hash(ObjectKind::Tree, tree_bytes(entries))
}

/// The name of the commit with the given fields.
pub open spec fn commit_id(
    tree: ObjectId,
    parent: Option<ObjectId>,
    time: int,
    message: Seq<char>,
) -> Option<ObjectId> {
    match commit_encoding(tree, parent, author_name(), author_email(), time, message) {
        Some(bytes) => object_hash(ObjectKind::Commit, bytes),
        None => None,
    }
}

/// Calls `gix::objs::compute_hash` for SHA-1, which hashes the object's
/// header and data and fails only when the hasher detects a collision attack.
/// The 20 bytes of the digest are taken as one big-endian number. Nothing is
/// claimed of the result but that it is what `object_hash` names: it depends
/// on the kind and the data alone.
#[verifier::external_body]
fn hash_object(kind: ObjectKind, data: &Vec<u8>) -> (r: Option<ObjectId>)
    ensures
        r == object_hash(kind, data@),
{
    let kind = match kind {
        ObjectKind::Blob => gix::objs::Kind::Blob,
        ObjectKind::Tree => gix::objs::Kind::Tree,
        ObjectKind::Commit => gix::objs::Kind::Commit,
    };
    match gix::objs::compute_hash(gix::hash::Kind::Sha1, kind, data) {
        Ok(gix::ObjectId::Sha1(b)) => Some(
            ObjectId {
                hi: u32::from_be_bytes([b[0], b[1], b[2], b[3]]),
                lo: u128::from_be_bytes(b[4..].try_into().unwrap()),
            },
        ),
        _ => None,
    }
}

/// Calls `write_to` of `gix::objs::Tree` on the listing, a directory as a
/// tree entry and a file as a plain blob entry, each id read from the 40
/// hexadecimal digits of its number. The serializer writes the entries one
/// after the other, each as mode, space, name, NUL and the 20 bytes of the
/// id. It fails only on a name with a NUL byte, and a debug build stops on a
/// listing that is not in order: a canonical listing is neither.
#[verifier::external_body]
fn encode_tree(entries: &Vec<TreeEntry>) -> (r: Vec<u8>)
    requires
        canonical_listing(listing(entries@)),
    ensures
        r@ == tree_bytes(listing(entries@)),
{
    let id = |i: ObjectId| gix::ObjectId::from_hex(format!("{:08x}{:032x}", i.hi, i.lo).as_bytes()).unwrap();
    let kind = |dir: bool| if dir { gix::objs::tree::EntryKind::Tree } else { gix::objs::tree::EntryKind::Blob };
    let entries = entries.iter().map(
        |e| gix::objs::tree::Entry { mode: kind(e.is_dir).into(), filename: e.name.as_slice().into(), oid: id(e.id) },
    ).collect();
    let mut out = Vec::new();
    let _ = gix::objs::WriteTo::write_to(&gix::objs::Tree { entries }, &mut out);
    out
}

/// Calls `write_to` of `gix::objs::Commit` on a commit with at most one
/// parent, the same signature as author and committer, at `time` seconds
/// since the epoch in UTC, and no further headers; each id is read from the
/// 40 hexadecimal digits of its number. The serializer writes a line for
/// the tree, one for the parent, one for the author and one for the
/// committer, an empty line and the message, the ids in lower-case
/// hexadecimal digits and the time in decimal digits, all text in UTF-8. It
/// fails only on a name or an address that holds `<`, `>` or a line end.
#[verifier::external_body]
fn encode_commit(
    tree: ObjectId,
    parent: Option<ObjectId>,
    author: &str,
    email: &str,
    time: i64,
    message: &str,
) -> (r: Option<Vec<u8>>)
    ensures
        match r {
            Some(bytes) => commit_encoding(tree, parent, author@, email@, time as int, message@)
                == Some(bytes@),
            None => commit_encoding(tree, parent, author@, email@, time as int, message@) is None,
        },
{
    let id = |i: ObjectId| gix::ObjectId::from_hex(format!("{:08x}{:032x}", i.hi, i.lo).as_bytes()).unwrap();
    let time = gix::date::Time::new(time, 0);
    let signature = gix::actor::Signature { name: author.into(), email: email.into(), time };
    let commit = gix::objs::Commit {
        tree: id(tree),
        parents: parent.into_iter().map(id).collect(),
        author: signature.clone(),
        committer: signature,
        encoding: None,
        message: message.into(),
        extra_headers: Vec::new(),
    };
    let mut out = Vec::new();
    gix::objs::WriteTo::write_to(&commit, &mut out).ok().map(|_| out)
}

/// Names the blob that holds `data`.
pub fn name_blob(data: &Vec<u8>) -> (r: Option<ObjectId>)
    ensures
        r == blob_id(data@),
{
    hash_object(ObjectKind::Blob, data)
}

/// Names the tree that holds a canonical listing.
pub fn name_tree(entries: &Vec<TreeEntry>) -> (r: Option<ObjectId>)
    requires
        canonical_listing(listing(entries@)),
    ensures
        r == tree_id(listing(entries@)),
{
    hash_object(ObjectKind::Tree, &encode_tree(entries))
}

/// Names the commit with the given fields.
pub fn name_commit(tree: ObjectId, parent: Option<ObjectId>, time: i64, message: &str) -> (r:
    Option<ObjectId>)
    ensures
        r == commit_id(tree, parent, time as int, message@),
{
    match encode_commit(tree, parent, "CutReady", "app@cutready.local", time, message) {
        Some(bytes) => hash_object(ObjectKind::Commit, &bytes),
        None => None,
    }
}

} // verus!
