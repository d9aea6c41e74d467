//! Object names: the 160-bit content hashes that identify blobs, trees and
//! commits, and their 40-digit hexadecimal text form.

use vstd::prelude::*;

verus! {

/// The name of an object: a 160-bit number, kept as its top 32 bits and its
/// low 128 bits.
#[derive(Clone, Copy, PartialEq, Eq, Structural, Debug)]
pub struct ObjectId {
    pub hi: u32,
    pub lo: u128,
}

/// Two to the power 128: the weight of `ObjectId::hi`.
pub open spec fn low_limb() -> nat {
    (u128::MAX as nat + 1) as nat
}

impl ObjectId {
    /// The 160-bit number that this name stands for.
    pub open spec fn number(self) -> nat {
        self.hi as nat * low_limb() + self.lo as nat
    }
}

/// The value of one hexadecimal digit, in either case.
pub open spec fn hex_digit(c: char) -> Option<nat> {
    if '0' <= c <= '9' {
        Some((c as nat - '0' as nat) as nat)
    } else if 'a' <= c <= 'f' {
        Some((c as nat - 'a' as nat + 10) as nat)
    } else if 'A' <= c <= 'F' {
        Some((c as nat - 'A' as nat + 10) as nat)
    } else {
        None
    }
}

/// Every character is a hexadecimal digit.
pub open spec fn all_hex(s: Seq<char>) -> bool {
    forall|i: int| 0 <= i < s.len() ==> (#[trigger] hex_digit(s[i])).is_some()
}

/// Every character is a decimal digit or one of `a` to `f`.
pub open spec fn all_lower_hex(s: Seq<char>) -> bool {
    forall|i: int| 0 <= i < s.len() ==> ('0' <= #[trigger] s[i] <= '9' || 'a' <= s[i] <= 'f')
}

/// The number that a string of hexadecimal digits writes, most significant
/// digit first. A character that is no digit counts as zero.
pub open spec fn hex_number(s: Seq<char>) -> nat
    decreases s.len(),
{
    if s.len() == 0 {
        0
    } else {
        let digit: nat = match hex_digit(s.last()) {
            Some(d) => d,
            None => 0,
        };
        16 * hex_number(s.drop_last()) + digit
    }
}

/// The object name that a text writes: the text must be exactly 40
/// hexadecimal digits.
pub open spec fn hex_id(s: Seq<char>) -> Option<ObjectId> {
    if s.len() == 40 && all_hex(s) {
        Some(
            ObjectId {
                hi: (hex_number(s) / low_limb()) as u32,
                lo: (hex_number(s) % low_limb()) as u128,
            },
        )
    } else {
        None
    }
}

/// A text is the canonical writing of `id`: 40 lower-case digits whose
/// number is the id's.
pub open spec fn is_hex_of(s: Seq<char>, id: ObjectId) -> bool {
    &&& s.len() == 40
    &&& all_lower_hex(s)
    &&& hex_number(s) == id.number()
}

/// Calls `gix::ObjectId::from_hex` on the text's bytes. That function accepts
/// exactly the texts of 40 hexadecimal digits, upper or lower case, and
/// decodes them two digits to a byte, first byte first; the bytes are taken
/// here as one big-endian number.
#[verifier::external_body]
fn decode_hex(text: &str) -> (r: Option<ObjectId>)
    ensures
        r == hex_id(text@),
{
    match gix::ObjectId::from_hex(text.as_bytes()) {
        Ok(gix::ObjectId::Sha1(b)) => Some(
            ObjectId {
                hi: u32::from_be_bytes([b[0], b[1], b[2], b[3]]),
                lo: u128::from_be_bytes(b[4..].try_into().unwrap()),
            },
        ),
        _ => None,
    }
}

/// Calls `to_string` on the `gix::ObjectId` made of the number's 20
/// big-endian bytes. Its `Display` writes each byte as two lower-case
/// hexadecimal digits, first byte first.
#[verifier::external_body]
fn encode_hex(id: ObjectId) -> (r: String)
    ensures
        is_hex_of(r@, id),
{
    let mut b = [0u8; 20];
    b[..4].copy_from_slice(&id.hi.to_be_bytes());
    b[4..].copy_from_slice(&id.lo.to_be_bytes());
    gix::ObjectId::Sha1(b).to_string()
}

/// A lower-case hexadecimal text is a hexadecimal text.
pub proof fn lemma_lower_hex_is_hex(s: Seq<char>)
    requires
        all_lower_hex(s),
    ensures
        all_hex(s),
{
    assert forall|i: int| 0 <= i < s.len() implies (#[trigger] hex_digit(s[i])).is_some() by {
        assert('0' <= s[i] <= '9' || 'a' <= s[i] <= 'f');
    }
}

/// Splitting a 160-bit number into its limbs gives back the name.
pub proof fn lemma_number_limbs(id: ObjectId)
    ensures
        id.number() / low_limb() == id.hi,
        id.number() % low_limb() == id.lo,
{
    let m: int = low_limb() as int;
    let h: int = id.hi as int;
    let l: int = id.lo as int;
    assert(0 <= l < m);
    assert((h * m + l) / m == h && (h * m + l) % m == l) by (nonlinear_arith)
        requires
            0 <= l < m,
            0 <= h,
    ;
}

/// Reading back the canonical writing of a name gives the name.
pub proof fn lemma_hex_round_trip(s: Seq<char>, id: ObjectId)
    requires
        is_hex_of(s, id),
    ensures
        hex_id(s) == Some(id),
{
    lemma_lower_hex_is_hex(s);
    lemma_number_limbs(id);
}

impl ObjectId {
    /// Reads an object name from its hexadecimal text; `None` unless the text
    /// is exactly 40 hexadecimal digits.
    pub fn parse(text: &str) -> (r: Option<ObjectId>)
        ensures
            r == hex_id(text@),
    {
        decode_hex(text)
    }

    /// Writes the name as 40 lower-case hexadecimal digits; `parse` reads the
    /// result back as the same name.
    pub fn to_hex(&self) -> (r: String)
        ensures
            is_hex_of(r@, *self),
            hex_id(r@) == Some(*self),
    {
        let r = encode_hex(*self);
        proof {
            lemma_hex_round_trip(r@, *self);
        }
        r
    }
}

} // verus!
