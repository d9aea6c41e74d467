//! The texts of the side files in which a project's position is kept
//! between two runs: the head, the label table, and the markers of the
//! tip that was left and of the stash.

use crate::object_id::{hex_id, is_hex_of, ObjectId};
use crate::project::{main_slug, Head, HeadData, Label, LabelData};
use crate::registry::{lemma_with_label_at, with_label};
use crate::text::{chars_of, same_text, string_of, trim_text, trimmed};
use vstd::prelude::*;
use vstd::string::StringExecFns;

verus! {

/// What stands before the name of a reference in the head's text.
pub open spec fn ref_mark() -> Seq<char> {
    "ref: "@
}

/// The full name of main's reference.
pub open spec fn main_ref() -> Seq<char> {
    "refs/heads/main"@
}

/// What stands before a slug in the full name of a timeline's reference.
pub open spec fn timeline_prefix() -> Seq<char> {
    "refs/heads/timeline/"@
}

/// The full name of the reference of a timeline.
pub open spec fn ref_name(slug: Seq<char>) -> Seq<char> {
    if slug == main_slug() {
        main_ref()
    } else {
        timeline_prefix() + slug
    }
}

/// A text is the head's text: the mark and the reference's name for a user
/// on a timeline, the commit's id for a user on none, and a line end.
pub open spec fn is_head_text(text: Seq<char>, head: HeadData) -> bool {
    match head {
        HeadData::Attached(slug) => text == ref_mark() + ref_name(slug) + seq!['\n'],
        HeadData::Detached(id) => text.len() > 0 && text.last() == '\n' && is_hex_of(
            text.drop_last(),
            id,
        ),
    }
}

/// Writes the head's text.
pub fn head_text(head: &Head) -> (r: String)
    ensures
        is_head_text(r@, head@),
{
    proof {
        reveal_strlit("\n");
        assert("\n"@ =~= seq!['\n']);
    }
    match head {
        Head::Attached(slug) => {
            let mut text = String::from_str("ref: ");
            if same_text(slug.as_str(), "main") {
                text.append("refs/heads/main");
            } else {
                text.append("refs/heads/timeline/");
                text.append(slug.as_str());
            }
            text.append("\n");
            assert(text@ =~= ref_mark() + ref_name(slug@) + seq!['\n']);
            text
        },
        Head::Detached(id) => {
            let mut text = id.to_hex();
            let ghost hex = text@;
            text.append("\n");
            assert(text@ =~= hex + seq!['\n']);
            assert(text@.drop_last() =~= hex);
            text
        },
    }
}

/// The head that a text tells of, white space at its ends not counting: a
/// timeline where the text is the mark followed by the full name of main's
/// or of a timeline's reference, a commit where it is a commit id.
pub open spec fn head_of_text(text: Seq<char>) -> Option<HeadData> {
    let t = trimmed(text);
    if t == ref_mark() + main_ref() {
        Some(HeadData::Attached(main_slug()))
    } else if (ref_mark() + timeline_prefix()).is_prefix_of(t) {
        Some(HeadData::Attached(t.skip((ref_mark() + timeline_prefix()).len() as int)))
    } else {
        match hex_id(t) {
            Some(id) => Some(HeadData::Detached(id)),
            None => None,
        }
    }
}

/// Whether the first characters of a text are those of another.
fn starts_with(text: &Vec<char>, start: &Vec<char>) -> (r: bool)
    ensures
        r == start@.is_prefix_of(text@),
{
    if start.len() > text.len() {
        return false;
    }
    let mut i: usize = 0;
    while i < start.len()
        invariant
            i <= start.len() <= text.len(),
            forall|j: int| 0 <= j < i ==> text@[j] == start@[j],
        decreases start.len() - i,
    {
        if text[i] != start[i] {
            assert(text@.subrange(0, start@.len() as int)[i as int] != start@[i as int]);
            return false;
        }
        i += 1;
    }
    assert(text@.subrange(0, start@.len() as int) =~= start@);
    true
}

/// The characters of a text from a place on.
fn chars_from(text: &Vec<char>, from: usize) -> (r: Vec<char>)
    requires
        from <= text.len(),
    ensures
        r@ == text@.skip(from as int),
{
    let mut rest: Vec<char> = Vec::new();
    let mut i: usize = from;
    while i < text.len()
        invariant
            from <= i <= text.len(),
            rest@ == text@.subrange(from as int, i as int),
        decreases text.len() - i,
    {
        rest.push(text[i]);
        i += 1;
        assert(rest@ =~= text@.subrange(from as int, i as int));
    }
    assert(text@.subrange(from as int, text@.len() as int) =~= text@.skip(from as int));
    rest
}

/// Reads the head's text.
pub fn parse_head_text(text: &str) -> (r: Option<Head>)
    ensures
        match r {
            Some(head) => head_of_text(text@) == Some(head@),
            None => head_of_text(text@) is None,
        },
{
    let kept = trim_text(text);
    if same_text(kept.as_str(), "ref: refs/heads/main") {
        proof {
            reveal_strlit("ref: refs/heads/main");
            reveal_strlit("ref: ");
            reveal_strlit("refs/heads/main");
            assert("ref: refs/heads/main"@ =~= ref_mark() + main_ref());
        }
        return Some(Head::Attached(String::from_str("main")));
    }
    proof {
        reveal_strlit("ref: refs/heads/main");
        reveal_strlit("ref: ");
        reveal_strlit("refs/heads/main");
        assert("ref: refs/heads/main"@ =~= ref_mark() + main_ref());
        reveal_strlit("ref: refs/heads/timeline/");
        reveal_strlit("refs/heads/timeline/");
        assert("ref: refs/heads/timeline/"@ =~= ref_mark() + timeline_prefix());
    }
    let chars = chars_of(kept.as_str());
    let start = chars_of("ref: refs/heads/timeline/");
    if starts_with(&chars, &start) {
        let slug = chars_from(&chars, start.len());
        return Some(Head::Attached(string_of(&slug)));
    }
    match ObjectId::parse(kept.as_str()) {
        Some(id) => Some(Head::Detached(id)),
        None => None,
    }
}

/// Reads the text of a marker that holds an object's id, white space at its
/// ends not counting.
pub fn parse_marker_text(text: &str) -> (r: Option<ObjectId>)
    ensures
        r == hex_id(trimmed(text@)),
{
    ObjectId::parse(trim_text(text).as_str())
}

/// The text of the label table: a line for each label, the slug, an equals
/// sign and the label, the lines separated by line ends.
pub open spec fn labels_text(labels: Seq<LabelData>) -> Seq<char>
    decreases labels.len(),
{
    if labels.len() == 0 {
        Seq::empty()
    } else if labels.len() == 1 {
        labels[0].slug + seq!['='] + labels[0].text
    } else {
        labels_text(labels.drop_last()) + seq!['\n'] + labels.last().slug + seq!['=']
            + labels.last().text
    }
}

/// Writes the text of the label table.
pub fn format_labels(labels: &Vec<Label>) -> (r: String)
    ensures
        r@ == labels_text(labels@.map_values(|l: Label| l@)),
{
    let ghost table = labels@.map_values(|l: Label| l@);
    let mut text = String::new();
    let mut i: usize = 0;
    proof {
        reveal_strlit("\n");
        reveal_strlit("=");
        assert("\n"@ =~= seq!['\n']);
        assert("="@ =~= seq!['=']);
        assert(table.subrange(0, 0) =~= Seq::<LabelData>::empty());
    }
    while i < labels.len()
        invariant
            i <= labels.len(),
            table == labels@.map_values(|l: Label| l@),
            "\n"@ == seq!['\n'],
            "="@ == seq!['='],
            text@ == labels_text(table.subrange(0, i as int)),
        decreases labels.len() - i,
    {
        let ghost before = text@;
        let ghost part = table.subrange(0, i as int + 1);
        proof {
            assert(part.drop_last() =~= table.subrange(0, i as int));
            assert(part.last() == labels@[i as int]@);
            assert(part[0] == table[0]);
        }
        if i > 0 {
            text.append("\n");
        }
        text.append(labels[i].slug.as_str());
        text.append("=");
        text.append(labels[i].text.as_str());
        proof {
            if i == 0 {
                assert(text@ =~= part[0].slug + seq!['='] + part[0].text);
            } else {
                assert(text@ =~= before + seq!['\n'] + part.last().slug + seq!['='] + part.last().text);
            }
        }
        i += 1;
    }
    proof {
        assert(table.subrange(0, labels@.len() as int) =~= table);
    }
    text
}

/// The parts of a text between the occurrences of a separator.
pub open spec fn split_text(text: Seq<char>, separator: char) -> Seq<Seq<char>>
    decreases text.len(),
{
    if text.len() == 0 {
        seq![Seq::empty()]
    } else {
        let front = split_text(text.drop_last(), separator);
        if text.last() == separator {
            front.push(Seq::empty())
        } else {
            front.drop_last().push(front.last().push(text.last()))
        }
    }
}

/// The place of the first equals sign in a line; the line's length where it
/// has none.
pub open spec fn equals_at(line: Seq<char>) -> nat
    decreases line.len(),
{
    if line.len() == 0 || line.first() == '=' {
        0
    } else {
        1 + equals_at(line.drop_first())
    }
}

/// A line without the carriage return at its end, if it has one.
pub open spec fn without_return(line: Seq<char>) -> Seq<char> {
    if line.len() > 0 && line.last() == '\r' {
        line.drop_last()
    } else {
        line
    }
}

/// The label table after the lines of a text have been read, one after the
/// other: a line with an equals sign sets the label of the slug before the
/// first sign to what follows it; other lines do not count.
pub open spec fn labels_of_lines(lines: Seq<Seq<char>>) -> Seq<LabelData>
    decreases lines.len(),
{
    if lines.len() == 0 {
        Seq::empty()
    } else {
        let table = labels_of_lines(lines.drop_last());
        let line = without_return(lines.last());
        let at = equals_at(line) as int;
        if at < line.len() {
            with_label(table, line.subrange(0, at), line.subrange(at + 1, line.len() as int))
        } else {
            table
        }
    }
}

/// The label table that a text holds.
pub open spec fn labels_of_text(text: Seq<char>) -> Seq<LabelData> {
    labels_of_lines(split_text(text, '\n'))
}

/// Splits a text at its line ends.
fn split_lines(text: &Vec<char>) -> (r: Vec<Vec<char>>)
    ensures
        r@.map_values(|line: Vec<char>| line@) == split_text(text@, '\n'),
{
    let mut lines: Vec<Vec<char>> = Vec::new();
    let mut current: Vec<char> = Vec::new();
    let mut i: usize = 0;
    proof {
        assert(text@.subrange(0, 0) =~= Seq::<char>::empty());
        assert(lines@.map_values(|line: Vec<char>| line@).push(current@) =~= seq![
            Seq::<char>::empty(),
        ]);
    }
    while i < text.len()
        invariant
            i <= text.len(),
            lines@.map_values(|line: Vec<char>| line@).push(current@) == split_text(
                text@.subrange(0, i as int),
                '\n',
            ),
        decreases text.len() - i,
    {
        let ghost shown = lines@.map_values(|line: Vec<char>| line@);
        let ghost held = current@;
        let ghost prefix = text@.subrange(0, i as int + 1);
        proof {
            assert(prefix.drop_last() =~= text@.subrange(0, i as int));
            assert(prefix.last() == text@[i as int]);
            assert(shown.push(held).drop_last() =~= shown);
        }
        if text[i] == '\n' {
            let mut done: Vec<char> = Vec::new();
            std::mem::swap(&mut current, &mut done);
            lines.push(done);
            assert(lines@.map_values(|line: Vec<char>| line@) =~= shown.push(held));
        } else {
            current.push(text[i]);
        }
        i += 1;
    }
    proof {
        assert(text@.subrange(0, text@.len() as int) =~= text@);
    }
    let ghost shown = lines@.map_values(|line: Vec<char>| line@);
    let ghost held = current@;
    lines.push(current);
    assert(lines@.map_values(|line: Vec<char>| line@) =~= shown.push(held));
    lines
}

/// The characters of a text between two places.
fn chars_between(text: &Vec<char>, from: usize, to: usize) -> (r: Vec<char>)
    requires
        from <= to <= text.len(),
    ensures
        r@ == text@.subrange(from as int, to as int),
{
    let mut part: Vec<char> = Vec::new();
    let mut i: usize = from;
    while i < to
        invariant
            from <= i <= to <= text.len(),
            part@ == text@.subrange(from as int, i as int),
        decreases to - i,
    {
        part.push(text[i]);
        i += 1;
        assert(part@ =~= text@.subrange(from as int, i as int));
    }
    part
}

/// The place of a slug's first line in a table.
fn label_place(table: &Vec<Label>, slug: &str) -> (r: usize)
    ensures
        r <= table.len(),
        forall|j: int| 0 <= j < r ==> (#[trigger] table@[j])@.slug != slug@,
        r < table.len() ==> table@[r as int]@.slug == slug@,
{
    let mut i: usize = 0;
    while i < table.len()
        invariant
            i <= table.len(),
            forall|j: int| 0 <= j < i ==> (#[trigger] table@[j])@.slug != slug@,
        decreases table.len() - i,
    {
        if same_text(table[i].slug.as_str(), slug) {
            return i;
        }
        i += 1;
    }
    i
}

/// Reads the text of the label table.
#[verifier::rlimit(30)]
pub fn parse_labels(text: &str) -> (r: Vec<Label>)
    ensures
        r@.map_values(|l: Label| l@) == labels_of_text(text@),
{
    let lines = split_lines(&chars_of(text));
    let ghost all = split_text(text@, '\n');
    let mut table: Vec<Label> = Vec::new();
    let mut i: usize = 0;
    proof {
        assert(all.subrange(0, 0) =~= Seq::<Seq<char>>::empty());
        assert(table@.map_values(|l: Label| l@) =~= Seq::<LabelData>::empty());
    }
    while i < lines.len()
        invariant
            i <= lines.len(),
            lines@.map_values(|line: Vec<char>| line@) == all,
            table@.map_values(|l: Label| l@) == labels_of_lines(all.subrange(0, i as int)),
        decreases lines.len() - i,
    {
        let line = &lines[i];
        let ghost part = all.subrange(0, i as int + 1);
        proof {
            assert(part.drop_last() =~= all.subrange(0, i as int));
            assert(part.last() == line@);
        }
        let end: usize = if line.len() > 0 && line[line.len() - 1] == '\r' {
            line.len() - 1
        } else {
            line.len()
        };
        let ghost cut = without_return(line@);
        assert(cut =~= line@.subrange(0, end as int));
        let mut at: usize = 0;
        proof {
            assert(cut.skip(0) =~= cut);
        }
        while at < end && line[at] != '='
            invariant
                at <= end <= line.len(),
                cut == line@.subrange(0, end as int),
                equals_at(cut) == at + equals_at(cut.skip(at as int)),
            decreases end - at,
        {
            proof {
                assert(cut.skip(at as int).first() == line@[at as int]);
                assert(cut.skip(at as int).drop_first() =~= cut.skip(at as int + 1));
            }
            at += 1;
        }
        proof {
            if at < end {
                assert(cut.skip(at as int).first() == line@[at as int]);
            } else {
                assert(cut.skip(at as int).len() == 0);
            }
            assert(equals_at(cut) == at);
        }
        if at < end {
            let slug = string_of(&chars_between(line, 0, at));
            let label = string_of(&chars_between(line, at + 1, end));
            proof {
                assert(slug@ =~= cut.subrange(0, at as int));
                assert(label@ =~= cut.subrange(at as int + 1, cut.len() as int));
            }
            let place = label_place(&table, slug.as_str());
            let ghost before = table@.map_values(|l: Label| l@);
            proof {
                lemma_with_label_at(before, slug@, label@, place as int);
            }
            let entry = Label { slug, text: label };
            if place < table.len() {
                table.set(place, entry);
                assert(table@.map_values(|l: Label| l@) =~= before.update(place as int, entry@));
            } else {
                table.push(entry);
                assert(table@.map_values(|l: Label| l@) =~= before.push(entry@));
            }
        }
        i += 1;
    }
    proof {
        assert(all.subrange(0, lines@.len() as int) =~= all);
    }
    table
}

} // verus!
