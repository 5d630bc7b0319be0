//! Which matches of a term are retargeted: those that stand as words in prose, and are not
//! literal references.

use vstd::prelude::*;

use crate::bytes::{is_reference_suffix_byte, is_word_byte, reference_suffix_byte, word_byte};
use crate::markdown::{is_markdown_link_destination_match, link_destination};
use crate::uri::{is_uri_reference_match, uri_reference};

verus! {

/// A byte that separates the parts of a path, on any system.
pub open spec fn path_separator(byte: u8) -> bool {
    byte == '/' as u8 || byte == '\\' as u8
}

/// A byte that a part of a path or dotted name is made of: of a word, a hyphen, one of `@+~%`, or
/// of a character outside ASCII.
pub open spec fn part_byte(byte: u8) -> bool {
    reference_suffix_byte(byte) || byte == '@' as u8 || byte == '+' as u8 || byte == '~' as u8
        || byte == '%' as u8 || byte >= 0x80
}

/// A byte that paths and dotted names are made of.
pub open spec fn name_byte(byte: u8) -> bool {
    part_byte(byte) || path_separator(byte) || byte == '.' as u8
}

/// The two bytes of a Latin-1 sign, such as a no-break space or a guillemet.
pub open spec fn latin_mark(first: u8, second: u8) -> bool {
    first == 0xc2 && second >= 0x80
}

/// The first two of the three bytes of a character from the blocks of general punctuation, CJK
/// punctuation, or full-width forms.
pub open spec fn wide_mark_lead(first: u8, second: u8) -> bool {
    ||| first == 0xe2 && (second == 0x80 || second == 0x81)
    ||| first == 0xe3 && second == 0x80
    ||| first == 0xef && (second == 0xbc || second == 0xbd)
}

/// A mark outside ASCII (whitespace, quotes, brackets and other punctuation) ends just before `at`.
pub open spec fn mark_before(s: Seq<u8>, at: int) -> bool {
    ||| at >= 2 && latin_mark(s[at - 2], s[at - 1])
    ||| at >= 3 && wide_mark_lead(s[at - 3], s[at - 2]) && s[at - 1] >= 0x80
}

/// A mark outside ASCII begins at `at`.
pub open spec fn mark_at(s: Seq<u8>, at: int) -> bool {
    at + 1 < s.len() && (latin_mark(s[at], s[at + 1]) || wide_mark_lead(s[at], s[at + 1]))
}

/// Where the run of name bytes that ends just before `at` begins. Marks outside ASCII end it.
pub open spec fn name_start(s: Seq<u8>, at: int) -> int
    decreases at,
{
    if at <= 0 {
        0
    } else if name_byte(s[at - 1]) && !mark_before(s, at) {
        name_start(s, at - 1)
    } else {
        at
    }
}

/// Where the part of a path or dotted name that goes on at `at` ends. Marks outside ASCII end it.
pub open spec fn part_end(s: Seq<u8>, at: int) -> int
    decreases s.len() - at,
{
    if 0 <= at < s.len() && part_byte(s[at]) && !mark_at(s, at) {
        part_end(s, at + 1)
    } else {
        at
    }
}

/// A dot at `dot` that begins a part: the match itself, at `start`, or one that does not begin
/// with a hyphen.
pub open spec fn begins_part(s: Seq<u8>, dot: int, start: int) -> bool {
    s[dot] == '.' as u8 && (dot + 1 == start || (part_byte(s[dot + 1]) && s[dot + 1] != '-' as u8))
}

/// The match at `start` continues a path or a dotted name: a path separator, or a dot that begins
/// a part, stands before it in the same run of name bytes.
pub open spec fn continues_name(s: Seq<u8>, start: int) -> bool {
    exists|i: int|
        name_start(s, start) <= i < start && (path_separator(#[trigger] s[i]) || begins_part(
            s,
            i,
            start,
        ))
}

/// The match that stops at `end` is continued as a path or a dotted name: the part it stands in
/// is followed by a path separator, or by a dot and a further part.
pub open spec fn continued_as_name(s: Seq<u8>, end: int) -> bool {
    let stop = part_end(s, end);
    stop < s.len() && (path_separator(s[stop]) || (s[stop] == '.' as u8 && stop + 1 < s.len()
        && reference_suffix_byte(s[stop + 1])))
}

/// The match `start..end` is part of a path, a dotted name, a Markdown link destination or a URI
/// reference.
pub open spec fn literal_reference(s: Seq<u8>, start: int, end: int) -> bool {
    ||| continues_name(s, start)
    ||| link_destination(s, start)
    ||| uri_reference(s, start, end)
    ||| continued_as_name(s, end)
}

/// The match `start..end` stands as a word of its own.
pub open spec fn at_word_boundaries(s: Seq<u8>, start: int, end: int) -> bool {
    &&& start == 0 || !word_byte(s[start - 1])
    &&& end == s.len() || !word_byte(s[end])
}

/// The match `start..end` is retargeted: it is a word of its own, and no literal reference.
pub open spec fn retargetable(s: Seq<u8>, start: int, end: int) -> bool {
    at_word_boundaries(s, start, end) && !literal_reference(s, start, end)
}

/// A run of name bytes begins somewhere from the start of the text to the place it is sought from,
/// and holds name bytes and no marks.
pub proof fn lemma_name_start(s: Seq<u8>, at: int)
    requires
        0 <= at <= s.len(),
    ensures
        0 <= name_start(s, at) <= at,
        forall|i: int|
            name_start(s, at) <= i < at ==> name_byte(#[trigger] s[i]) && !mark_before(s, i + 1),
        ({
            let first = name_start(s, at);
            first > 0 ==> !name_byte(s[first - 1]) || mark_before(s, first)
        }),
    decreases at,
{
    if at > 0 && name_byte(s[at - 1]) && !mark_before(s, at) {
        lemma_name_start(s, at - 1);
    }
}

/// A part of a name ends somewhere from the place it is sought from to the end of the text.
pub proof fn lemma_part_end(s: Seq<u8>, at: int)
    requires
        0 <= at <= s.len(),
    ensures
        at <= part_end(s, at) <= s.len(),
        forall|i: int| at <= i < part_end(s, at) ==> part_byte(#[trigger] s[i]) && !mark_at(s, i),
        ({
            let stop = part_end(s, at);
            stop < s.len() ==> !part_byte(s[stop]) || mark_at(s, stop)
        }),
    decreases s.len() - at,
{
    if at < s.len() && part_byte(s[at]) && !mark_at(s, at) {
        lemma_part_end(s, at + 1);
    }
}

/// Whether `byte` can occur in a part of a path or dotted name.
pub fn is_part_byte(byte: u8) -> (result: bool)
    ensures
        result == part_byte(byte),
{
    is_reference_suffix_byte(byte) || byte == '@' as u8 || byte == '+' as u8 || byte == '~' as u8
        || byte == '%' as u8 || byte >= 0x80
}

/// Whether these are the first two of the three bytes of a mark outside ASCII.
fn is_wide_mark_lead(first: u8, second: u8) -> (result: bool)
    ensures
        result == wide_mark_lead(first, second),
{
    (first == 0xe2 && (second == 0x80 || second == 0x81)) || (first == 0xe3 && second == 0x80) || (
    first == 0xef && (second == 0xbc || second == 0xbd))
}

/// Whether a mark outside ASCII ends just before `at`.
fn is_mark_before(bytes: &[u8], at: usize) -> (result: bool)
    requires
        0 < at <= bytes@.len(),
    ensures
        result == mark_before(bytes@, at as int),
{
    bytes[at - 1] >= 0x80 && ((at >= 2 && bytes[at - 2] == 0xc2) || (at >= 3 && is_wide_mark_lead(
        bytes[at - 3],
        bytes[at - 2],
    )))
}

/// Whether a mark outside ASCII begins at `at`.
fn is_mark_at(bytes: &[u8], at: usize) -> (result: bool)
    requires
        at < bytes.len(),
    ensures
        result == mark_at(bytes@, at as int),
{
    at + 1 < bytes.len() && ((bytes[at] == 0xc2 && bytes[at + 1] >= 0x80) || is_wide_mark_lead(
        bytes[at],
        bytes[at + 1],
    ))
}

/// Whether the match at `start` continues a path or a dotted name.
fn is_name_continuation(bytes: &[u8], start: usize) -> (result: bool)
    requires
        start <= bytes@.len(),
    ensures
        result == continues_name(bytes@, start as int),
{
    let ghost s = bytes@;
    let mut i: usize = start;
    while i > 0
        invariant
            s == bytes@,
            i <= start <= s.len(),
            name_start(s, i as int) == name_start(s, start as int),
            forall|j: int|
                i <= j < start ==> !path_separator(#[trigger] s[j]) && !begins_part(
                    s,
                    j,
                    start as int,
                ),
        decreases i,
    {
        let before: u8 = bytes[i - 1];
        let separator: bool = before == '/' as u8 || before == '\\' as u8;
        let dot: bool = before == '.' as u8;
        proof {
            lemma_name_start(s, i as int);
            lemma_name_start(s, i - 1);
        }
        if separator || (dot && (i == start || (is_part_byte(bytes[i]) && bytes[i]
            != '-' as u8))) {
            assert(path_separator(s[i - 1]) || begins_part(s, i - 1, start as int));
            return true;
        }
        if !(dot || is_part_byte(before)) || is_mark_before(bytes, i) {
            return false;
        }
        i -= 1;
    }
    false
}

/// Finds where the part of a name that goes on at `at` ends.
fn find_part_end(bytes: &[u8], at: usize) -> (result: usize)
    ensures
        result == part_end(bytes@, at as int),
{
    let mut i: usize = at;
    while i < bytes.len() && is_part_byte(bytes[i]) && !is_mark_at(bytes, i)
        invariant
            at <= i,
            part_end(bytes@, i as int) == part_end(bytes@, at as int),
        decreases bytes@.len() - i,
    {
        i += 1;
    }
    i
}

/// Whether the match `start..end` is a literal reference. Product names embedded in filesystem
/// paths, URI references, Markdown link destinations, or dotted identifiers refer to the source
/// tool itself and are not prose to retarget.
pub fn is_literal_reference_match(bytes: &[u8], start: usize, end: usize) -> (result: bool)
    requires
        start <= bytes@.len(),
        start <= end,
    ensures
        result == literal_reference(bytes@, start as int, end as int),
{
    if is_name_continuation(bytes, start) {
        return true;
    }
    if is_markdown_link_destination_match(bytes, start) {
        return true;
    }
    if is_uri_reference_match(bytes, start, end) {
        return true;
    }
    let stop: usize = find_part_end(bytes, end);
    if stop >= bytes.len() {
        return false;
    }
    let after: u8 = bytes[stop];
    if after == '/' as u8 || after == '\\' as u8 {
        return true;
    }
    after == '.' as u8 && stop + 1 < bytes.len() && is_reference_suffix_byte(bytes[stop + 1])
}

/// Whether the match `start..end` is retargeted.
pub fn is_retargetable_match(bytes: &[u8], start: usize, end: usize) -> (result: bool)
    requires
        start <= end <= bytes@.len(),
    ensures
        result == retargetable(bytes@, start as int, end as int),
{
    let boundary_before: bool = start == 0 || !is_word_byte(bytes[start - 1]);
    let boundary_after: bool = end == bytes.len() || !is_word_byte(bytes[end]);
    boundary_before && boundary_after && !is_literal_reference_match(bytes, start, end)
}

} // verus!
