//! Markdown link destinations, inline (`[text](destination)`) and by reference
//! (`[label]: destination`).

use vstd::prelude::*;
use vstd::slice::slice_subrange;

use crate::bytes::{is_whitespace, whitespace};

verus! {

/// How many backslashes stand directly before `index`.
pub open spec fn backslashes_before(s: Seq<u8>, index: int) -> nat
    decreases index,
{
    if index > 0 && s[index - 1] == '\\' as u8 {
        backslashes_before(s, index - 1) + 1
    } else {
        0
    }
}

/// The byte at `index` is escaped: an odd number of backslashes stands directly before it.
pub open spec fn escaped(s: Seq<u8>, index: int) -> bool {
    backslashes_before(s, index) % 2 == 1
}

/// How many more parentheses are opened than closed before `index`, escaped ones left aside.
pub open spec fn parenthesis_depth(s: Seq<u8>, index: int) -> int
    decreases index,
{
    if index <= 0 {
        0
    } else {
        let outer = parenthesis_depth(s, index - 1);
        if escaped(s, index - 1) {
            outer
        } else if s[index - 1] == '(' as u8 {
            outer + 1
        } else if s[index - 1] == ')' as u8 {
            outer - 1
        } else {
            outer
        }
    }
}

/// An inline destination that begins with `s` has not ended yet: every unescaped closing
/// parenthesis or whitespace in `s` stands inside parentheses that `s` itself opened.
pub open spec fn inline_destination_open(s: Seq<u8>) -> bool {
    forall|i: int|
        0 <= i < s.len() && !#[trigger] escaped(s, i) && (s[i] == ')' as u8 || whitespace(s[i]))
            ==> parenthesis_depth(s, i) > 0
}

/// Where the first byte of `s` from `index` on that is not whitespace stands; its length if none.
pub open spec fn skip_whitespace(s: Seq<u8>, index: int) -> int
    decreases s.len() - index,
{
    if 0 <= index < s.len() && whitespace(s[index]) {
        skip_whitespace(s, index + 1)
    } else {
        index
    }
}

/// The destination after `]:` is written in angle brackets.
pub open spec fn angle_delimited(s: Seq<u8>) -> bool {
    let first = skip_whitespace(s, 0);
    first < s.len() && s[first] == '<' as u8
}

/// A reference destination that begins with `s` has not ended yet: after leading whitespace, no
/// unescaped `>` (in angle brackets) or whitespace (otherwise) has come.
pub open spec fn reference_destination_open(s: Seq<u8>) -> bool {
    let first = skip_whitespace(s, 0);
    if angle_delimited(s) {
        forall|i: int|
            first < i < s.len() && !#[trigger] escaped(s, i) ==> s[i] != '>' as u8
    } else {
        forall|i: int|
            first <= i < s.len() && !#[trigger] escaped(s, i) ==> !whitespace(s[i])
    }
}

/// Where the line that holds the byte before `at` begins; `at` itself after a line feed.
pub open spec fn line_start(s: Seq<u8>, at: int) -> int
    decreases at,
{
    if at <= 0 {
        0
    } else if s[at - 1] == '\n' as u8 {
        at
    } else {
        line_start(s, at - 1)
    }
}

/// The bytes `first` and `second` stand side by side at `index`.
pub open spec fn pair_at(s: Seq<u8>, first: u8, second: u8, index: int) -> bool {
    0 <= index && index + 1 < s.len() && s[index] == first && s[index + 1] == second
}

/// The last such pair in `s` is at `index`.
pub open spec fn last_pair_at(s: Seq<u8>, first: u8, second: u8, index: int) -> bool {
    &&& pair_at(s, first, second, index)
    &&& forall|later: int| index < later ==> !#[trigger] pair_at(s, first, second, later)
}

/// An opening square bracket stands somewhere before `index`.
pub open spec fn bracket_before(s: Seq<u8>, index: int) -> bool {
    exists|i: int| 0 <= i < index && #[trigger] s[i] == '[' as u8
}

/// The line so far ends inside the destination of an inline link.
pub open spec fn ends_in_inline_destination(line: Seq<u8>) -> bool {
    exists|opener: int|
        {
            &&& #[trigger] last_pair_at(line, ']' as u8, '(' as u8, opener)
            &&& bracket_before(line, opener)
            &&& inline_destination_open(line.skip(opener + 2))
        }
}

/// The line so far ends inside the destination of a link reference definition.
pub open spec fn ends_in_reference_destination(line: Seq<u8>) -> bool {
    exists|opener: int|
        {
            &&& #[trigger] last_pair_at(line, ']' as u8, ':' as u8, opener)
            &&& bracket_before(line, opener)
            &&& reference_destination_open(line.skip(opener + 2))
        }
}

/// The match at `start` stands in a Markdown link destination.
pub open spec fn link_destination(s: Seq<u8>, start: int) -> bool {
    let line = s.subrange(line_start(s, start), start);
    ends_in_inline_destination(line) || ends_in_reference_destination(line)
}

/// A line begins somewhere from the start of the text to the place it is sought from, and holds
/// no line feed.
pub proof fn lemma_line_start(s: Seq<u8>, at: int)
    requires
        0 <= at <= s.len(),
    ensures
        0 <= line_start(s, at) <= at,
        forall|i: int| line_start(s, at) <= i < at ==> #[trigger] s[i] != '\n' as u8,
        line_start(s, at) > 0 ==> s[line_start(s, at) - 1] == '\n' as u8,
    decreases at,
{
    if at > 0 && s[at - 1] != '\n' as u8 {
        lemma_line_start(s, at - 1);
    }
}

/// Whether the byte at `index` is escaped by an odd number of backslashes.
pub fn is_markdown_escaped(bytes: &[u8], index: usize) -> (result: bool)
    requires
        index <= bytes@.len(),
    ensures
        result == escaped(bytes@, index as int),
{
    let mut cursor: usize = index;
    let mut preceding_backslashes: usize = 0;
    while cursor > 0 && bytes[cursor - 1] == '\\' as u8
        invariant
            cursor <= index <= bytes@.len(),
            preceding_backslashes + cursor == index,
            backslashes_before(bytes@, index as int) == preceding_backslashes + backslashes_before(
                bytes@,
                cursor as int,
            ),
        decreases cursor,
    {
        preceding_backslashes += 1;
        cursor -= 1;
    }
    preceding_backslashes % 2 != 0
}

/// Whether an inline destination that begins with `destination_prefix` goes on after it.
pub fn is_inline_markdown_destination_prefix(destination_prefix: &[u8]) -> (result: bool)
    ensures
        result == inline_destination_open(destination_prefix@),
{
    let ghost s = destination_prefix@;
    let mut nested_parentheses: usize = 0;
    let mut index: usize = 0;
    while index < destination_prefix.len()
        invariant
            s == destination_prefix@,
            index <= s.len(),
            nested_parentheses <= index,
            nested_parentheses == parenthesis_depth(s, index as int),
            forall|i: int|
                0 <= i < index && !#[trigger] escaped(s, i) && (s[i] == ')' as u8 || whitespace(
                    s[i],
                )) ==> parenthesis_depth(s, i) > 0,
        decreases s.len() - index,
    {
        if !is_markdown_escaped(destination_prefix, index) {
            let byte: u8 = destination_prefix[index];
            if byte == '(' as u8 {
                nested_parentheses += 1;
            } else if byte == ')' as u8 {
                if nested_parentheses == 0 {
                    return false;
                }
                nested_parentheses -= 1;
            } else if is_whitespace(byte) && nested_parentheses == 0 {
                return false;
            }
        }
        index += 1;
    }
    true
}

/// Whether a reference destination that begins with `destination_prefix`, the text after `]:`,
/// goes on after it.
pub fn is_reference_markdown_destination_prefix(destination_prefix: &[u8]) -> (result: bool)
    ensures
        result == reference_destination_open(destination_prefix@),
{
    let ghost s = destination_prefix@;
    let mut destination_start: usize = 0;
    while destination_start < destination_prefix.len() && is_whitespace(
        destination_prefix[destination_start],
    )
        invariant
            s == destination_prefix@,
            destination_start <= s.len(),
            skip_whitespace(s, destination_start as int) == skip_whitespace(s, 0),
        decreases s.len() - destination_start,
    {
        destination_start += 1;
    }
    let ghost first = destination_start;
    let angle_delimited: bool = destination_start < destination_prefix.len()
        && destination_prefix[destination_start] == '<' as u8;
    if angle_delimited {
        destination_start += 1;
    }
    let mut index: usize = destination_start;
    while index < destination_prefix.len()
        invariant
            s == destination_prefix@,
            first == skip_whitespace(s, 0),
            angle_delimited == self::angle_delimited(s),
            destination_start == first + (if angle_delimited { 1int } else { 0int }),
            destination_start <= index <= s.len(),
            forall|i: int|
                destination_start <= i < index && !#[trigger] escaped(s, i) ==> !(if angle_delimited {
                    s[i] == '>' as u8
                } else {
                    whitespace(s[i])
                }),
        decreases s.len() - index,
    {
        if !is_markdown_escaped(destination_prefix, index) {
            let byte: u8 = destination_prefix[index];
            if (angle_delimited && byte == '>' as u8) || (!angle_delimited && is_whitespace(byte)) {
                return false;
            }
        }
        index += 1;
    }
    true
}

/// Finds the last place where `first` and `second` stand side by side.
pub fn find_last_pair(bytes: &[u8], first: u8, second: u8) -> (result: Option<usize>)
    ensures
        match result {
            Some(index) => last_pair_at(bytes@, first, second, index as int),
            None => forall|index: int| !#[trigger] pair_at(bytes@, first, second, index),
        },
{
    let mut after: usize = bytes.len();
    while after >= 2
        invariant
            after <= bytes@.len(),
            forall|index: int|
                after - 1 <= index ==> !#[trigger] pair_at(bytes@, first, second, index),
        decreases after,
    {
        if bytes[after - 2] == first && bytes[after - 1] == second {
            assert(pair_at(bytes@, first, second, after - 2));
            return Some(after - 2);
        }
        after -= 1;
    }
    None
}

/// Whether an opening square bracket stands before `index`.
fn has_bracket_before(bytes: &[u8], index: usize) -> (result: bool)
    requires
        index <= bytes@.len(),
    ensures
        result == bracket_before(bytes@, index as int),
{
    let mut i: usize = 0;
    while i < index
        invariant
            i <= index <= bytes@.len(),
            forall|j: int| 0 <= j < i ==> #[trigger] bytes@[j] != '[' as u8,
        decreases index - i,
    {
        if bytes[i] == '[' as u8 {
            return true;
        }
        i += 1;
    }
    false
}

/// Finds where the line that ends just before `at` begins.
pub fn find_line_start(bytes: &[u8], at: usize) -> (result: usize)
    requires
        at <= bytes@.len(),
    ensures
        result == line_start(bytes@, at as int),
        result <= at,
{
    let mut i: usize = at;
    while i > 0 && bytes[i - 1] != '\n' as u8
        invariant
            i <= at <= bytes@.len(),
            line_start(bytes@, i as int) == line_start(bytes@, at as int),
        decreases i,
    {
        i -= 1;
    }
    i
}

/// Whether the match at `start` stands in the destination of a Markdown link, inline or by
/// reference.
pub fn is_markdown_link_destination_match(bytes: &[u8], start: usize) -> (result: bool)
    requires
        start <= bytes@.len(),
    ensures
        result == link_destination(bytes@, start as int),
{
    let first: usize = find_line_start(bytes, start);
    let prefix: &[u8] = slice_subrange(bytes, first, start);
    if let Some(opener) = find_last_pair(prefix, ']' as u8, '(' as u8) {
        if has_bracket_before(prefix, opener) && is_inline_markdown_destination_prefix(
            slice_subrange(prefix, opener + 2, prefix.len()),
        ) {
            assert(last_pair_at(prefix@, ']' as u8, '(' as u8, opener as int));
            return true;
        }
    }
    if let Some(opener) = find_last_pair(prefix, ']' as u8, ':' as u8) {
        if has_bracket_before(prefix, opener) {
            return is_reference_markdown_destination_prefix(
                slice_subrange(prefix, opener + 2, prefix.len()),
            );
        }
    }
    false
}

} // verus!
