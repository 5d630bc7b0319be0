//! What each notion of the library comes to, byte by byte: which bytes belong to a class, where
//! runs begin and end, and which bytes before and after an occurrence decide whether it stays.

use vstd::prelude::*;
use vstd::utf8::*;

use crate::bytes::{
    alphabetic, alphanumeric, reference_suffix_byte, uri_payload_start_byte, uri_scheme_byte,
    whitespace, word_byte,
};
use crate::markdown::{
    angle_delimited, bracket_before, ends_in_inline_destination, ends_in_reference_destination,
    escaped, inline_destination_open, last_pair_at, lemma_line_start, line_start, link_destination,
    pair_at, parenthesis_depth, reference_destination_open, skip_whitespace,
};
use crate::reference::{
    begins_part, continued_as_name, continues_name, latin_mark, lemma_name_start, lemma_part_end,
    literal_reference, mark_at, mark_before, name_byte, name_start, part_byte, part_end,
    path_separator, retargetable, wide_mark_lead,
};
use crate::replace::occurs_any_case;
use crate::text::{ascii_lower, lowercase, occurs_at};
use crate::uri::{
    after_scheme, ends_scheme, lemma_scheme_start, lemma_token_start, query_or_fragment_mark,
    relative_uri_component, scheme_start, token_start, uri_reference, uri_scheme,
};

verus! {

// Classes of bytes.

/// The letters, digits and whitespace of ASCII.
pub proof fn law_ascii_classes(byte: u8)
    ensures
        alphabetic(byte) <==> 0x41 <= byte <= 0x5a || 0x61 <= byte <= 0x7a,
        alphanumeric(byte) <==> 0x30 <= byte <= 0x39 || 0x41 <= byte <= 0x5a || 0x61 <= byte
            <= 0x7a,
        whitespace(byte) <==> byte == 0x20 || byte == 0x09 || byte == 0x0a || byte == 0x0c || byte
            == 0x0d,
{
}

/// The bytes of words, of the parts of names, and of paths.
pub proof fn law_name_classes(byte: u8)
    ensures
        word_byte(byte) <==> 0x30 <= byte <= 0x39 || 0x41 <= byte <= 0x5a || 0x61 <= byte <= 0x7a
            || byte == 0x5f,
        reference_suffix_byte(byte) <==> 0x30 <= byte <= 0x39 || 0x41 <= byte <= 0x5a || 0x61
            <= byte <= 0x7a || byte == 0x5f || byte == 0x2d,
        path_separator(byte) <==> byte == 0x2f || byte == 0x5c,
        part_byte(byte) <==> 0x30 <= byte <= 0x39 || 0x41 <= byte <= 0x5a || 0x61 <= byte <= 0x7a
            || byte == 0x5f || byte == 0x2d || byte == 0x40 || byte == 0x2b || byte == 0x7e || byte
            == 0x25 || 0x80 <= byte,
        name_byte(byte) <==> 0x2d <= byte <= 0x39 || 0x40 <= byte <= 0x5a || 0x61 <= byte <= 0x7a
            || byte == 0x5f || byte == 0x2b || byte == 0x7e || byte == 0x25 || byte == 0x5c || 0x80
            <= byte,
{
}

/// The bytes of URI schemes, the bytes that open a query or fragment, and those that can follow
/// the marks of a URI.
pub proof fn law_uri_classes(byte: u8)
    ensures
        uri_scheme_byte(byte) <==> 0x30 <= byte <= 0x39 || 0x41 <= byte <= 0x5a || 0x61 <= byte
            <= 0x7a || byte == 0x2b || byte == 0x2d || byte == 0x2e,
        query_or_fragment_mark(byte) <==> byte == 0x3f || byte == 0x23,
        uri_payload_start_byte(byte) <==> 0x2d <= byte <= 0x3a || 0x3f <= byte <= 0x5b || 0x61
            <= byte <= 0x7a || byte == 0x5f || byte == 0x7e || byte == 0x25 || byte == 0x23 || byte
            == 0x2b,
{
}

/// The bytes by which marks outside ASCII are known.
pub proof fn law_mark_bytes(first: u8, second: u8)
    ensures
        latin_mark(first, second) <==> first == 0xc2 && 0x80 <= second,
        wide_mark_lead(first, second) <==> (first == 0xe2 && 0x80 <= second <= 0x81) || (first
            == 0xe3 && second == 0x80) || (first == 0xef && 0xbc <= second <= 0xbd),
{
}

// Letter case and occurrences.

/// Each of the 26 capital letters becomes the small letter at its place in the alphabet; every
/// other byte stays.
pub proof fn law_lower_case_of_a_byte(byte: u8)
    ensures
        forall|k: int|
            0 <= k < 26 && byte == 0x41 + k ==> #[trigger] (0x61 + k) == ascii_lower(byte),
        !(0x41 <= byte < 0x41 + 26) ==> ascii_lower(byte) == byte,
{
}

/// Lowering the case of a text lowers each byte where it stands.
pub proof fn law_lower_case_of_a_text(s: Seq<u8>)
    ensures
        lowercase(s).len() == s.len(),
        forall|i: int|
            0 <= i < s.len() ==> #[trigger] lowercase(s)[i] == (if 0x41 <= s[i] <= 0x5a {
                s[i] + 0x20
            } else {
                s[i] as int
            }),
{
}

/// A text occurs at a place if and only if it is there byte by byte.
pub proof fn law_occurrence_byte_by_byte(s: Seq<u8>, needle: Seq<u8>, at: int)
    ensures
        occurs_at(s, needle, at) <==> 0 <= at && at + needle.len() <= s.len() && forall|i: int|
            0 <= i < needle.len() ==> s[at + i] == #[trigger] needle[i],
{
    if 0 <= at && at + needle.len() <= s.len() {
        let found = s.subrange(at, at + needle.len());
        if found == needle {
            assert forall|i: int| 0 <= i < needle.len() implies s[at + i] == #[trigger] needle[i] by {
                assert(found[i] == needle[i]);
            }
        }
        if forall|i: int| 0 <= i < needle.len() ==> s[at + i] == #[trigger] needle[i] {
            assert(found =~= needle);
        }
    }
}

/// A text occurs at a place in any case if and only if each byte there is the same, or is the same
/// ASCII letter in the other case.
pub proof fn law_occurrence_in_any_case_byte_by_byte(s: Seq<u8>, needle: Seq<u8>, at: int)
    ensures
        occurs_any_case(s, needle, at) <==> 0 <= at && at + needle.len() <= s.len() && forall|i: int|
            0 <= i < needle.len() ==> {
                ||| s[at + i] == #[trigger] needle[i]
                ||| 0x41 <= s[at + i] <= 0x5a && needle[i] == s[at + i] + 0x20
                ||| 0x61 <= s[at + i] <= 0x7a && needle[i] + 0x20 == s[at + i]
            },
{
    law_occurrence_byte_by_byte(lowercase(s), lowercase(needle), at);
    if 0 <= at && at + needle.len() <= s.len() {
        assert forall|i: int| 0 <= i < needle.len() implies (lowercase(s)[at + i]
            == #[trigger] lowercase(needle)[i] <==> {
            ||| s[at + i] == needle[i]
            ||| 0x41 <= s[at + i] <= 0x5a && needle[i] == s[at + i] + 0x20
            ||| 0x61 <= s[at + i] <= 0x7a && needle[i] + 0x20 == s[at + i]
        }) by {
            assert(lowercase(s)[at + i] == ascii_lower(s[at + i]));
            assert(lowercase(needle)[i] == ascii_lower(needle[i]));
        }
        if occurs_any_case(s, needle, at) {
            assert forall|i: int| 0 <= i < needle.len() implies {
                ||| s[at + i] == #[trigger] needle[i]
                ||| 0x41 <= s[at + i] <= 0x5a && needle[i] == s[at + i] + 0x20
                ||| 0x61 <= s[at + i] <= 0x7a && needle[i] + 0x20 == s[at + i]
            } by {
                assert(lowercase(s)[at + i] == lowercase(needle)[i]);
            }
        } else {
            let i = choose|i: int|
                0 <= i < needle.len() && lowercase(s)[at + i] != #[trigger] lowercase(needle)[i];
            assert(s[at + i] != needle[i]);
        }
    }
}

// Schemes and tokens.

/// A scheme is a letter, or a scheme with one more scheme byte; nothing else is.
pub proof fn law_uri_schemes(s: Seq<u8>, byte: u8)
    ensures
        !uri_scheme(Seq::empty()),
        uri_scheme(seq![byte]) <==> 0x41 <= byte <= 0x5a || 0x61 <= byte <= 0x7a,
        s.len() > 0 ==> (uri_scheme(s.push(byte)) <==> uri_scheme(s) && (0x30 <= byte <= 0x39 || 0x41
            <= byte <= 0x5a || 0x61 <= byte <= 0x7a || byte == 0x2b || byte == 0x2d || byte
            == 0x2e)),
{
    if s.len() > 0 {
        let longer = s.push(byte);
        if uri_scheme(longer) {
            assert(longer[0] == s[0]);
            assert(longer[s.len() as int] == byte);
            assert forall|i: int| 1 <= i < s.len() implies uri_scheme_byte(#[trigger] s[i]) by {
                assert(longer[i] == s[i]);
            }
        }
    }
}

/// A token is cut at whitespace bytes and nowhere else.
pub proof fn law_tokens(s: Seq<u8>, at: int)
    requires
        0 <= at <= s.len(),
    ensures
        0 <= token_start(s, at) <= at,
        forall|i: int|
            token_start(s, at) <= i < at ==> #[trigger] s[i] != 0x20 && s[i] != 0x09 && s[i] != 0x0a
                && s[i] != 0x0c && s[i] != 0x0d,
        ({
            let first = token_start(s, at);
            first > 0 ==> s[first - 1] == 0x20 || s[first - 1] == 0x09 || s[first - 1] == 0x0a
                || s[first - 1] == 0x0c || s[first - 1] == 0x0d
        }),
{
    lemma_token_start(s, at);
    assert forall|i: int| token_start(s, at) <= i < at implies #[trigger] s[i] != 0x20 && s[i]
        != 0x09 && s[i] != 0x0a && s[i] != 0x0c && s[i] != 0x0d by {
        assert(!whitespace(s[i]));
    }
}

/// A line is cut at line feeds and nowhere else.
pub proof fn law_lines(s: Seq<u8>, at: int)
    requires
        0 <= at <= s.len(),
    ensures
        0 <= line_start(s, at) <= at,
        forall|i: int| line_start(s, at) <= i < at ==> #[trigger] s[i] != 0x0a,
        line_start(s, at) > 0 ==> s[line_start(s, at) - 1] == 0x0a,
{
    lemma_line_start(s, at);
}

/// The token up to `at` begins at or before `from` exactly if no whitespace stands between.
proof fn lemma_token_from(s: Seq<u8>, from: int, at: int)
    requires
        0 <= from <= at <= s.len(),
    ensures
        token_start(s, at) <= from <==> forall|i: int|
            from <= i < at ==> !whitespace(#[trigger] s[i]),
        0 <= token_start(s, at) <= at,
{
    lemma_token_start(s, at);
    if token_start(s, at) > from {
        assert(whitespace(s[token_start(s, at) - 1]));
    }
}

/// An occurrence is in the query or fragment of a relative URI, or right before one, if and only if
/// a `?` or `#` stands before it with no whitespace between, or right after it and then a byte that
/// can begin what follows in a URI.
pub proof fn law_relative_uri_components(s: Seq<u8>, start: int, end: int)
    requires
        0 <= start <= s.len(),
        0 <= end,
    ensures
        relative_uri_component(s, start, end) <==> {
            ||| exists|mark: int|
                0 <= mark < start && (#[trigger] s[mark] == 0x3f || s[mark] == 0x23) && forall|i: int|
                    mark <= i < start ==> !whitespace(#[trigger] s[i])
            ||| end + 1 < s.len() && (s[end] == 0x3f || s[end] == 0x23) && uri_payload_start_byte(
                s[end + 1],
            )
        },
{
    let first = token_start(s, start);
    lemma_token_start(s, start);
    if exists|i: int| first <= i < start && query_or_fragment_mark(#[trigger] s[i]) {
        let mark = choose|i: int| first <= i < start && query_or_fragment_mark(#[trigger] s[i]);
        assert(s[mark] == 0x3f || s[mark] == 0x23);
    }
    if exists|mark: int|
        0 <= mark < start && (#[trigger] s[mark] == 0x3f || s[mark] == 0x23) && forall|i: int|
            mark <= i < start ==> !whitespace(#[trigger] s[i]) {
        let mark = choose|mark: int|
            0 <= mark < start && (#[trigger] s[mark] == 0x3f || s[mark] == 0x23) && forall|i: int|
                mark <= i < start ==> !whitespace(#[trigger] s[i]);
        lemma_token_from(s, mark, start);
        assert(query_or_fragment_mark(s[mark]));
    }
}

/// `first..colon` is a whole scheme with its `:`: no scheme byte stands before it, and no
/// whitespace between it and `start`.
pub open spec fn scheme_stands(s: Seq<u8>, first: int, colon: int, start: int) -> bool {
    &&& 0 <= first <= colon < start
    &&& s[colon] == 0x3a
    &&& uri_scheme(s.subrange(first, colon))
    &&& first > 0 ==> !uri_scheme_byte(s[first - 1])
    &&& forall|i: int| first <= i < start ==> !whitespace(#[trigger] s[i])
}

/// A run of scheme bytes that nothing extends to the left is the one that is found.
proof fn lemma_scheme_run(s: Seq<u8>, floor: int, first: int, at: int)
    requires
        0 <= floor <= first <= at <= s.len(),
        first > 0 ==> !uri_scheme_byte(s[first - 1]),
        forall|i: int| first <= i < at ==> uri_scheme_byte(#[trigger] s[i]),
    ensures
        scheme_start(s, floor, at) == first,
    decreases at - first,
{
    if at > first {
        assert(uri_scheme_byte(s[at - 1]));
        lemma_scheme_run(s, floor, first, at - 1);
    }
}

/// The run that is found is not extended to the left.
proof fn lemma_scheme_run_begins(s: Seq<u8>, floor: int, at: int)
    requires
        0 <= floor <= at <= s.len(),
    ensures
        scheme_start(s, floor, at) > floor ==> !uri_scheme_byte(s[scheme_start(s, floor, at) - 1]),
    decreases at - floor,
{
    if at > floor && uri_scheme_byte(s[at - 1]) {
        lemma_scheme_run_begins(s, floor, at - 1);
    }
}

/// An occurrence comes after a scheme if and only if a whole scheme with its `:` stands before it
/// in the same token.
pub proof fn law_after_schemes(s: Seq<u8>, start: int)
    requires
        0 <= start <= s.len(),
    ensures
        after_scheme(s, start) <==> exists|first: int, colon: int|
            #[trigger] scheme_stands(s, first, colon, start),
{
    let floor = token_start(s, start);
    lemma_token_start(s, start);
    if after_scheme(s, start) {
        let colon = choose|colon: int|
            floor <= colon < start && #[trigger] ends_scheme(s, floor, colon);
        lemma_scheme_start(s, floor, colon);
        lemma_scheme_run_begins(s, floor, colon);
        let first = scheme_start(s, floor, colon);
        assert(scheme_stands(s, first, colon, start));
    }
    if exists|first: int, colon: int| #[trigger] scheme_stands(s, first, colon, start) {
        let (first, colon) = choose|first: int, colon: int| #[trigger]
            scheme_stands(s, first, colon, start);
        lemma_token_from(s, first, start);
        assert forall|i: int| first <= i < colon implies uri_scheme_byte(#[trigger] s[i]) by {
            assert(s.subrange(first, colon)[i - first] == s[i]);
        }
        lemma_scheme_run(s, floor, first, colon);
        assert(ends_scheme(s, floor, colon));
    }
}

/// An occurrence is in a URI reference if and only if it is in or before a query or fragment, is a
/// scheme with its `:` and something after, or comes after a scheme.
pub proof fn law_uri_references(s: Seq<u8>, start: int, end: int)
    requires
        0 <= start <= s.len(),
        start <= end,
    ensures
        uri_reference(s, start, end) <==> {
            ||| relative_uri_component(s, start, end)
            ||| end + 1 < s.len() && s[end] == 0x3a && uri_payload_start_byte(s[end + 1])
                && uri_scheme(s.subrange(start, end))
            ||| exists|first: int, colon: int| #[trigger] scheme_stands(s, first, colon, start)
        },
{
    law_after_schemes(s, start);
}

// Markdown.

/// A byte is escaped if and only if the byte before it is a backslash that is not escaped itself.
pub proof fn law_escapes(s: Seq<u8>, index: int)
    requires
        0 <= index < s.len(),
    ensures
        !escaped(s, 0),
        escaped(s, index + 1) <==> s[index] == 0x5c && !escaped(s, index),
{
}

/// Only unescaped parentheses change the depth, by one each.
pub proof fn law_depths(s: Seq<u8>, index: int)
    requires
        0 <= index < s.len(),
    ensures
        parenthesis_depth(s, 0) == 0,
        parenthesis_depth(s, index + 1) - parenthesis_depth(s, index) == (if escaped(s, index) {
            0int
        } else if s[index] == 0x28 {
            1int
        } else if s[index] == 0x29 {
            -1int
        } else {
            0int
        }),
{
}

/// A destination prefix is closed if and only if it holds an unescaped closing parenthesis or
/// whitespace byte that stands in no parentheses of its own.
pub proof fn law_inline_destinations_close(s: Seq<u8>)
    ensures
        !inline_destination_open(s) <==> exists|i: int|
            {
                &&& 0 <= i < s.len()
                &&& !#[trigger] escaped(s, i)
                &&& s[i] == 0x29 || s[i] == 0x20 || s[i] == 0x09 || s[i] == 0x0a || s[i] == 0x0c
                    || s[i] == 0x0d
                &&& parenthesis_depth(s, i) <= 0
            },
{
    if !inline_destination_open(s) {
        let i = choose|i: int|
            0 <= i < s.len() && !#[trigger] escaped(s, i) && (s[i] == ')' as u8 || whitespace(s[i]))
                && parenthesis_depth(s, i) <= 0;
        assert(!escaped(s, i));
    }
    if exists|i: int|
        {
            &&& 0 <= i < s.len()
            &&& !#[trigger] escaped(s, i)
            &&& s[i] == 0x29 || s[i] == 0x20 || s[i] == 0x09 || s[i] == 0x0a || s[i] == 0x0c || s[i]
                == 0x0d
            &&& parenthesis_depth(s, i) <= 0
        } {
        let i = choose|i: int|
            {
                &&& 0 <= i < s.len()
                &&& !#[trigger] escaped(s, i)
                &&& s[i] == 0x29 || s[i] == 0x20 || s[i] == 0x09 || s[i] == 0x0a || s[i] == 0x0c
                    || s[i] == 0x0d
                &&& parenthesis_depth(s, i) <= 0
            };
        assert(!escaped(s, i) && (s[i] == ')' as u8 || whitespace(s[i])));
    }
}

/// Text without whitespace and closing parentheses never closes an inline destination.
pub proof fn law_inline_destination_without_closers_is_open(s: Seq<u8>)
    requires
        forall|i: int|
            0 <= i < s.len() ==> #[trigger] s[i] != 0x29 && s[i] != 0x20 && s[i] != 0x09 && s[i]
                != 0x0a && s[i] != 0x0c && s[i] != 0x0d,
    ensures
        inline_destination_open(s),
{
    law_inline_destinations_close(s);
}

/// Escapes and depths look only backwards.
proof fn lemma_look_back(s: Seq<u8>, t: Seq<u8>, index: int)
    requires
        0 <= index <= s.len(),
    ensures
        escaped(s + t, index) == escaped(s, index),
        parenthesis_depth(s + t, index) == parenthesis_depth(s, index),
    decreases index,
{
    if index > 0 {
        lemma_look_back(s, t, index - 1);
        law_escapes(s, index - 1);
        law_escapes(s + t, index - 1);
        assert((s + t)[index - 1] == s[index - 1]);
    }
}

/// An inline destination that has closed stays closed, and an open one stays open over text
/// without whitespace and closing parentheses.
pub proof fn law_inline_destinations_grow(s: Seq<u8>, t: Seq<u8>)
    ensures
        inline_destination_open(s + t) ==> inline_destination_open(s),
        inline_destination_open(s) && (forall|i: int|
            0 <= i < t.len() ==> #[trigger] t[i] != 0x29 && t[i] != 0x20 && t[i] != 0x09 && t[i]
                != 0x0a && t[i] != 0x0c && t[i] != 0x0d) ==> inline_destination_open(s + t),
{
    let whole = s + t;
    if inline_destination_open(whole) {
        assert forall|i: int|
            0 <= i < s.len() && !#[trigger] escaped(s, i) && (s[i] == ')' as u8 || whitespace(
                s[i],
            )) implies parenthesis_depth(s, i) > 0 by {
            lemma_look_back(s, t, i);
            assert(whole[i] == s[i]);
            assert(!escaped(whole, i));
        }
    }
    if inline_destination_open(s) && (forall|i: int|
        0 <= i < t.len() ==> #[trigger] t[i] != 0x29 && t[i] != 0x20 && t[i] != 0x09 && t[i] != 0x0a
            && t[i] != 0x0c && t[i] != 0x0d) {
        assert forall|i: int|
            0 <= i < whole.len() && !#[trigger] escaped(whole, i) && (whole[i] == ')' as u8
                || whitespace(whole[i])) implies parenthesis_depth(whole, i) > 0 by {
            if i < s.len() {
                lemma_look_back(s, t, i);
                assert(!escaped(s, i));
            } else {
                assert(whole[i] == t[i - s.len()]);
            }
        }
    }
}

/// A backslash in an open inline destination, itself not escaped, keeps it open over the byte after
/// it, whatever that is.
pub proof fn law_escaped_byte_keeps_inline_destination_open(s: Seq<u8>, byte: u8)
    requires
        inline_destination_open(s),
        !escaped(s, s.len() as int),
    ensures
        inline_destination_open(s + seq![0x5c, byte]),
{
    let t = seq![0x5cu8, byte];
    let whole = s + t;
    assert forall|i: int|
        0 <= i < whole.len() && !#[trigger] escaped(whole, i) && (whole[i] == ')' as u8
            || whitespace(whole[i])) implies parenthesis_depth(whole, i) > 0 by {
        lemma_look_back(s, t, if i < s.len() { i } else { s.len() as int });
        law_escapes(whole, s.len() as int);
        assert(whole[s.len() as int] == 0x5c);
        if i < s.len() {
            assert(!escaped(s, i));
        }
    }
}

/// In an open inline destination no parenthesis is closed that it did not open.
proof fn lemma_depth_of_open_destination(s: Seq<u8>, index: int)
    requires
        inline_destination_open(s),
        0 <= index <= s.len(),
    ensures
        parenthesis_depth(s, index) >= 0,
    decreases index,
{
    if index > 0 {
        lemma_depth_of_open_destination(s, index - 1);
        law_depths(s, index - 1);
    }
}

/// The depth stays over text without closing parentheses, or grows.
proof fn lemma_depth_grows(s: Seq<u8>, from: int, to: int)
    requires
        0 <= from <= to <= s.len(),
        forall|i: int| from <= i < to ==> #[trigger] s[i] != 0x29,
    ensures
        parenthesis_depth(s, from) <= parenthesis_depth(s, to),
    decreases to - from,
{
    if from < to {
        lemma_depth_grows(s, from, to - 1);
        law_depths(s, to - 1);
        assert(s[to - 1] != 0x29);
    }
}

/// An unescaped `(` keeps an open inline destination open, whitespace and all, up to the next `)`.
pub proof fn law_parenthesis_keeps_inline_destination_open(s: Seq<u8>, t: Seq<u8>)
    requires
        inline_destination_open(s),
        !escaped(s, s.len() as int),
        forall|i: int| 0 <= i < t.len() ==> #[trigger] t[i] != 0x29,
    ensures
        inline_destination_open(s + seq![0x28] + t),
{
    let n = s.len() as int;
    let tail = seq![0x28u8] + t;
    let whole = s + tail;
    assert(whole =~= s + seq![0x28u8] + t);
    lemma_look_back(s, tail, n);
    lemma_depth_of_open_destination(s, n);
    assert(whole[n] == 0x28);
    law_depths(whole, n);
    assert forall|i: int| n < i < whole.len() implies #[trigger] whole[i] != 0x29 by {
        assert(whole[i] == t[i - n - 1]);
    }
    assert forall|i: int|
        0 <= i < whole.len() && !#[trigger] escaped(whole, i) && (whole[i] == ')' as u8
            || whitespace(whole[i])) implies parenthesis_depth(whole, i) > 0 by {
        if i < n {
            lemma_look_back(s, tail, i);
            assert(!escaped(s, i));
        } else if i > n {
            lemma_depth_grows(whole, n + 1, i);
        }
    }
}

/// The first byte that is not whitespace is found.
pub proof fn law_skipped_whitespace(s: Seq<u8>, from: int)
    requires
        0 <= from <= s.len(),
    ensures
        from <= skip_whitespace(s, from) <= s.len(),
        forall|i: int| from <= i < skip_whitespace(s, from) ==> whitespace(#[trigger] s[i]),
        skip_whitespace(s, from) < s.len() ==> !whitespace(s[skip_whitespace(s, from)]),
    decreases s.len() - from,
{
    if from < s.len() && whitespace(s[from]) {
        law_skipped_whitespace(s, from + 1);
    }
}

/// A reference destination, with its first byte that is not whitespace at `first`, is open if and
/// only if, after a `<` there, no unescaped `>` has come, and without it no unescaped whitespace.
pub proof fn law_reference_destinations(s: Seq<u8>, first: int)
    requires
        0 <= first <= s.len(),
        forall|i: int| 0 <= i < first ==> whitespace(#[trigger] s[i]),
        first < s.len() ==> !whitespace(s[first]),
    ensures
        first < s.len() && s[first] == 0x3c ==> (reference_destination_open(s) <==> forall|i: int|
            first < i < s.len() && #[trigger] s[i] == 0x3e ==> escaped(s, i)),
        !(first < s.len() && s[first] == 0x3c) ==> (reference_destination_open(s) <==> forall|
            i: int,
        |
            first <= i < s.len() && (#[trigger] s[i] == 0x20 || s[i] == 0x09 || s[i] == 0x0a || s[i]
                == 0x0c || s[i] == 0x0d) ==> escaped(s, i)),
{
    law_skipped_whitespace(s, 0);
    let found = skip_whitespace(s, 0);
    if found < first {
        assert(whitespace(s[found]));
    } else if first < found {
        assert(whitespace(s[first]));
    }
    assert(found == first);
    if first < s.len() && s[first] == 0x3c {
        assert(angle_delimited(s));
        if reference_destination_open(s) {
            assert forall|i: int| first < i < s.len() && #[trigger] s[i] == 0x3e implies escaped(
                s,
                i,
            ) by {
                if !escaped(s, i) {
                    assert(s[i] != '>' as u8);
                }
            }
        }
    } else {
        assert(!angle_delimited(s));
        if reference_destination_open(s) {
            assert forall|i: int|
                first <= i < s.len() && (#[trigger] s[i] == 0x20 || s[i] == 0x09 || s[i] == 0x0a
                    || s[i] == 0x0c || s[i] == 0x0d) implies escaped(s, i) by {
                if !escaped(s, i) {
                    assert(!whitespace(s[i]));
                }
            }
        }
    }
}

/// The last pair of two bytes stands at a place if and only if they are there and nowhere later.
pub proof fn law_last_pairs(s: Seq<u8>, first: u8, second: u8, index: int)
    ensures
        last_pair_at(s, first, second, index) <==> {
            &&& 0 <= index && index + 1 < s.len()
            &&& s[index] == first && s[index + 1] == second
            &&& forall|later: int|
                index < later && later + 1 < s.len() && #[trigger] s[later] == first ==> s[later
                    + 1] != second
        },
        pair_at(s, first, second, index) <==> 0 <= index && index + 1 < s.len() && s[index] == first
            && s[index + 1] == second,
{
    if last_pair_at(s, first, second, index) {
        assert forall|later: int|
            index < later && later + 1 < s.len() && #[trigger] s[later] == first implies s[later
            + 1] != second by {
            assert(!pair_at(s, first, second, later));
        }
    }
}

/// On the line that begins at `first`, the bytes `]` and `mark` stand at `opener` and not again
/// before `start`, and a `[` stands before them.
pub open spec fn opened_at(s: Seq<u8>, first: int, opener: int, mark: u8, start: int) -> bool {
    &&& first <= opener && opener + 2 <= start
    &&& s[opener] == 0x5d && s[opener + 1] == mark
    &&& forall|later: int|
        opener < later && later + 1 < start && #[trigger] s[later] == 0x5d ==> s[later + 1] != mark
    &&& exists|bracket: int| first <= bracket < opener && #[trigger] s[bracket] == 0x5b
}

proof fn lemma_opened_at(s: Seq<u8>, first: int, opener: int, mark: u8, start: int)
    requires
        0 <= first <= start <= s.len(),
    ensures
        opened_at(s, first, opener, mark, start) <==> {
            let line = s.subrange(first, start);
            last_pair_at(line, 0x5d, mark, opener - first) && bracket_before(line, opener - first)
        },
{
    let line = s.subrange(first, start);
    let at = opener - first;
    assert forall|i: int| 0 <= i < line.len() implies #[trigger] line[i] == s[first + i] by {}
    law_last_pairs(line, 0x5d, mark, at);
    if opened_at(s, first, opener, mark, start) {
        assert(line[at] == s[opener] && line[at + 1] == s[opener + 1]);
        assert forall|later: int|
            at < later && later + 1 < line.len() && #[trigger] line[later] == 0x5d implies line[
        later + 1] != mark by {
            assert(s[first + later] == 0x5d);
        }
        let bracket = choose|bracket: int|
            first <= bracket < opener && #[trigger] s[bracket] == 0x5b;
        assert(line[bracket - first] == 0x5b);
        assert(bracket_before(line, at));
    }
    if last_pair_at(line, 0x5d, mark, at) && bracket_before(line, at) {
        assert forall|later: int|
            opener < later && later + 1 < start && #[trigger] s[later] == 0x5d implies s[later + 1]
            != mark by {
            assert(line[later - first] == 0x5d);
            assert(line[later - first + 1] == s[later + 1]);
        }
        let i = choose|i: int| 0 <= i < at && #[trigger] line[i] == '[' as u8;
        assert(s[first + i] == 0x5b);
    }
}

/// With its line beginning at `first`, an occurrence is in a link destination if and only if a `[`
/// and then, last on the line, `](` or `]:` stand before it, and the destination after them is
/// still open.
pub proof fn law_link_destinations(s: Seq<u8>, start: int, first: int)
    requires
        0 <= first <= start <= s.len(),
        first == 0 || s[first - 1] == 0x0a,
        forall|i: int| first <= i < start ==> #[trigger] s[i] != 0x0a,
    ensures
        link_destination(s, start) <==> {
            ||| exists|opener: int| #[trigger]
                opened_at(s, first, opener, 0x28, start) && inline_destination_open(
                    s.subrange(opener + 2, start),
                )
            ||| exists|opener: int| #[trigger]
                opened_at(s, first, opener, 0x3a, start) && reference_destination_open(
                    s.subrange(opener + 2, start),
                )
        },
{
    law_lines(s, start);
    if line_start(s, start) < first {
        assert(s[first - 1] != 0x0a);
    } else if line_start(s, start) > first {
        assert(s[line_start(s, start) - 1] != 0x0a);
    }
    let line = s.subrange(first, start);
    if ends_in_inline_destination(line) {
        let at = choose|at: int|
            {
                &&& #[trigger] last_pair_at(line, ']' as u8, '(' as u8, at)
                &&& bracket_before(line, at)
                &&& inline_destination_open(line.skip(at + 2))
            };
        lemma_opened_at(s, first, first + at, 0x28, start);
        assert(line.skip(at + 2) =~= s.subrange(first + at + 2, start));
        assert(opened_at(s, first, first + at, 0x28, start));
    }
    if ends_in_reference_destination(line) {
        let at = choose|at: int|
            {
                &&& #[trigger] last_pair_at(line, ']' as u8, ':' as u8, at)
                &&& bracket_before(line, at)
                &&& reference_destination_open(line.skip(at + 2))
            };
        lemma_opened_at(s, first, first + at, 0x3a, start);
        assert(line.skip(at + 2) =~= s.subrange(first + at + 2, start));
        assert(opened_at(s, first, first + at, 0x3a, start));
    }
    if exists|opener: int| #[trigger]
        opened_at(s, first, opener, 0x28, start) && inline_destination_open(
            s.subrange(opener + 2, start),
        ) {
        let opener = choose|opener: int| #[trigger]
            opened_at(s, first, opener, 0x28, start) && inline_destination_open(
                s.subrange(opener + 2, start),
            );
        lemma_opened_at(s, first, opener, 0x28, start);
        assert(line.skip(opener - first + 2) =~= s.subrange(opener + 2, start));
        assert(last_pair_at(line, ']' as u8, '(' as u8, opener - first));
        assert(ends_in_inline_destination(line));
    }
    if exists|opener: int| #[trigger]
        opened_at(s, first, opener, 0x3a, start) && reference_destination_open(
            s.subrange(opener + 2, start),
        ) {
        let opener = choose|opener: int| #[trigger]
            opened_at(s, first, opener, 0x3a, start) && reference_destination_open(
                s.subrange(opener + 2, start),
            );
        lemma_opened_at(s, first, opener, 0x3a, start);
        assert(line.skip(opener - first + 2) =~= s.subrange(opener + 2, start));
        assert(last_pair_at(line, ']' as u8, ':' as u8, opener - first));
        assert(ends_in_reference_destination(line));
    }
}

/// A term in an inline link destination stays: on its line come a `[`, the last `](`, and then no
/// whitespace and no `)` up to the term.
pub proof fn law_after_link_opener_stays(
    s: Seq<u8>,
    start: int,
    end: int,
    bracket: int,
    opener: int,
)
    requires
        0 <= bracket < opener,
        opener + 2 <= start <= end <= s.len(),
        s[bracket] == 0x5b,
        s[opener] == 0x5d && s[opener + 1] == 0x28,
        forall|i: int| bracket <= i < start ==> #[trigger] s[i] != 0x0a,
        forall|i: int|
            opener < i && i + 1 < start && #[trigger] s[i] == 0x5d ==> s[i + 1] != 0x28,
        forall|i: int|
            opener + 2 <= i < start ==> #[trigger] s[i] != 0x29 && s[i] != 0x20 && s[i] != 0x09
                && s[i] != 0x0c && s[i] != 0x0d,
    ensures
        !retargetable(s, start, end),
{
    law_lines(s, start);
    let first = line_start(s, start);
    if first > bracket {
        assert(s[first - 1] != 0x0a);
    }
    law_link_destinations(s, start, first);
    assert(opened_at(s, first, opener, 0x28, start));
    let destination = s.subrange(opener + 2, start);
    assert forall|i: int| 0 <= i < destination.len() implies #[trigger] destination[i] != 0x29
        && destination[i] != 0x20 && destination[i] != 0x09 && destination[i] != 0x0a
        && destination[i] != 0x0c && destination[i] != 0x0d by {
        assert(destination[i] == s[opener + 2 + i]);
    }
    law_inline_destination_without_closers_is_open(destination);
}

/// A term in a reference link destination stays: on its line come a `[`, the last `]:`, whitespace
/// up to `first`, and then up to the term either no `<` at once and no whitespace, or a `<` at once
/// and no `>`.
pub proof fn law_after_link_label_stays(
    s: Seq<u8>,
    start: int,
    end: int,
    bracket: int,
    opener: int,
    first: int,
)
    requires
        0 <= bracket < opener,
        opener + 2 <= first <= start <= end <= s.len(),
        s[bracket] == 0x5b,
        s[opener] == 0x5d && s[opener + 1] == 0x3a,
        forall|i: int| bracket <= i < start ==> #[trigger] s[i] != 0x0a,
        forall|i: int|
            opener < i && i + 1 < start && #[trigger] s[i] == 0x5d ==> s[i + 1] != 0x3a,
        forall|i: int|
            opener + 2 <= i < first ==> #[trigger] s[i] == 0x20 || s[i] == 0x09 || s[i] == 0x0c
                || s[i] == 0x0d,
        ({
            ||| (first < start ==> s[first] != 0x3c) && forall|i: int|
                first <= i < start ==> #[trigger] s[i] != 0x20 && s[i] != 0x09 && s[i] != 0x0c
                    && s[i] != 0x0d
            ||| first < start && s[first] == 0x3c && forall|i: int|
                first < i < start ==> #[trigger] s[i] != 0x3e
        }),
    ensures
        !retargetable(s, start, end),
{
    law_lines(s, start);
    let line = line_start(s, start);
    if line > bracket {
        assert(s[line - 1] != 0x0a);
    }
    law_link_destinations(s, start, line);
    assert(opened_at(s, line, opener, 0x3a, start));
    let destination = s.subrange(opener + 2, start);
    let skipped = first - opener - 2;
    assert forall|i: int| 0 <= i < destination.len() implies #[trigger] destination[i] == s[opener
        + 2 + i] by {}
    assert forall|i: int| 0 <= i < skipped implies whitespace(#[trigger] destination[i]) by {
        assert(s[opener + 2 + i] == 0x20 || s[opener + 2 + i] == 0x09 || s[opener + 2 + i] == 0x0c
            || s[opener + 2 + i] == 0x0d);
    }
    if skipped < destination.len() {
        assert(destination[skipped] == s[first]);
        assert(s[first] != 0x0a);
    }
    law_reference_destinations(destination, skipped);
    if first < start && s[first] == 0x3c {
        assert forall|i: int|
            skipped < i < destination.len() && #[trigger] destination[i] == 0x3e implies escaped(
            destination,
            i,
        ) by {
            assert(s[opener + 2 + i] != 0x3e);
        }
    } else {
        assert forall|i: int|
            skipped <= i < destination.len() && (#[trigger] destination[i] == 0x20 || destination[i]
                == 0x09 || destination[i] == 0x0a || destination[i] == 0x0c || destination[i]
                == 0x0d) implies escaped(destination, i) by {
            assert(s[opener + 2 + i] != 0x20 && s[opener + 2 + i] != 0x0a);
        }
    }
}

// Paths and dotted names.

/// A mark outside ASCII is a character from U+0080 to U+00BF, U+2000 to U+207F, U+3000 to U+303F,
/// or U+FF00 to U+FF7F.
pub proof fn law_marks_are_characters(before: Seq<u8>, c: u32, after: Seq<u8>)
    requires
        is_scalar(c),
    ensures
        ({
            let s = before + encode_scalar(c) + after;
            let at = before.len() as int;
            let mark = 0x80 <= c <= 0xbf || 0x2000 <= c <= 0x207f || 0x3000 <= c <= 0x303f || 0xff00
                <= c <= 0xff7f;
            &&& mark_at(s, at) == mark
            &&& mark_before(s, at + encode_scalar(c).len()) == mark
        }),
{
    let s = before + encode_scalar(c) + after;
    let at = before.len() as int;
    if has_width_1_encoding(c) {
        assert((c & 0x7f) as u8 <= 0x7f) by (bit_vector);
        assert(s[at] == leading_byte_width_1(c));
    } else if has_width_2_encoding(c) {
        assert(s[at] == leading_byte_width_2(c));
        assert(s[at + 1] == last_continuation_byte(c));
        assert(0x80 <= (0x80u8 | (c & 0x3f) as u8) <= 0xbf) by (bit_vector);
        assert(0xc0 <= (0xc0u8 | ((c >> 6) & 0x1f) as u8) <= 0xdf) by (bit_vector);
        assert((0xc0u8 | ((c >> 6) & 0x1f) as u8) == 0xc2 <==> 0x80 <= c <= 0xbf) by (bit_vector)
            requires
                0x80 <= c <= 0x7ff,
        ;
    } else if has_width_3_encoding(c) {
        let b1 = leading_byte_width_3(c);
        let b2 = second_last_continuation_byte(c);
        let b3 = last_continuation_byte(c);
        assert(s[at] == b1);
        assert(s[at + 1] == b2);
        assert(s[at + 2] == b3);
        assert(0x80 <= (0x80u8 | (c & 0x3f) as u8) <= 0xbf) by (bit_vector);
        assert(0x80 <= (0x80u8 | ((c >> 6) & 0x3f) as u8) <= 0xbf) by (bit_vector);
        assert(0xe0 <= (0xe0u8 | ((c >> 12) & 0x0f) as u8) <= 0xef) by (bit_vector);
        assert(({
            let x = 0xe0u8 | ((c >> 12) & 0x0f) as u8;
            let y = 0x80u8 | ((c >> 6) & 0x3f) as u8;
            ||| x == 0xe2 && (y == 0x80 || y == 0x81)
            ||| x == 0xe3 && y == 0x80
            ||| x == 0xef && (y == 0xbc || y == 0xbd)
        }) <==> 0x2000 <= c <= 0x207f || 0x3000 <= c <= 0x303f || 0xff00 <= c <= 0xff7f)
            by (bit_vector)
            requires
                0x800 <= c <= 0xffff,
        ;
    } else {
        assert(s[at] == leading_byte_width_4(c));
        assert(s[at + 1] == third_last_continuation_byte(c));
        assert(s[at + 2] == second_last_continuation_byte(c));
        assert(s[at + 3] == last_continuation_byte(c));
        assert(0xf0 <= (0xf0u8 | ((c >> 18) & 0x7) as u8) <= 0xf7) by (bit_vector);
        assert(0x80 <= (0x80u8 | ((c >> 12) & 0x3f) as u8) <= 0xbf) by (bit_vector);
        assert(0x80 <= (0x80u8 | ((c >> 6) & 0x3f) as u8) <= 0xbf) by (bit_vector);
    }
}

/// Marks outside ASCII are known by their own bytes only.
pub proof fn law_marks_by_bytes(s: Seq<u8>, at: int)
    ensures
        mark_at(s, at) <==> at + 1 < s.len() && {
            ||| s[at] == 0xc2 && 0x80 <= s[at + 1]
            ||| s[at] == 0xe2 && 0x80 <= s[at + 1] <= 0x81
            ||| s[at] == 0xe3 && s[at + 1] == 0x80
            ||| s[at] == 0xef && 0xbc <= s[at + 1] <= 0xbd
        },
        mark_before(s, at) <==> {
            ||| at >= 2 && s[at - 2] == 0xc2 && 0x80 <= s[at - 1]
            ||| at >= 3 && 0x80 <= s[at - 1] && s[at - 3] == 0xe2 && 0x80 <= s[at - 2] <= 0x81
            ||| at >= 3 && 0x80 <= s[at - 1] && s[at - 3] == 0xe3 && s[at - 2] == 0x80
            ||| at >= 3 && 0x80 <= s[at - 1] && s[at - 3] == 0xef && 0xbc <= s[at - 2] <= 0xbd
        },
{
}

/// A path separator, or a dot, stands at `at`, and up to `start` only name bytes and no marks. A dot
/// counts only if the match comes right after it, or a part byte that is no hyphen does.
pub open spec fn joined_from(s: Seq<u8>, at: int, start: int) -> bool {
    &&& 0 <= at < start
    &&& s[at] == 0x2f || s[at] == 0x5c || (s[at] == 0x2e && (start == at + 1 || (s[at + 1] != 0x2d
        && part_byte(s[at + 1]))))
    &&& forall|i: int| at < i < start ==> name_byte(#[trigger] s[i]) && !mark_before(s, i + 1)
}

/// An occurrence continues a path or dotted name if and only if a path separator, or a dot that
/// begins a part, stands before it with only name bytes and no marks between.
pub proof fn law_continued_names(s: Seq<u8>, start: int)
    requires
        0 <= start <= s.len(),
    ensures
        continues_name(s, start) <==> exists|at: int| #[trigger] joined_from(s, at, start),
{
    let first = name_start(s, start);
    lemma_name_start(s, start);
    if continues_name(s, start) {
        let at = choose|at: int|
            first <= at < start && (path_separator(#[trigger] s[at]) || begins_part(s, at, start));
        assert(joined_from(s, at, start));
    }
    if exists|at: int| #[trigger] joined_from(s, at, start) {
        let at = choose|at: int| #[trigger] joined_from(s, at, start);
        assert(name_byte(s[at]) && !mark_before(s, at + 1));
        if first > at + 1 {
            assert(name_byte(s[first - 1]));
        }
        assert(path_separator(s[at]) || begins_part(s, at, start));
    }
}

/// From `end` to `stop` stand only part bytes and no marks, and at `stop` a path separator, or a dot
/// and then a letter, a digit, a `_` or a `-`.
pub open spec fn joined_to(s: Seq<u8>, end: int, stop: int) -> bool {
    &&& end <= stop < s.len()
    &&& s[stop] == 0x2f || s[stop] == 0x5c || (s[stop] == 0x2e && stop + 1 < s.len() && (0x30
        <= s[stop + 1] <= 0x39 || 0x41 <= s[stop + 1] <= 0x5a || 0x61 <= s[stop + 1] <= 0x7a
        || s[stop + 1] == 0x5f || s[stop + 1] == 0x2d))
    &&& forall|i: int| end <= i < stop ==> part_byte(#[trigger] s[i]) && !mark_at(s, i)
}

/// An occurrence is continued as a path or dotted name if and only if the rest of its part is
/// followed by a path separator, or by a dot and a byte of a further part.
pub proof fn law_names_that_go_on(s: Seq<u8>, end: int)
    requires
        0 <= end,
    ensures
        continued_as_name(s, end) <==> exists|stop: int| #[trigger] joined_to(s, end, stop),
{
    if end <= s.len() {
        lemma_part_end(s, end);
        let found = part_end(s, end);
        if continued_as_name(s, end) {
            assert(joined_to(s, end, found));
        }
        if exists|stop: int| #[trigger] joined_to(s, end, stop) {
            let stop = choose|stop: int| #[trigger] joined_to(s, end, stop);
            if found > stop {
                assert(part_byte(s[stop]));
            } else if found < stop {
                assert(part_byte(s[found]));
            }
        }
    }
}

// Literal references and retargeting.

/// An occurrence is a literal reference if and only if it is part of a path or dotted name, in a
/// link destination, or part of a URI reference.
pub proof fn law_literal_references(s: Seq<u8>, start: int, end: int)
    ensures
        continues_name(s, start) ==> literal_reference(s, start, end),
        continued_as_name(s, end) ==> literal_reference(s, start, end),
        link_destination(s, start) ==> literal_reference(s, start, end),
        uri_reference(s, start, end) ==> literal_reference(s, start, end),
        literal_reference(s, start, end) ==> continues_name(s, start) || continued_as_name(s, end)
            || link_destination(s, start) || uri_reference(s, start, end),
{
}

/// An occurrence changes if and only if no word byte touches it and it is no literal reference.
pub proof fn law_retargeted_occurrences(s: Seq<u8>, start: int, end: int)
    requires
        0 <= start <= end <= s.len(),
    ensures
        start > 0 && word_byte(s[start - 1]) ==> !retargetable(s, start, end),
        end < s.len() && word_byte(s[end]) ==> !retargetable(s, start, end),
        literal_reference(s, start, end) ==> !retargetable(s, start, end),
        (start > 0 ==> !word_byte(s[start - 1])) && (end < s.len() ==> !word_byte(s[end]))
            && !literal_reference(s, start, end) ==> retargetable(s, start, end),
{
}

/// A `?` or `#` stands at `mark`, and no whitespace from there to `start`.
pub open spec fn in_query_or_fragment_from(s: Seq<u8>, mark: int, start: int) -> bool {
    &&& 0 <= mark < start
    &&& s[mark] == 0x3f || s[mark] == 0x23
    &&& forall|i: int|
        mark <= i < start ==> #[trigger] s[i] != 0x20 && s[i] != 0x09 && s[i] != 0x0a && s[i] != 0x0c
            && s[i] != 0x0d
}

/// All that keeps an occurrence as it is: a letter, digit or `_` that touches it, a path or dotted
/// name that it is part of, the destination of a link, a query, fragment or URI that it is in, and
/// a `?`, `#`, or, if it could be a scheme, `:` after it that a URI goes on from.
pub proof fn law_reasons_to_stay(s: Seq<u8>, start: int, end: int)
    requires
        0 <= start <= end <= s.len(),
    ensures
        !retargetable(s, start, end) <==> {
            ||| start > 0 && (0x30 <= s[start - 1] <= 0x39 || 0x41 <= s[start - 1] <= 0x5a || 0x61
                <= s[start - 1] <= 0x7a || s[start - 1] == 0x5f)
            ||| end < s.len() && (0x30 <= s[end] <= 0x39 || 0x41 <= s[end] <= 0x5a || 0x61 <= s[end]
                <= 0x7a || s[end] == 0x5f)
            ||| exists|at: int| #[trigger] joined_from(s, at, start)
            ||| exists|stop: int| #[trigger] joined_to(s, end, stop)
            ||| exists|opener: int| #[trigger]
                opened_at(s, line_start(s, start), opener, 0x28, start) && inline_destination_open(
                    s.subrange(opener + 2, start),
                )
            ||| exists|opener: int| #[trigger]
                opened_at(s, line_start(s, start), opener, 0x3a, start)
                    && reference_destination_open(s.subrange(opener + 2, start))
            ||| exists|mark: int| #[trigger] in_query_or_fragment_from(s, mark, start)
            ||| exists|first: int, colon: int| #[trigger] scheme_stands(s, first, colon, start)
            ||| end + 1 < s.len() && uri_payload_start_byte(s[end + 1]) && (s[end] == 0x3f || s[end]
                == 0x23 || (s[end] == 0x3a && uri_scheme(s.subrange(start, end))))
        },
{
    law_continued_names(s, start);
    law_names_that_go_on(s, end);
    law_lines(s, start);
    law_link_destinations(s, start, line_start(s, start));
    law_uri_references(s, start, end);
    law_relative_uri_components(s, start, end);
    if exists|mark: int|
        0 <= mark < start && (#[trigger] s[mark] == 0x3f || s[mark] == 0x23) && forall|i: int|
            mark <= i < start ==> !whitespace(#[trigger] s[i]) {
        let mark = choose|mark: int|
            0 <= mark < start && (#[trigger] s[mark] == 0x3f || s[mark] == 0x23) && forall|i: int|
                mark <= i < start ==> !whitespace(#[trigger] s[i]);
        assert forall|i: int| mark <= i < start implies #[trigger] s[i] != 0x20 && s[i] != 0x09
            && s[i] != 0x0a && s[i] != 0x0c && s[i] != 0x0d by {
            assert(!whitespace(s[i]));
        }
        assert(in_query_or_fragment_from(s, mark, start));
    }
    if exists|mark: int| #[trigger] in_query_or_fragment_from(s, mark, start) {
        let mark = choose|mark: int| #[trigger] in_query_or_fragment_from(s, mark, start);
        assert(s[mark] == 0x3f || s[mark] == 0x23);
    }
}

/// What stands before an occurrence is prose: on its line no `]`, right before it no letter, digit
/// or `_`, and between it and the whitespace before it none of `/`, `\`, `.`, `:`, `?` and `#`.
pub open spec fn prose_before(s: Seq<u8>, start: int) -> bool {
    exists|line: int, token: int|
        {
            &&& 0 <= line <= token <= start
            &&& #[trigger] cut_by_line_feed(s, line, start)
            &&& token == 0 || s[token - 1] == 0x20 || s[token - 1] == 0x09 || s[token - 1] == 0x0a
                || s[token - 1] == 0x0c || s[token - 1] == 0x0d
            &&& #[trigger] holds_no_reference_mark(s, token, start)
            &&& start > 0 ==> !(0x30 <= s[start - 1] <= 0x39 || 0x41 <= s[start - 1] <= 0x5a || 0x61
                <= s[start - 1] <= 0x7a || s[start - 1] == 0x5f)
        }
}

/// From `line` to `start` stand no line feed and no `]`, and a line feed or nothing before `line`.
pub open spec fn cut_by_line_feed(s: Seq<u8>, line: int, start: int) -> bool {
    &&& line == 0 || s[line - 1] == 0x0a
    &&& forall|i: int| line <= i < start ==> #[trigger] s[i] != 0x0a && s[i] != 0x5d
}

/// From `from` to `to` stands none of `/`, `\`, `.`, `:`, `?` and `#`.
pub open spec fn holds_no_reference_mark(s: Seq<u8>, from: int, to: int) -> bool {
    forall|i: int|
        from <= i < to ==> #[trigger] s[i] != 0x2f && s[i] != 0x5c && s[i] != 0x2e && s[i] != 0x3a
            && s[i] != 0x3f && s[i] != 0x23
}

/// Prose before an occurrence makes it no literal reference from that side.
proof fn lemma_prose_before(s: Seq<u8>, start: int)
    requires
        0 <= start <= s.len(),
        prose_before(s, start),
    ensures
        start > 0 ==> !word_byte(s[start - 1]),
        !continues_name(s, start),
        !link_destination(s, start),
        !after_scheme(s, start),
        forall|i: int|
            token_start(s, start) <= i < start ==> !query_or_fragment_mark(#[trigger] s[i]),
{
    let (line, token) = choose|line: int, token: int|
        {
            &&& 0 <= line <= token <= start
            &&& #[trigger] cut_by_line_feed(s, line, start)
            &&& token == 0 || s[token - 1] == 0x20 || s[token - 1] == 0x09 || s[token - 1] == 0x0a
                || s[token - 1] == 0x0c || s[token - 1] == 0x0d
            &&& #[trigger] holds_no_reference_mark(s, token, start)
            &&& start > 0 ==> !(0x30 <= s[start - 1] <= 0x39 || 0x41 <= s[start - 1] <= 0x5a || 0x61
                <= s[start - 1] <= 0x7a || s[start - 1] == 0x5f)
        };
    law_tokens(s, start);
    lemma_name_start(s, start);
    let first = token_start(s, start);
    if first < token {
        assert(s[token - 1] != 0x20);
    }
    if name_start(s, start) < token {
        assert(name_byte(s[token - 1]));
    }
    assert forall|i: int| name_start(s, start) <= i < start implies !path_separator(
        #[trigger] s[i],
    ) && !begins_part(s, i, start) by {
        assert(s[i] != 0x2f);
    }
    assert forall|i: int| first <= i < start implies !query_or_fragment_mark(#[trigger] s[i]) by {
        assert(s[i] != 0x3f);
    }
    if after_scheme(s, start) {
        let colon = choose|colon: int|
            first <= colon < start && #[trigger] ends_scheme(s, first, colon);
        assert(s[colon] != 0x3a);
    }
    law_link_destinations(s, start, line);
    assert forall|opener: int, mark: u8| !#[trigger] opened_at(s, line, opener, mark, start) by {
        if line <= opener && opener + 2 <= start {
            assert(s[opener] != 0x5d);
        }
    }
}

/// An occurrence in prose that ends the text, or that an ASCII byte follows which is no letter and
/// no digit, nor one of `_`, `-`, `@`, `+`, `~`, `%`, `/`, `\`, `.`, `:`, `?` and `#`, changes,
/// whatever comes after that byte.
pub proof fn law_prose_before_plain_punctuation_changes(s: Seq<u8>, start: int, end: int)
    requires
        0 <= start <= end <= s.len(),
        prose_before(s, start),
        end < s.len() ==> s[end] < 0x80 && !(0x30 <= s[end] <= 0x39 || 0x41 <= s[end] <= 0x5a || 0x61
            <= s[end] <= 0x7a || s[end] == 0x5f || s[end] == 0x2d || s[end] == 0x40 || s[end]
            == 0x2b || s[end] == 0x7e || s[end] == 0x25 || s[end] == 0x2f || s[end] == 0x5c
            || s[end] == 0x2e || s[end] == 0x3a || s[end] == 0x3f || s[end] == 0x23),
    ensures
        retargetable(s, start, end),
{
    lemma_prose_before(s, start);
}

/// An occurrence in prose changes where what follows it, up to `stop`, begins with no word byte and
/// holds none of `/`, `\`, `.`, `:`, `?` and `#`, and the text ends there or goes on with an ASCII
/// byte that is no letter and no digit, nor one of those and of `_`, `-`, `@`, `+`, `~` and `%`.
pub proof fn law_prose_in_plain_part_changes(s: Seq<u8>, start: int, end: int, stop: int)
    requires
        0 <= start <= end <= stop <= s.len(),
        prose_before(s, start),
        holds_no_reference_mark(s, end, stop),
        stop < s.len() ==> s[stop] < 0x80 && !(0x30 <= s[stop] <= 0x39 || 0x41 <= s[stop] <= 0x5a
            || 0x61 <= s[stop] <= 0x7a || s[stop] == 0x5f || s[stop] == 0x2d || s[stop] == 0x40
            || s[stop] == 0x2b || s[stop] == 0x7e || s[stop] == 0x25 || s[stop] == 0x2f || s[stop]
            == 0x5c || s[stop] == 0x2e || s[stop] == 0x3a || s[stop] == 0x3f || s[stop] == 0x23),
        end < s.len() ==> !(0x30 <= s[end] <= 0x39 || 0x41 <= s[end] <= 0x5a || 0x61 <= s[end]
            <= 0x7a || s[end] == 0x5f),
    ensures
        retargetable(s, start, end),
{
    lemma_prose_before(s, start);
    lemma_part_end(s, end);
    let found = part_end(s, end);
    if found > stop {
        assert(part_byte(s[stop]));
    }
    if found < stop {
        assert(s[found] != 0x2f);
    }
    if end < stop {
        assert(s[end] != 0x3a);
    }
}

/// An occurrence in prose that a `.`, `:`, `?` or `#` follows changes where the text ends after that
/// mark, or goes on with no letter and no digit, nor one of `_`, `-`, `/`, `.`, `~`, `%`, `:`, `@`,
/// `?`, `#`, `[` and `+`.
pub proof fn law_prose_before_closing_mark_changes(s: Seq<u8>, start: int, end: int)
    requires
        0 <= start <= end < s.len(),
        prose_before(s, start),
        s[end] == 0x2e || s[end] == 0x3a || s[end] == 0x3f || s[end] == 0x23,
        end + 1 < s.len() ==> !(0x30 <= s[end + 1] <= 0x39 || 0x41 <= s[end + 1] <= 0x5a || 0x61
            <= s[end + 1] <= 0x7a || s[end + 1] == 0x5f || s[end + 1] == 0x2d || s[end + 1] == 0x2f
            || s[end + 1] == 0x2e || s[end + 1] == 0x7e || s[end + 1] == 0x25 || s[end + 1] == 0x3a
            || s[end + 1] == 0x40 || s[end + 1] == 0x3f || s[end + 1] == 0x23 || s[end + 1] == 0x5b
            || s[end + 1] == 0x2b),
    ensures
        retargetable(s, start, end),
{
    lemma_prose_before(s, start);
    lemma_part_end(s, end);
}

} // verus!
