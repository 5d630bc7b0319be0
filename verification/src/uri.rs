//! URI references: absolute URIs with any scheme, and the query and fragment parts of relative
//! ones.

use vstd::prelude::*;
use vstd::slice::slice_subrange;

use crate::bytes::{
    alphabetic, is_ascii_letter, is_uri_payload_start_byte, is_uri_scheme_byte, is_whitespace,
    uri_payload_start_byte, uri_scheme_byte, whitespace,
};

verus! {

/// A URI scheme: a letter, then scheme bytes.
pub open spec fn uri_scheme(s: Seq<u8>) -> bool {
    &&& s.len() > 0
    &&& alphabetic(s[0])
    &&& forall|i: int| 1 <= i < s.len() ==> uri_scheme_byte(#[trigger] s[i])
}

/// Where the whitespace-free run of bytes that ends just before `at` begins.
pub open spec fn token_start(s: Seq<u8>, at: int) -> int
    decreases at,
{
    if at <= 0 {
        0
    } else if whitespace(s[at - 1]) {
        at
    } else {
        token_start(s, at - 1)
    }
}

/// Where the run of scheme bytes that ends just before `at` begins, looking no further back than
/// `floor`.
pub open spec fn scheme_start(s: Seq<u8>, floor: int, at: int) -> int
    decreases at - floor,
{
    if at <= floor || !uri_scheme_byte(s[at - 1]) {
        at
    } else {
        scheme_start(s, floor, at - 1)
    }
}

/// A `:` at `colon` that ends a URI scheme, in the token that begins at `floor`.
pub open spec fn ends_scheme(s: Seq<u8>, floor: int, colon: int) -> bool {
    s[colon] == ':' as u8 && uri_scheme(s.subrange(scheme_start(s, floor, colon), colon))
}

/// A byte that opens the query or the fragment of a URI.
pub open spec fn query_or_fragment_mark(byte: u8) -> bool {
    byte == '?' as u8 || byte == '#' as u8
}

/// The match `start..end` stands in the query or fragment of its token, or is followed by one.
pub open spec fn relative_uri_component(s: Seq<u8>, start: int, end: int) -> bool {
    ||| exists|i: int| token_start(s, start) <= i < start && query_or_fragment_mark(#[trigger] s[i])
    ||| {
        &&& end + 1 < s.len()
        &&& query_or_fragment_mark(s[end])
        &&& uri_payload_start_byte(s[end + 1])
    }
}

/// The match `start..end` is itself the scheme of a URI.
pub open spec fn scheme_of_uri(s: Seq<u8>, start: int, end: int) -> bool {
    &&& end + 1 < s.len()
    &&& s[end] == ':' as u8
    &&& uri_payload_start_byte(s[end + 1])
    &&& uri_scheme(s.subrange(start, end))
}

/// The match at `start` comes after a scheme and its `:` in the same token.
pub open spec fn after_scheme(s: Seq<u8>, start: int) -> bool {
    exists|colon: int|
        token_start(s, start) <= colon < start && #[trigger] ends_scheme(
            s,
            token_start(s, start),
            colon,
        )
}

/// The match `start..end` is part of a URI reference.
pub open spec fn uri_reference(s: Seq<u8>, start: int, end: int) -> bool {
    ||| relative_uri_component(s, start, end)
    ||| scheme_of_uri(s, start, end)
    ||| after_scheme(s, start)
}

/// A token begins somewhere from the start of the text to the place it is sought from, and holds
/// no whitespace.
pub proof fn lemma_token_start(s: Seq<u8>, at: int)
    requires
        0 <= at <= s.len(),
    ensures
        0 <= token_start(s, at) <= at,
        forall|i: int| token_start(s, at) <= i < at ==> !whitespace(#[trigger] s[i]),
        token_start(s, at) > 0 ==> whitespace(s[token_start(s, at) - 1]),
    decreases at,
{
    if at > 0 && !whitespace(s[at - 1]) {
        lemma_token_start(s, at - 1);
    }
}

/// A run of scheme bytes begins between `floor` and the place it is sought from, and holds scheme
/// bytes only.
pub proof fn lemma_scheme_start(s: Seq<u8>, floor: int, at: int)
    requires
        0 <= floor <= at <= s.len(),
    ensures
        floor <= scheme_start(s, floor, at) <= at,
        forall|i: int|
            scheme_start(s, floor, at) <= i < at ==> uri_scheme_byte(#[trigger] s[i]),
    decreases at - floor,
{
    if at > floor && uri_scheme_byte(s[at - 1]) {
        lemma_scheme_start(s, floor, at - 1);
    }
}

/// Whether `bytes` is a URI scheme.
pub fn is_uri_scheme(bytes: &[u8]) -> (result: bool)
    ensures
        result == uri_scheme(bytes@),
{
    if bytes.len() == 0 || !is_ascii_letter(bytes[0]) {
        return false;
    }
    let mut i: usize = 1;
    while i < bytes.len()
        invariant
            1 <= i <= bytes@.len(),
            forall|j: int| 1 <= j < i ==> uri_scheme_byte(#[trigger] bytes@[j]),
        decreases bytes@.len() - i,
    {
        if !is_uri_scheme_byte(bytes[i]) {
            return false;
        }
        i += 1;
    }
    true
}

/// Finds where the token that ends just before `at` begins.
pub fn find_token_start(bytes: &[u8], at: usize) -> (result: usize)
    requires
        at <= bytes@.len(),
    ensures
        result == token_start(bytes@, at as int),
        result <= at,
{
    let mut i: usize = at;
    while i > 0 && !is_whitespace(bytes[i - 1])
        invariant
            i <= at <= bytes@.len(),
            token_start(bytes@, i as int) == token_start(bytes@, at as int),
        decreases i,
    {
        i -= 1;
    }
    i
}

/// Whether the match `start..end` stands in the query or fragment of a relative URI reference, or
/// is followed by one.
pub fn is_relative_uri_component_match(bytes: &[u8], start: usize, end: usize) -> (result: bool)
    requires
        start <= bytes@.len(),
    ensures
        result == relative_uri_component(bytes@, start as int, end as int),
{
    let first: usize = find_token_start(bytes, start);
    let mut i: usize = first;
    while i < start
        invariant
            first == token_start(bytes@, start as int),
            first <= i <= start <= bytes@.len(),
            forall|j: int| first <= j < i ==> !query_or_fragment_mark(#[trigger] bytes@[j]),
        decreases start - i,
    {
        if bytes[i] == '?' as u8 || bytes[i] == '#' as u8 {
            return true;
        }
        i += 1;
    }
    end < bytes.len() && (bytes[end] == '?' as u8 || bytes[end] == '#' as u8) && end + 1
        < bytes.len() && is_uri_payload_start_byte(bytes[end + 1])
}

/// Whether the `:` at `colon` ends a URI scheme, in the token that begins at `floor`.
fn is_scheme_end(bytes: &[u8], floor: usize, colon: usize) -> (result: bool)
    requires
        floor <= colon < bytes@.len(),
    ensures
        result == ends_scheme(bytes@, floor as int, colon as int),
{
    if bytes[colon] != ':' as u8 {
        return false;
    }
    let mut first: usize = colon;
    while first > floor && is_uri_scheme_byte(bytes[first - 1])
        invariant
            floor <= first <= colon < bytes@.len(),
            scheme_start(bytes@, floor as int, first as int) == scheme_start(
                bytes@,
                floor as int,
                colon as int,
            ),
        decreases first,
    {
        first -= 1;
    }
    is_uri_scheme(slice_subrange(bytes, first, colon))
}

/// Whether the match `start..end` is part of a URI reference: its scheme, anything after a scheme
/// in the same token, or the query or fragment of a relative one.
pub fn is_uri_reference_match(bytes: &[u8], start: usize, end: usize) -> (result: bool)
    requires
        start <= bytes@.len(),
        start <= end,
    ensures
        result == uri_reference(bytes@, start as int, end as int),
{
    if is_relative_uri_component_match(bytes, start, end) {
        return true;
    }
    if end < bytes.len() && bytes[end] == ':' as u8 && end + 1 < bytes.len()
        && is_uri_payload_start_byte(bytes[end + 1]) && is_uri_scheme(
        slice_subrange(bytes, start, end),
    ) {
        return true;
    }
    let first: usize = find_token_start(bytes, start);
    let mut colon: usize = first;
    while colon < start
        invariant
            first == token_start(bytes@, start as int),
            first <= colon <= start <= bytes@.len(),
            forall|c: int| first <= c < colon ==> !#[trigger] ends_scheme(bytes@, first as int, c),
        decreases start - colon,
    {
        if is_scheme_end(bytes, first, colon) {
            return true;
        }
        colon += 1;
    }
    false
}

} // verus!
