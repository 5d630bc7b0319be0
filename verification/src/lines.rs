//! Lines are independent: rewriting a text is rewriting each of its lines.

use vstd::prelude::*;
use vstd::utf8::*;

use crate::layout::{apart, law_any_case_replacement, lemma_any_case_sites, lemma_same_case_sites};
use crate::laws::{
    law_rewriting_without_retargetable_occurrence_is_identity, untouched_any_case,
    untouched_same_case,
};
use crate::markdown::{lemma_line_start, line_start, link_destination};
use crate::profile::{
    case_sensitive_terms_rewritten, doc_replacement, term_replacement, terms_rewritable,
    terms_rewritten, ProfileTerms,
};
use crate::reference::{
    begins_part, continued_as_name, continues_name, lemma_name_start, mark_at, name_start,
    part_byte, path_separator, retargetable,
};
use crate::replace::{
    any_case_site, any_case_sites, lemma_spliced_extend, occurs_any_case, replaceable_any_case,
    replaced_any_case, replaced_same_case, same_case_sites, spliced,
};
use crate::text::{ascii_lower, lowercase, occurs_at};
use crate::uri::{
    after_scheme, ends_scheme, lemma_scheme_start, lemma_token_start, query_or_fragment_mark,
    relative_uri_component, scheme_of_uri, scheme_start, token_start, uri_reference,
};

verus! {

/// `t` ends with a line feed.
pub open spec fn ends_line(t: Seq<u8>) -> bool {
    t.len() > 0 && t.last() == '\n' as u8
}

/// `needle` holds no line feed.
pub open spec fn on_one_line(needle: Seq<u8>) -> bool {
    forall|i: int| 0 <= i < needle.len() ==> #[trigger] needle[i] != '\n' as u8
}

// What comes after a place in the text does not move the starts of tokens, lines and schemes.

proof fn lemma_starts_in_head(t: Seq<u8>, u: Seq<u8>, at: int)
    requires
        0 <= at <= t.len(),
    ensures
        token_start(t + u, at) == token_start(t, at),
        line_start(t + u, at) == line_start(t, at),
        name_start(t + u, at) == name_start(t, at),
    decreases at,
{
    if at > 0 {
        lemma_starts_in_head(t, u, at - 1);
    }
}

proof fn lemma_scheme_start_in_head(t: Seq<u8>, u: Seq<u8>, floor: int, at: int)
    requires
        0 <= floor <= at <= t.len(),
    ensures
        scheme_start(t + u, floor, at) == scheme_start(t, floor, at),
    decreases at - floor,
{
    if at > floor {
        lemma_scheme_start_in_head(t, u, floor, at - 1);
    }
}

proof fn lemma_ends_scheme_in_head(t: Seq<u8>, u: Seq<u8>, floor: int, colon: int)
    requires
        0 <= floor <= colon < t.len(),
    ensures
        ends_scheme(t + u, floor, colon) == ends_scheme(t, floor, colon),
{
    lemma_scheme_start_in_head(t, u, floor, colon);
    lemma_scheme_start(t, floor, colon);
    let first = scheme_start(t, floor, colon);
    assert((t + u).subrange(first, colon) =~= t.subrange(first, colon));
}

/// The line that `at` stands on in `t` ends there, or with the first byte of `u`.
spec fn line_ends_between(t: Seq<u8>, u: Seq<u8>, at: int) -> bool {
    ||| ends_line(t) && at < t.len()
    ||| at <= t.len() && u.len() > 0 && u[0] == '\n' as u8
}

proof fn lemma_continued_in_head(t: Seq<u8>, u: Seq<u8>, end: int)
    requires
        0 <= end,
        line_ends_between(t, u, end),
    ensures
        continued_as_name(t + u, end) == continued_as_name(t, end),
    decreases t.len() - end,
{
    if end < t.len() {
        assert((t + u)[end] == t[end]);
        assert(end + 1 < t.len() ==> (t + u)[end + 1] == t[end + 1]);
        assert(end + 1 == t.len() && u.len() > 0 ==> (t + u)[end + 1] == u[0]);
        if part_byte(t[end]) && !mark_at(t, end) {
            lemma_continued_in_head(t, u, end + 1);
        }
    }
}

proof fn lemma_continues_in_head(t: Seq<u8>, u: Seq<u8>, start: int)
    requires
        0 <= start <= t.len(),
    ensures
        continues_name(t + u, start) == continues_name(t, start),
{
    let s = t + u;
    lemma_starts_in_head(t, u, start);
    lemma_name_start(t, start);
    let first = name_start(t, start);
    if continues_name(s, start) {
        let i = choose|i: int|
            first <= i < start && (path_separator(#[trigger] s[i]) || begins_part(s, i, start));
        assert(path_separator(t[i]) || begins_part(t, i, start));
    }
    if continues_name(t, start) {
        let i = choose|i: int|
            first <= i < start && (path_separator(#[trigger] t[i]) || begins_part(t, i, start));
        assert(path_separator(s[i]) || begins_part(s, i, start));
    }
}

proof fn lemma_uri_reference_in_head(t: Seq<u8>, u: Seq<u8>, start: int, end: int)
    requires
        0 <= start <= end,
        line_ends_between(t, u, end),
    ensures
        uri_reference(t + u, start, end) == uri_reference(t, start, end),
{
    let s = t + u;
    lemma_starts_in_head(t, u, start);
    lemma_token_start(t, start);
    let first = token_start(t, start);
    assert(s.subrange(start, end) =~= t.subrange(start, end));
    assert(scheme_of_uri(s, start, end) == scheme_of_uri(t, start, end));
    assert forall|i: int| first <= i < start implies #[trigger] s[i] == t[i] by {}
    assert(relative_uri_component(s, start, end) == relative_uri_component(t, start, end)) by {
        if exists|i: int| first <= i < start && query_or_fragment_mark(#[trigger] t[i]) {
            let i = choose|i: int| first <= i < start && query_or_fragment_mark(#[trigger] t[i]);
            assert(query_or_fragment_mark(s[i]));
        }
    }
    assert(after_scheme(s, start) == after_scheme(t, start)) by {
        assert forall|colon: int| first <= colon < start implies ends_scheme(s, first, colon)
            == #[trigger] ends_scheme(t, first, colon) by {
            lemma_ends_scheme_in_head(t, u, first, colon);
        }
        if after_scheme(s, start) {
            let colon = choose|colon: int|
                first <= colon < start && #[trigger] ends_scheme(s, first, colon);
            assert(ends_scheme(t, first, colon));
        }
        if after_scheme(t, start) {
            let colon = choose|colon: int|
                first <= colon < start && #[trigger] ends_scheme(t, first, colon);
            assert(ends_scheme(s, first, colon));
        }
    }
}

/// Whether an occurrence is retargeted does not depend on what follows the end of its line, nor on
/// whether a line feed or the end of the text ends it.
proof fn lemma_retargetable_in_head(t: Seq<u8>, u: Seq<u8>, start: int, end: int)
    requires
        0 <= start <= end,
        line_ends_between(t, u, end),
    ensures
        retargetable(t + u, start, end) == retargetable(t, start, end),
{
    let s = t + u;
    lemma_starts_in_head(t, u, start);
    lemma_line_start(t, start);
    assert(s.subrange(line_start(t, start), start) =~= t.subrange(line_start(t, start), start));
    assert(link_destination(s, start) == link_destination(t, start));
    lemma_uri_reference_in_head(t, u, start, end);
    lemma_continues_in_head(t, u, start);
    lemma_continued_in_head(t, u, end);
    assert(start > 0 ==> s[start - 1] == t[start - 1]);
    assert(end < t.len() ==> s[end] == t[end]);
    assert(end == t.len() ==> s[end] == u[0]);
}

// A line feed cuts off tokens, lines and schemes.

proof fn lemma_starts_in_tail(t: Seq<u8>, u: Seq<u8>, at: int)
    requires
        ends_line(t),
        0 <= at <= u.len(),
    ensures
        token_start(t + u, t.len() + at) == t.len() + token_start(u, at),
        line_start(t + u, t.len() + at) == t.len() + line_start(u, at),
        name_start(t + u, t.len() + at) == t.len() + name_start(u, at),
    decreases at,
{
    if at > 0 {
        lemma_starts_in_tail(t, u, at - 1);
        assert((t + u)[t.len() + at - 1] == u[at - 1]);
    } else {
        assert((t + u)[t.len() - 1] == t.last());
    }
}

proof fn lemma_scheme_start_in_tail(t: Seq<u8>, u: Seq<u8>, floor: int, at: int)
    requires
        0 <= floor <= at <= u.len(),
    ensures
        scheme_start(t + u, t.len() + floor, t.len() + at) == t.len() + scheme_start(u, floor, at),
    decreases at - floor,
{
    if at > floor {
        lemma_scheme_start_in_tail(t, u, floor, at - 1);
        assert((t + u)[t.len() + at - 1] == u[at - 1]);
    }
}

proof fn lemma_ends_scheme_in_tail(t: Seq<u8>, u: Seq<u8>, floor: int, colon: int)
    requires
        0 <= floor <= colon < u.len(),
    ensures
        ends_scheme(t + u, t.len() + floor, t.len() + colon) == ends_scheme(u, floor, colon),
{
    lemma_scheme_start_in_tail(t, u, floor, colon);
    lemma_scheme_start(u, floor, colon);
    let first = scheme_start(u, floor, colon);
    assert((t + u).subrange(t.len() + first, t.len() + colon) =~= u.subrange(first, colon));
}

proof fn lemma_continued_in_tail(t: Seq<u8>, u: Seq<u8>, end: int)
    requires
        0 <= end <= u.len(),
    ensures
        continued_as_name(t + u, t.len() + end) == continued_as_name(u, end),
    decreases u.len() - end,
{
    if end < u.len() {
        assert((t + u)[t.len() + end] == u[end]);
        assert(end + 1 < u.len() ==> (t + u)[t.len() + end + 1] == u[end + 1]);
        if part_byte(u[end]) && !mark_at(u, end) {
            lemma_continued_in_tail(t, u, end + 1);
        }
    }
}

proof fn lemma_continues_in_tail(t: Seq<u8>, u: Seq<u8>, start: int)
    requires
        ends_line(t),
        0 <= start <= u.len(),
    ensures
        continues_name(t + u, t.len() + start) == continues_name(u, start),
{
    let s = t + u;
    let n = t.len() as int;
    lemma_starts_in_tail(t, u, start);
    lemma_name_start(u, start);
    let first = name_start(u, start);
    if continues_name(s, n + start) {
        let i = choose|i: int|
            n + first <= i < n + start && (path_separator(#[trigger] s[i]) || begins_part(s, i, n + start));
        assert(s[i] == u[i - n]);
        assert(i + 1 < n + start ==> s[i + 1] == u[i - n + 1]);
        assert(path_separator(u[i - n]) || begins_part(u, i - n, start));
    }
    if continues_name(u, start) {
        let i = choose|i: int|
            first <= i < start && (path_separator(#[trigger] u[i]) || begins_part(u, i, start));
        assert(s[n + i] == u[i]);
        assert(i + 1 < start ==> s[n + i + 1] == u[i + 1]);
        assert(path_separator(s[n + i]) || begins_part(s, n + i, n + start));
    }
}

proof fn lemma_uri_reference_in_tail(t: Seq<u8>, u: Seq<u8>, start: int, end: int)
    requires
        ends_line(t),
        0 <= start <= end <= u.len(),
    ensures
        uri_reference(t + u, t.len() + start, t.len() + end) == uri_reference(u, start, end),
{
    let s = t + u;
    let n = t.len() as int;
    lemma_starts_in_tail(t, u, start);
    lemma_token_start(u, start);
    let first = token_start(u, start);
    assert forall|i: int| 0 <= i < u.len() implies #[trigger] u[i] == s[n + i] by {}
    assert(s.subrange(n + start, n + end) =~= u.subrange(start, end));
    assert(scheme_of_uri(s, n + start, n + end) == scheme_of_uri(u, start, end));
    assert(relative_uri_component(s, n + start, n + end) == relative_uri_component(u, start, end))
        by {
        if exists|i: int| first <= i < start && query_or_fragment_mark(#[trigger] u[i]) {
            let i = choose|i: int| first <= i < start && query_or_fragment_mark(#[trigger] u[i]);
            assert(query_or_fragment_mark(s[n + i]));
        }
        if exists|i: int| n + first <= i < n + start && query_or_fragment_mark(#[trigger] s[i]) {
            let i = choose|i: int|
                n + first <= i < n + start && query_or_fragment_mark(#[trigger] s[i]);
            assert(query_or_fragment_mark(u[i - n]));
        }
    }
    assert(after_scheme(s, n + start) == after_scheme(u, start)) by {
        if after_scheme(s, n + start) {
            let colon = choose|colon: int|
                n + first <= colon < n + start && #[trigger] ends_scheme(s, n + first, colon);
            lemma_ends_scheme_in_tail(t, u, first, colon - n);
            assert(ends_scheme(u, first, colon - n));
        }
        if after_scheme(u, start) {
            let colon = choose|colon: int|
                first <= colon < start && #[trigger] ends_scheme(u, first, colon);
            lemma_ends_scheme_in_tail(t, u, first, colon);
            assert(ends_scheme(s, n + first, n + colon));
        }
    }
}

/// Whether an occurrence is retargeted does not depend on earlier lines.
proof fn lemma_retargetable_in_tail(t: Seq<u8>, u: Seq<u8>, start: int, end: int)
    requires
        ends_line(t),
        0 <= start <= end <= u.len(),
    ensures
        retargetable(t + u, t.len() + start, t.len() + end) == retargetable(u, start, end),
{
    let s = t + u;
    let n = t.len() as int;
    lemma_starts_in_tail(t, u, start);
    lemma_line_start(u, start);
    assert(s.subrange(n + line_start(u, start), n + start) =~= u.subrange(
        line_start(u, start),
        start,
    ));
    assert(link_destination(s, n + start) == link_destination(u, start));
    lemma_uri_reference_in_tail(t, u, start, end);
    lemma_continues_in_tail(t, u, start);
    lemma_continued_in_tail(t, u, end);
    assert(s[n - 1] == t.last());
    assert(start > 0 ==> s[n + start - 1] == u[start - 1]);
    assert(end < u.len() ==> s[n + end] == u[end]);
}

// A term without a line feed occurs on one line only.

proof fn lemma_occurs_on_one_line(t: Seq<u8>, u: Seq<u8>, needle: Seq<u8>, at: int)
    requires
        ends_line(t),
        on_one_line(needle),
        needle.len() > 0,
    ensures
        at < t.len() ==> occurs_at(t + u, needle, at) == occurs_at(t, needle, at),
        at < t.len() && occurs_at(t, needle, at) ==> at + needle.len() < t.len(),
        at >= t.len() ==> occurs_at(t + u, needle, at) == occurs_at(u, needle, at - t.len()),
{
    let s = t + u;
    let n = t.len() as int;
    if 0 <= at < n {
        if at + needle.len() < n {
            assert(s.subrange(at, at + needle.len()) =~= t.subrange(at, at + needle.len()));
        } else {
            let k = n - 1 - at;
            if occurs_at(s, needle, at) {
                assert(s.subrange(at, at + needle.len())[k] == needle[k]);
            }
            if occurs_at(t, needle, at) {
                assert(t.subrange(at, at + needle.len())[k] == needle[k]);
            }
        }
    } else if at >= n && at + needle.len() <= s.len() {
        assert(s.subrange(at, at + needle.len()) =~= u.subrange(at - n, at - n + needle.len()));
    }
}

proof fn lemma_any_case_on_one_line(t: Seq<u8>, u: Seq<u8>, needle: Seq<u8>, at: int)
    requires
        ends_line(t),
        on_one_line(needle),
        needle.len() > 0,
    ensures
        at < t.len() ==> occurs_any_case(t + u, needle, at) == occurs_any_case(t, needle, at),
        at < t.len() ==> any_case_site(t + u, needle, at) == any_case_site(t, needle, at),
        at < t.len() && occurs_any_case(t, needle, at) ==> at + needle.len() < t.len(),
        at >= t.len() ==> occurs_any_case(t + u, needle, at) == occurs_any_case(
            u,
            needle,
            at - t.len(),
        ),
        at >= t.len() ==> any_case_site(t + u, needle, at) == any_case_site(
            u,
            needle,
            at - t.len(),
        ),
{
    assert(lowercase(t + u) =~= lowercase(t) + lowercase(u));
    assert(lowercase(t).last() == ascii_lower(t.last()));
    assert forall|i: int| 0 <= i < lowercase(needle).len() implies #[trigger] lowercase(needle)[i]
        != '\n' as u8 by {
        assert(needle[i] != '\n' as u8);
    }
    lemma_occurs_on_one_line(lowercase(t), lowercase(u), lowercase(needle), at);
    if at < t.len() && occurs_any_case(t, needle, at) {
        lemma_retargetable_in_head(t, u, at, at + needle.len());
    }
    if at >= t.len() && occurs_any_case(u, needle, at - t.len()) {
        lemma_retargetable_in_tail(t, u, at - t.len(), at - t.len() + needle.len());
    }
}

// The sites of a text are those of its lines.

/// `sites`, each `by` bytes further on.
spec fn moved(sites: Seq<int>, by: int) -> Seq<int> {
    Seq::new(sites.len(), |k: int| sites[k] + by)
}

proof fn lemma_any_case_sites_in_tail(t: Seq<u8>, u: Seq<u8>, needle: Seq<u8>, from: int)
    requires
        ends_line(t),
        on_one_line(needle),
        needle.len() > 0,
        0 <= from,
    ensures
        any_case_sites(t + u, needle, t.len() + from) == moved(
            any_case_sites(u, needle, from),
            t.len() as int,
        ),
    decreases u.len() - from,
{
    let n = t.len() as int;
    if from + needle.len() <= u.len() {
        lemma_any_case_sites_in_tail(t, u, needle, from + 1);
        lemma_any_case_on_one_line(t, u, needle, n + from);
    }
    assert(any_case_sites(t + u, needle, n + from) =~= moved(any_case_sites(u, needle, from), n));
}

proof fn lemma_any_case_sites_by_line(t: Seq<u8>, u: Seq<u8>, needle: Seq<u8>, from: int)
    requires
        ends_line(t),
        on_one_line(needle),
        needle.len() > 0,
        0 <= from <= t.len(),
    ensures
        any_case_sites(t + u, needle, from) == any_case_sites(t, needle, from) + moved(
            any_case_sites(u, needle, 0),
            t.len() as int,
        ),
    decreases t.len() - from,
{
    let later = moved(any_case_sites(u, needle, 0), t.len() as int);
    if from == t.len() {
        lemma_any_case_sites_in_tail(t, u, needle, 0);
    } else {
        lemma_any_case_sites_by_line(t, u, needle, from + 1);
        lemma_any_case_on_one_line(t, u, needle, from);
    }
    assert(any_case_sites(t + u, needle, from) =~= any_case_sites(t, needle, from) + later);
}

proof fn lemma_same_case_sites_in_tail(t: Seq<u8>, u: Seq<u8>, needle: Seq<u8>, from: int)
    requires
        ends_line(t),
        on_one_line(needle),
        needle.len() > 0,
        0 <= from,
    ensures
        same_case_sites(t + u, needle, t.len() + from) == moved(
            same_case_sites(u, needle, from),
            t.len() as int,
        ),
    decreases u.len() - from,
{
    let n = t.len() as int;
    if from + needle.len() <= u.len() {
        lemma_occurs_on_one_line(t, u, needle, n + from);
        if occurs_at(u, needle, from) {
            lemma_retargetable_in_tail(t, u, from, from + needle.len());
            lemma_same_case_sites_in_tail(t, u, needle, from + needle.len());
        } else {
            lemma_same_case_sites_in_tail(t, u, needle, from + 1);
        }
    }
    assert(same_case_sites(t + u, needle, n + from) =~= moved(
        same_case_sites(u, needle, from),
        n,
    ));
}

proof fn lemma_same_case_sites_by_line(t: Seq<u8>, u: Seq<u8>, needle: Seq<u8>, from: int)
    requires
        ends_line(t),
        on_one_line(needle),
        needle.len() > 0,
        0 <= from <= t.len(),
    ensures
        same_case_sites(t + u, needle, from) == same_case_sites(t, needle, from) + moved(
            same_case_sites(u, needle, 0),
            t.len() as int,
        ),
    decreases t.len() - from,
{
    let later = moved(same_case_sites(u, needle, 0), t.len() as int);
    if from == t.len() {
        lemma_same_case_sites_in_tail(t, u, needle, 0);
    } else {
        lemma_occurs_on_one_line(t, u, needle, from);
        if occurs_at(t, needle, from) {
            lemma_retargetable_in_head(t, u, from, from + needle.len());
            lemma_same_case_sites_by_line(t, u, needle, from + needle.len());
        } else {
            lemma_same_case_sites_by_line(t, u, needle, from + 1);
        }
    }
    assert(same_case_sites(t + u, needle, from) =~= same_case_sites(t, needle, from) + later);
}

// Splicing a text is splicing its parts.

proof fn lemma_spliced_by_part(
    t: Seq<u8>,
    u: Seq<u8>,
    a: Seq<int>,
    b: Seq<int>,
    width: int,
    replacement: Seq<u8>,
)
    requires
        0 <= width,
        apart(a, width, t.len() as int),
        apart(b, width, u.len() as int),
    ensures
        spliced(t + u, a + moved(b, t.len() as int), width, replacement) == spliced(
            t,
            a,
            width,
            replacement,
        ) + spliced(u, b, width, replacement),
    decreases b.len(),
{
    let n = t.len() as int;
    let s = t + u;
    let sites = a + moved(b, n);
    if b.len() == 0 {
        assert(sites =~= a);
        lemma_spliced_extend(s, a, width, replacement, n, s.len() as int);
        assert(s.take(s.len() as int) =~= s);
        assert(s.take(n) =~= t);
        assert(s.subrange(n, s.len() as int) =~= u);
    } else {
        let at = b.last();
        let before = b.drop_last();
        assert(sites.last() == n + at);
        assert(sites.drop_last() =~= a + moved(before, n));
        assert(s.take(n + at) =~= t + u.take(at));
        assert(s.skip(n + at + width) =~= u.skip(at + width));
        assert forall|k: int| 0 <= k < before.len() implies 0 <= #[trigger] before[k] && before[k]
            + width <= at by {
            assert(b[k] + width <= b[b.len() - 1]);
        }
        lemma_spliced_by_part(t, u.take(at), a, before, width, replacement);
        let head = spliced(t, a, width, replacement);
        let middle = spliced(u.take(at), before, width, replacement);
        assert(head + middle + replacement + u.skip(at + width) =~= head + (middle + replacement
            + u.skip(at + width)));
    }
}

proof fn lemma_spliced_ends_line(t: Seq<u8>, sites: Seq<int>, width: int, replacement: Seq<u8>)
    requires
        ends_line(t),
        0 <= width,
        sites.len() > 0 ==> 0 <= sites.last() && sites.last() + width < t.len(),
    ensures
        ends_line(spliced(t, sites, width, replacement)),
{
    if sites.len() > 0 {
        let rest = t.skip(sites.last() + width);
        assert(rest.len() > 0);
        assert(rest.last() == t.last());
    }
}

// One term.

/// Retargeting a term that holds no line feed, in any case, works line by line: on a text that
/// ends its line and the text after it, it does what it does on each, and can be done where it can
/// be done on both. The first keeps its line feed.
pub proof fn law_any_case_replacement_by_line(
    t: Seq<u8>,
    u: Seq<u8>,
    needle: Seq<u8>,
    replacement: Seq<u8>,
)
    requires
        ends_line(t),
        on_one_line(needle),
    ensures
        replaceable_any_case(t + u, needle) <==> replaceable_any_case(t, needle)
            && replaceable_any_case(u, needle),
        replaceable_any_case(t + u, needle) ==> replaced_any_case(t + u, needle, replacement)
            == replaced_any_case(t, needle, replacement) + replaced_any_case(
            u,
            needle,
            replacement,
        ),
        ends_line(replaced_any_case(t, needle, replacement)),
{
    let n = t.len() as int;
    if needle.len() > 0 {
        let a = any_case_sites(t, needle, 0);
        lemma_any_case_sites(t, needle, 0);
        if a.len() > 0 {
            lemma_any_case_on_one_line(t, u, needle, a.last());
        }
        lemma_spliced_ends_line(t, a, needle.len() as int, replacement);
        assert forall|at: int|
            (at < n ==> #[trigger] any_case_site(t + u, needle, at) == any_case_site(
                t,
                needle,
                at,
            )) && (at >= n ==> any_case_site(t + u, needle, at) == any_case_site(
                u,
                needle,
                at - n,
            )) by {
            lemma_any_case_on_one_line(t, u, needle, at);
        }
        if replaceable_any_case(t + u, needle) {
            lemma_replaceable_parts(t, u, needle);
        }
        if replaceable_any_case(t, needle) && replaceable_any_case(u, needle) {
            lemma_replaceable_whole(t, u, needle);
            law_any_case_replacement(t, needle, replacement);
            law_any_case_replacement(u, needle, replacement);
            lemma_any_case_sites_by_line(t, u, needle, 0);
            lemma_spliced_by_part(
                t,
                u,
                a,
                any_case_sites(u, needle, 0),
                needle.len() as int,
                replacement,
            );
        }
    }
}

proof fn lemma_replaceable_parts(t: Seq<u8>, u: Seq<u8>, needle: Seq<u8>)
    requires
        ends_line(t),
        on_one_line(needle),
        needle.len() > 0,
        replaceable_any_case(t + u, needle),
    ensures
        replaceable_any_case(t, needle),
        replaceable_any_case(u, needle),
{
    let n = t.len() as int;
    assert forall|at: int| #[trigger] occurs_any_case(t, needle, at) implies needle[0] < 0x80 by {
        lemma_any_case_on_one_line(t, u, needle, at);
        assert(occurs_any_case(t + u, needle, at));
    }
    assert forall|at: int| #[trigger] occurs_any_case(u, needle, at) implies needle[0] < 0x80 by {
        lemma_any_case_on_one_line(t, u, needle, n + at);
        assert(occurs_any_case(t + u, needle, n + at));
    }
    assert forall|p: int, q: int| #[trigger]
        any_case_site(t, needle, p) && #[trigger] any_case_site(t, needle, q) && p < q implies p
        + needle.len() <= q by {
        lemma_any_case_on_one_line(t, u, needle, p);
        lemma_any_case_on_one_line(t, u, needle, q);
        assert(any_case_site(t + u, needle, p) && any_case_site(t + u, needle, q));
    }
    assert forall|p: int, q: int| #[trigger]
        any_case_site(u, needle, p) && #[trigger] any_case_site(u, needle, q) && p < q implies p
        + needle.len() <= q by {
        lemma_any_case_on_one_line(t, u, needle, n + p);
        lemma_any_case_on_one_line(t, u, needle, n + q);
        assert(any_case_site(t + u, needle, n + p) && any_case_site(t + u, needle, n + q));
    }
}

proof fn lemma_replaceable_whole(t: Seq<u8>, u: Seq<u8>, needle: Seq<u8>)
    requires
        ends_line(t),
        on_one_line(needle),
        needle.len() > 0,
        replaceable_any_case(t, needle),
        replaceable_any_case(u, needle),
    ensures
        replaceable_any_case(t + u, needle),
{
    let n = t.len() as int;
    assert forall|at: int| #[trigger] occurs_any_case(t + u, needle, at) implies needle[0]
        < 0x80 by {
        lemma_any_case_on_one_line(t, u, needle, at);
        assert(occurs_any_case(t, needle, at) || occurs_any_case(u, needle, at - n));
    }
    assert forall|p: int, q: int| #[trigger]
        any_case_site(t + u, needle, p) && #[trigger] any_case_site(t + u, needle, q) && p
        < q implies p + needle.len() <= q by {
        lemma_any_case_on_one_line(t, u, needle, p);
        lemma_any_case_on_one_line(t, u, needle, q);
        if q < n {
            assert(any_case_site(t, needle, p) && any_case_site(t, needle, q));
        } else if p >= n {
            assert(any_case_site(u, needle, p - n) && any_case_site(u, needle, q - n));
        }
    }
}

/// Retargeting a term that holds no line feed, case and all, works line by line.
pub proof fn law_same_case_replacement_by_line(
    t: Seq<u8>,
    u: Seq<u8>,
    needle: Seq<u8>,
    replacement: Seq<u8>,
)
    requires
        ends_line(t),
        on_one_line(needle),
    ensures
        replaced_same_case(t + u, needle, replacement) == replaced_same_case(
            t,
            needle,
            replacement,
        ) + replaced_same_case(u, needle, replacement),
        ends_line(replaced_same_case(t, needle, replacement)),
{
    if needle.len() > 0 {
        let a = same_case_sites(t, needle, 0);
        let b = same_case_sites(u, needle, 0);
        lemma_same_case_sites(t, needle, 0);
        lemma_same_case_sites(u, needle, 0);
        if a.len() > 0 {
            lemma_occurs_on_one_line(t, u, needle, a[a.len() - 1]);
        }
        lemma_same_case_sites_by_line(t, u, needle, 0);
        lemma_spliced_by_part(t, u, a, b, needle.len() as int, replacement);
        lemma_spliced_ends_line(t, a, needle.len() as int, replacement);
    }
}

// Whole profiles.

proof fn lemma_terms_by_line(terms: Seq<Seq<char>>, t: Seq<u8>, u: Seq<u8>)
    requires
        ends_line(t),
        forall|k: int| 0 <= k < terms.len() ==> on_one_line(encode_utf8(#[trigger] terms[k])),
    ensures
        terms_rewritable(terms, t + u) <==> terms_rewritable(terms, t) && terms_rewritable(
            terms,
            u,
        ),
        terms_rewritable(terms, t + u) ==> terms_rewritten(terms, t + u) == terms_rewritten(
            terms,
            t,
        ) + terms_rewritten(terms, u),
        ends_line(terms_rewritten(terms, t)),
    decreases terms.len(),
{
    if terms.len() > 0 {
        let term = encode_utf8(terms[0]);
        let rest = terms.drop_first();
        assert(on_one_line(term));
        assert forall|k: int| 0 <= k < rest.len() implies on_one_line(
            encode_utf8(#[trigger] rest[k]),
        ) by {
            assert(rest[k] == terms[k + 1]);
        }
        law_any_case_replacement_by_line(t, u, term, term_replacement());
        lemma_terms_by_line(
            rest,
            replaced_any_case(t, term, term_replacement()),
            replaced_any_case(u, term, term_replacement()),
        );
    }
}

proof fn lemma_case_sensitive_terms_by_line(terms: Seq<Seq<char>>, t: Seq<u8>, u: Seq<u8>)
    requires
        ends_line(t),
        forall|k: int| 0 <= k < terms.len() ==> on_one_line(encode_utf8(#[trigger] terms[k])),
    ensures
        case_sensitive_terms_rewritten(terms, t + u) == case_sensitive_terms_rewritten(terms, t)
            + case_sensitive_terms_rewritten(terms, u),
    decreases terms.len(),
{
    if terms.len() > 0 {
        let term = encode_utf8(terms[0]);
        let rest = terms.drop_first();
        assert(on_one_line(term));
        assert forall|k: int| 0 <= k < rest.len() implies on_one_line(
            encode_utf8(#[trigger] rest[k]),
        ) by {
            assert(rest[k] == terms[k + 1]);
        }
        law_same_case_replacement_by_line(t, u, term, term_replacement());
        lemma_case_sensitive_terms_by_line(
            rest,
            replaced_same_case(t, term, term_replacement()),
            replaced_same_case(u, term, term_replacement()),
        );
    }
}

/// A profile whose terms hold no line feed rewrites a text line by line: what comes before or
/// after a line has no effect on it.
pub proof fn law_rewriting_by_line(profile: ProfileTerms, t: Seq<u8>, u: Seq<u8>)
    requires
        ends_line(t),
        on_one_line(encode_utf8(profile.doc_file_name)),
        forall|k: int|
            0 <= k < profile.term_variants.len() ==> on_one_line(
                encode_utf8(#[trigger] profile.term_variants[k]),
            ),
        forall|k: int|
            0 <= k < profile.case_sensitive_term_variants.len() ==> on_one_line(
                encode_utf8(#[trigger] profile.case_sensitive_term_variants[k]),
            ),
    ensures
        profile.rewritable(t + u) <==> profile.rewritable(t) && profile.rewritable(u),
        profile.rewritable(t + u) ==> profile.rewritten(t + u) == profile.rewritten(t)
            + profile.rewritten(u),
{
    law_any_case_replacement_by_line(
        t,
        u,
        encode_utf8(profile.doc_file_name),
        doc_replacement(),
    );
    let t1 = profile.doc_name_rewritten(t);
    let u1 = profile.doc_name_rewritten(u);
    lemma_terms_by_line(profile.term_variants, t1, u1);
    lemma_case_sensitive_terms_by_line(
        profile.case_sensitive_term_variants,
        terms_rewritten(profile.term_variants, t1),
        terms_rewritten(profile.term_variants, u1),
    );
}

/// A line in which every occurrence of the terms, if any, is part of a word or a literal
/// reference comes out as it went in, whatever the other lines hold.
pub proof fn law_line_without_retargetable_occurrence_stays(
    profile: ProfileTerms,
    t: Seq<u8>,
    line: Seq<u8>,
    u: Seq<u8>,
)
    requires
        t.len() == 0 || ends_line(t),
        ends_line(line),
        profile.rewritable(t + line + u),
        on_one_line(encode_utf8(profile.doc_file_name)),
        untouched_any_case(line, profile.doc_file_name),
        forall|k: int|
            0 <= k < profile.term_variants.len() ==> on_one_line(
                encode_utf8(#[trigger] profile.term_variants[k]),
            ) && untouched_any_case(line, profile.term_variants[k]),
        forall|k: int|
            0 <= k < profile.case_sensitive_term_variants.len() ==> on_one_line(
                encode_utf8(#[trigger] profile.case_sensitive_term_variants[k]),
            ) && untouched_same_case(line, profile.case_sensitive_term_variants[k]),
    ensures
        profile.rewritten(t + line + u) == profile.rewritten(t) + line + profile.rewritten(u),
{
    law_rewriting_without_retargetable_occurrence_is_identity(profile, line);
    law_rewriting_by_line(profile, line, u);
    assert(t + line + u =~= t + (line + u));
    if t.len() == 0 {
        assert(t + (line + u) =~= line + u);
        lemma_empty_text(profile, t);
        assert(profile.rewritten(t) + line + profile.rewritten(u) =~= line + profile.rewritten(u));
    } else {
        law_rewriting_by_line(profile, t, line + u);
        assert(profile.rewritten(t) + line + profile.rewritten(u) =~= profile.rewritten(t) + (line
            + profile.rewritten(u)));
    }
}

proof fn lemma_empty_text(profile: ProfileTerms, t: Seq<u8>)
    requires
        t.len() == 0,
    ensures
        profile.rewritten(t) == t,
{
    assert forall|term: Seq<char>| #[trigger] untouched_any_case(t, term) by {
        assert(term.len() > 0 ==> encode_utf8(term).len() > 0);
    }
    assert forall|term: Seq<char>| #[trigger] untouched_same_case(t, term) by {
        assert(term.len() > 0 ==> encode_utf8(term).len() > 0);
    }
    law_rewriting_without_retargetable_occurrence_is_identity(profile, t);
}

// A line feed at the end.

/// A line feed.
pub open spec fn line_feed() -> Seq<u8> {
    seq!['\n' as u8]
}

proof fn lemma_occurs_before_line_feed(a: Seq<u8>, needle: Seq<u8>, at: int)
    requires
        on_one_line(needle),
        needle.len() > 0,
    ensures
        occurs_at(a + line_feed(), needle, at) == occurs_at(a, needle, at),
{
    let s = a + line_feed();
    if 0 <= at && at + needle.len() <= a.len() {
        assert(s.subrange(at, at + needle.len()) =~= a.subrange(at, at + needle.len()));
    } else if occurs_at(s, needle, at) {
        let k = needle.len() - 1;
        assert(s.subrange(at, at + needle.len())[k] == needle[k]);
        assert(s[a.len() as int] == '\n' as u8);
    }
}

proof fn lemma_any_case_before_line_feed(a: Seq<u8>, needle: Seq<u8>, at: int)
    requires
        on_one_line(needle),
        needle.len() > 0,
    ensures
        occurs_any_case(a + line_feed(), needle, at) == occurs_any_case(a, needle, at),
        any_case_site(a + line_feed(), needle, at) == any_case_site(a, needle, at),
{
    assert(lowercase(a + line_feed()) =~= lowercase(a) + line_feed());
    assert forall|i: int| 0 <= i < lowercase(needle).len() implies #[trigger] lowercase(needle)[i]
        != '\n' as u8 by {
        assert(needle[i] != '\n' as u8);
    }
    lemma_occurs_before_line_feed(lowercase(a), lowercase(needle), at);
    if occurs_any_case(a, needle, at) {
        lemma_retargetable_in_head(a, line_feed(), at, at + needle.len());
    }
}

proof fn lemma_any_case_sites_before_line_feed(a: Seq<u8>, needle: Seq<u8>, from: int)
    requires
        on_one_line(needle),
        needle.len() > 0,
        0 <= from,
    ensures
        any_case_sites(a + line_feed(), needle, from) == any_case_sites(a, needle, from),
    decreases a.len() + 1 - from,
{
    if from + needle.len() <= a.len() + 1 {
        lemma_any_case_before_line_feed(a, needle, from);
        lemma_any_case_sites_before_line_feed(a, needle, from + 1);
    }
}

proof fn lemma_same_case_sites_before_line_feed(a: Seq<u8>, needle: Seq<u8>, from: int)
    requires
        on_one_line(needle),
        needle.len() > 0,
        0 <= from,
    ensures
        same_case_sites(a + line_feed(), needle, from) == same_case_sites(a, needle, from),
    decreases a.len() + 1 - from,
{
    if from + needle.len() <= a.len() + 1 {
        lemma_occurs_before_line_feed(a, needle, from);
        if occurs_at(a, needle, from) {
            lemma_retargetable_in_head(a, line_feed(), from, from + needle.len());
            lemma_same_case_sites_before_line_feed(a, needle, from + needle.len());
        } else {
            lemma_same_case_sites_before_line_feed(a, needle, from + 1);
        }
    }
}

proof fn lemma_spliced_before_line_feed(
    a: Seq<u8>,
    sites: Seq<int>,
    width: int,
    replacement: Seq<u8>,
)
    requires
        0 <= width,
        sites.len() > 0 ==> 0 <= sites.last() && sites.last() + width <= a.len(),
    ensures
        spliced(a + line_feed(), sites, width, replacement) == spliced(
            a,
            sites,
            width,
            replacement,
        ) + line_feed(),
{
    let s = a + line_feed();
    let n = a.len() as int;
    lemma_spliced_extend(s, sites, width, replacement, n, n + 1);
    assert(s.take(n + 1) =~= s);
    assert(s.take(n) =~= a);
    assert(s.subrange(n, n + 1) =~= line_feed());
}

/// A line feed at the end of a text makes no difference to the retargeting, in any case or the
/// same case, of a term that holds none.
pub proof fn law_replacement_before_line_feed(a: Seq<u8>, needle: Seq<u8>, replacement: Seq<u8>)
    requires
        on_one_line(needle),
    ensures
        replaceable_any_case(a + line_feed(), needle) == replaceable_any_case(a, needle),
        replaced_any_case(a + line_feed(), needle, replacement) == replaced_any_case(
            a,
            needle,
            replacement,
        ) + line_feed(),
        replaced_same_case(a + line_feed(), needle, replacement) == replaced_same_case(
            a,
            needle,
            replacement,
        ) + line_feed(),
{
    if needle.len() > 0 {
        let s = a + line_feed();
        let w = needle.len() as int;
        assert forall|at: int|
            #![trigger occurs_any_case(s, needle, at)]
            #![trigger occurs_any_case(a, needle, at)]
            occurs_any_case(s, needle, at) == occurs_any_case(a, needle, at) by {
            lemma_any_case_before_line_feed(a, needle, at);
        }
        assert forall|at: int|
            #![trigger any_case_site(s, needle, at)]
            #![trigger any_case_site(a, needle, at)]
            any_case_site(s, needle, at) == any_case_site(a, needle, at) by {
            lemma_any_case_before_line_feed(a, needle, at);
        }
        lemma_any_case_sites(a, needle, 0);
        lemma_any_case_sites_before_line_feed(a, needle, 0);
        lemma_spliced_before_line_feed(a, any_case_sites(a, needle, 0), w, replacement);
        lemma_same_case_sites(a, needle, 0);
        lemma_same_case_sites_before_line_feed(a, needle, 0);
        lemma_spliced_before_line_feed(a, same_case_sites(a, needle, 0), w, replacement);
    }
}

proof fn lemma_terms_before_line_feed(terms: Seq<Seq<char>>, a: Seq<u8>)
    requires
        forall|k: int| 0 <= k < terms.len() ==> on_one_line(encode_utf8(#[trigger] terms[k])),
    ensures
        terms_rewritable(terms, a + line_feed()) == terms_rewritable(terms, a),
        terms_rewritten(terms, a + line_feed()) == terms_rewritten(terms, a) + line_feed(),
        case_sensitive_terms_rewritten(terms, a + line_feed()) == case_sensitive_terms_rewritten(
            terms,
            a,
        ) + line_feed(),
    decreases terms.len(),
{
    if terms.len() > 0 {
        let term = encode_utf8(terms[0]);
        let rest = terms.drop_first();
        assert(on_one_line(term));
        assert forall|k: int| 0 <= k < rest.len() implies on_one_line(
            encode_utf8(#[trigger] rest[k]),
        ) by {
            assert(rest[k] == terms[k + 1]);
        }
        law_replacement_before_line_feed(a, term, term_replacement());
        lemma_terms_before_line_feed(rest, replaced_any_case(a, term, term_replacement()));
        lemma_terms_before_line_feed(rest, replaced_same_case(a, term, term_replacement()));
    }
}

/// A profile whose terms hold no line feed rewrites a text and the same text with a line feed at
/// its end alike.
pub proof fn law_rewriting_before_line_feed(profile: ProfileTerms, a: Seq<u8>)
    requires
        on_one_line(encode_utf8(profile.doc_file_name)),
        forall|k: int|
            0 <= k < profile.term_variants.len() ==> on_one_line(
                encode_utf8(#[trigger] profile.term_variants[k]),
            ),
        forall|k: int|
            0 <= k < profile.case_sensitive_term_variants.len() ==> on_one_line(
                encode_utf8(#[trigger] profile.case_sensitive_term_variants[k]),
            ),
    ensures
        profile.rewritable(a + line_feed()) == profile.rewritable(a),
        profile.rewritten(a + line_feed()) == profile.rewritten(a) + line_feed(),
{
    law_replacement_before_line_feed(a, encode_utf8(profile.doc_file_name), doc_replacement());
    let a1 = profile.doc_name_rewritten(a);
    lemma_terms_before_line_feed(profile.term_variants, a1);
    lemma_terms_before_line_feed(
        profile.case_sensitive_term_variants,
        terms_rewritten(profile.term_variants, a1),
    );
}

/// A profile whose terms hold no line feed rewrites what stands before and after a line feed, each
/// as if it stood alone.
pub proof fn law_rewriting_around_line_feed(profile: ProfileTerms, a: Seq<u8>, b: Seq<u8>)
    requires
        on_one_line(encode_utf8(profile.doc_file_name)),
        forall|k: int|
            0 <= k < profile.term_variants.len() ==> on_one_line(
                encode_utf8(#[trigger] profile.term_variants[k]),
            ),
        forall|k: int|
            0 <= k < profile.case_sensitive_term_variants.len() ==> on_one_line(
                encode_utf8(#[trigger] profile.case_sensitive_term_variants[k]),
            ),
    ensures
        profile.rewritable(a + line_feed() + b) <==> profile.rewritable(a) && profile.rewritable(b),
        profile.rewritable(a + line_feed() + b) ==> profile.rewritten(a + line_feed() + b)
            == profile.rewritten(a) + line_feed() + profile.rewritten(b),
{
    law_rewriting_before_line_feed(profile, a);
    law_rewriting_by_line(profile, a + line_feed(), b);
}

} // verus!
