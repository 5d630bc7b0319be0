//! What holds of every rewrite: which occurrences stay, which change, and when a profile can be
//! applied to any text.

use vstd::prelude::*;
use vstd::utf8::*;

use crate::bytes::{
    reference_suffix_byte, uri_payload_start_byte, uri_scheme_byte, whitespace, word_byte,
};
use crate::markdown::{
    angle_delimited, bracket_before, ends_in_inline_destination, ends_in_reference_destination,
    escaped, inline_destination_open, last_pair_at,
    lemma_line_start, line_start, link_destination, pair_at, parenthesis_depth,
    reference_destination_open, skip_whitespace,
};
use crate::profile::{
    case_sensitive_terms_rewritten, doc_replacement, term_replacement, terms_rewritable,
    terms_rewritten, ProfileTerms,
};
use crate::reference::{
    begins_part, lemma_name_start, lemma_part_end, mark_at, mark_before, name_byte, name_start,
    part_byte, part_end, path_separator, retargetable,
};
use crate::replace::{
    any_case_site, any_case_sites, lemma_any_case_sites_skip, occurs_any_case, replaceable_any_case, replaced_any_case,
    replaced_same_case, same_case_sites,
};
use crate::text::{ascii_lower, lowercase, occurs_at};
use crate::uri::{
    ends_scheme, lemma_scheme_start, lemma_token_start, query_or_fragment_mark, scheme_start,
    token_start, uri_scheme,
};

verus! {

// Occurrences that stay.

/// A term joined to a word stays.
pub proof fn law_part_of_word_stays(s: Seq<u8>, start: int, end: int)
    requires
        0 <= start <= end <= s.len(),
        (start > 0 && word_byte(s[start - 1])) || (end < s.len() && word_byte(s[end])),
    ensures
        !retargetable(s, start, end),
{
}

/// A term anywhere in a path or a dotted name stays: with name bytes and no marks between it and,
/// at `at` before it, a path separator or a dot that begins a part; or with bytes of one part only
/// between it and, at `at` after it, a path separator or a dot that a further part follows.
pub proof fn law_part_of_path_or_dotted_name_stays(s: Seq<u8>, start: int, end: int, at: int)
    requires
        0 <= start <= end <= s.len(),
        ({
            ||| {
                &&& 0 <= at < start
                &&& path_separator(s[at]) || begins_part(s, at, start)
                &&& forall|i: int|
                    at < i < start ==> name_byte(#[trigger] s[i]) && !mark_before(s, i + 1)
            }
            ||| {
                &&& end <= at < s.len()
                &&& forall|i: int| end <= i < at ==> part_byte(#[trigger] s[i]) && !mark_at(s, i)
                &&& path_separator(s[at]) || (s[at] == '.' as u8 && at + 1 < s.len()
                    && reference_suffix_byte(s[at + 1]))
            }
        }),
    ensures
        !retargetable(s, start, end),
{
    if at < start {
        lemma_name_start(s, start);
        let first = name_start(s, start);
        if first > at + 1 {
            assert(name_byte(s[first - 1]));
        }
        assert(name_byte(s[at]) && !mark_before(s, at + 1));
        assert(path_separator(s[at]) || begins_part(s, at, start));
    } else {
        lemma_part_end(s, end);
        let stop = part_end(s, end);
        if stop > at {
            assert(part_byte(s[at]));
        } else if stop < at {
            assert(part_byte(s[stop]));
        }
    }
}

/// The token that ends at `at` begins no later than any whitespace-free run up to `at`.
proof fn lemma_token_reaches(s: Seq<u8>, from: int, at: int)
    requires
        0 <= from <= at <= s.len(),
        forall|i: int| from <= i < at ==> !whitespace(#[trigger] s[i]),
    ensures
        0 <= token_start(s, at) <= from,
{
    lemma_token_start(s, at);
    if token_start(s, at) > from {
        assert(!whitespace(s[token_start(s, at) - 1]));
    }
}

/// A term after a `?` or `#`, with no whitespace between, stays, whatever precedes the mark.
pub proof fn law_in_query_or_fragment_stays(s: Seq<u8>, start: int, end: int, mark: int)
    requires
        0 <= mark < start <= end <= s.len(),
        query_or_fragment_mark(s[mark]),
        forall|i: int| mark <= i < start ==> !whitespace(#[trigger] s[i]),
    ensures
        !retargetable(s, start, end),
{
    lemma_token_reaches(s, mark, start);
}

/// A term stays that a URI query or fragment follows, or that is itself the scheme of a URI.
pub proof fn law_before_uri_payload_stays(s: Seq<u8>, start: int, end: int)
    requires
        0 <= start <= end,
        end + 1 < s.len(),
        query_or_fragment_mark(s[end]) || (s[end] == ':' as u8 && uri_scheme(
            s.subrange(start, end),
        )),
        uri_payload_start_byte(s[end + 1]),
    ensures
        !retargetable(s, start, end),
{
}

/// A term anywhere after a scheme and its `:`, with no whitespace between, stays: all of a URI is
/// a literal reference.
pub proof fn law_inside_uri_stays(s: Seq<u8>, start: int, end: int, first: int, colon: int)
    requires
        0 <= first <= colon < start <= end <= s.len(),
        first > 0 ==> !uri_scheme_byte(s[first - 1]),
        uri_scheme(s.subrange(first, colon)),
        s[colon] == ':' as u8,
        forall|i: int| first <= i < start ==> !whitespace(#[trigger] s[i]),
    ensures
        !retargetable(s, start, end),
{
    lemma_token_reaches(s, first, start);
    let floor = token_start(s, start);
    lemma_scheme_start(s, floor, colon);
    assert forall|i: int| first <= i < colon implies uri_scheme_byte(#[trigger] s[i]) by {
        assert(s.subrange(first, colon)[i - first] == s[i]);
    }
    lemma_scheme_start_is(s, floor, first, colon);
    assert(ends_scheme(s, floor, colon));
}

/// A run of scheme bytes begins where no scheme byte precedes it.
proof fn lemma_scheme_start_is(s: Seq<u8>, floor: int, first: int, at: int)
    requires
        0 <= floor <= first <= at <= s.len(),
        first > 0 ==> !uri_scheme_byte(s[first - 1]),
        forall|i: int| first <= i < at ==> uri_scheme_byte(#[trigger] s[i]),
    ensures
        scheme_start(s, floor, at) == first,
    decreases at - first,
{
    if at > first {
        assert(uri_scheme_byte(s[at - 1]));
        lemma_scheme_start_is(s, floor, first, at - 1);
    }
}

/// On one line, `line_start` is where the line begins.
proof fn lemma_line_start_is(s: Seq<u8>, first: int, at: int)
    requires
        0 <= first <= at <= s.len(),
        first == 0 || s[first - 1] == '\n' as u8,
        forall|i: int| first <= i < at ==> #[trigger] s[i] != '\n' as u8,
    ensures
        line_start(s, at) == first,
    decreases at - first,
{
    if at > first {
        assert(s[at - 1] != '\n' as u8);
        lemma_line_start_is(s, first, at - 1);
    }
}

/// The text of the line that begins at `first` has, at `opener` and nowhere later before `start`,
/// the pair of bytes that opens a link destination, and an opening bracket before it.
pub open spec fn destination_opened(
    s: Seq<u8>,
    first: int,
    opener: int,
    mark: u8,
    start: int,
) -> bool {
    &&& 0 <= first <= opener
    &&& opener + 2 <= start <= s.len()
    &&& first == 0 || s[first - 1] == '\n' as u8
    &&& forall|i: int| first <= i < start ==> #[trigger] s[i] != '\n' as u8
    &&& exists|i: int| first <= i < opener && #[trigger] s[i] == '[' as u8
    &&& last_pair_at(s.subrange(first, start), ']' as u8, mark, opener - first)
}

/// A term in the destination of an inline link stays: after `[` and `](`, as long as what comes
/// then has not ended the destination. Escaped bytes and parentheses it opens do not end it.
pub proof fn law_in_inline_link_destination_stays(
    s: Seq<u8>,
    start: int,
    end: int,
    first: int,
    opener: int,
)
    requires
        start <= end <= s.len(),
        destination_opened(s, first, opener, '(' as u8, start),
        inline_destination_open(s.subrange(opener + 2, start)),
    ensures
        !retargetable(s, start, end),
{
    lemma_line_start_is(s, first, start);
    let line = s.subrange(first, start);
    lemma_bracket_in_line(s, first, opener, start);
    assert(line.skip(opener - first + 2) =~= s.subrange(opener + 2, start));
    assert(last_pair_at(line, ']' as u8, '(' as u8, opener - first));
    assert(link_destination(s, start));
}

proof fn lemma_bracket_in_line(s: Seq<u8>, first: int, opener: int, start: int)
    requires
        0 <= first <= opener <= start <= s.len(),
        exists|i: int| first <= i < opener && #[trigger] s[i] == '[' as u8,
    ensures
        bracket_before(s.subrange(first, start), opener - first),
{
    let i = choose|i: int| first <= i < opener && #[trigger] s[i] == '[' as u8;
    assert(s.subrange(first, start)[i - first] == '[' as u8);
}

/// A term in the destination of a link reference definition stays: after `[` and `]:`, as long as
/// what comes then has not ended the destination. Leading whitespace, escaped bytes, and
/// whitespace in angle brackets do not end it.
pub proof fn law_in_reference_link_destination_stays(
    s: Seq<u8>,
    start: int,
    end: int,
    first: int,
    opener: int,
)
    requires
        start <= end <= s.len(),
        destination_opened(s, first, opener, ':' as u8, start),
        reference_destination_open(s.subrange(opener + 2, start)),
    ensures
        !retargetable(s, start, end),
{
    lemma_line_start_is(s, first, start);
    let line = s.subrange(first, start);
    lemma_bracket_in_line(s, first, opener, start);
    assert(line.skip(opener - first + 2) =~= s.subrange(opener + 2, start));
    assert(last_pair_at(line, ']' as u8, ':' as u8, opener - first));
    assert(link_destination(s, start));
}

// Occurrences that change.

/// On a line that holds neither `](` nor `]:` before a place, the place is in no link destination.
pub proof fn law_without_opener_no_destination(s: Seq<u8>, start: int)
    requires
        0 <= start <= s.len(),
        forall|i: int|
            line_start(s, start) <= i < start - 1 && #[trigger] s[i] == ']' as u8 ==> s[i + 1]
                != '(' as u8 && s[i + 1] != ':' as u8,
    ensures
        !link_destination(s, start),
{
    lemma_line_start(s, start);
    let first = line_start(s, start);
    let line = s.subrange(first, start);
    assert forall|index: int|
        !#[trigger] pair_at(line, ']' as u8, '(' as u8, index) && !pair_at(
            line,
            ']' as u8,
            ':' as u8,
            index,
        ) by {
        if 0 <= index && index + 1 < line.len() {
            assert(line[index] == s[first + index]);
            assert(line[index + 1] == s[first + index + 1]);
        }
    }
}

/// An inline link destination ends at the first unescaped whitespace or closing parenthesis that
/// no parenthesis of its own surrounds: what follows on the line, such as a link title, is in no
/// destination unless `](` comes again, or a `]:` has opened one.
pub proof fn law_inline_link_destination_ends(
    s: Seq<u8>,
    start: int,
    first: int,
    opener: int,
    close: int,
)
    requires
        destination_opened(s, first, opener, '(' as u8, start),
        !ends_in_reference_destination(s.subrange(first, start)),
        opener + 2 <= close < start,
        ({
            let destination = s.subrange(opener + 2, start);
            &&& !escaped(destination, close - opener - 2)
            &&& parenthesis_depth(destination, close - opener - 2) <= 0
        }),
        whitespace(s[close]) || s[close] == ')' as u8,
    ensures
        !link_destination(s, start),
{
    lemma_line_start_is(s, first, start);
    let line = s.subrange(first, start);
    assert forall|other: int| #[trigger]
        last_pair_at(line, ']' as u8, '(' as u8, other) implies !inline_destination_open(
        line.skip(other + 2),
    ) by {
        assert(pair_at(line, ']' as u8, '(' as u8, opener - first));
        assert(other == opener - first);
        let tail = line.skip(other + 2);
        assert(tail =~= s.subrange(opener + 2, start));
        let i = close - opener - 2;
        assert(tail[i] == s[close]);
        assert(!escaped(tail, i));
    }
}

/// The destination of a link reference definition ends at its first unescaped closing angle bracket
/// or, without angle brackets, whitespace: what follows on the line, such as a link title, is in
/// no destination unless `]:` comes again, or a `](` has opened one.
pub proof fn law_reference_link_destination_ends(
    s: Seq<u8>,
    start: int,
    first: int,
    opener: int,
    close: int,
)
    requires
        destination_opened(s, first, opener, ':' as u8, start),
        !ends_in_inline_destination(s.subrange(first, start)),
        opener + 2 <= close < start,
        ({
            let destination = s.subrange(opener + 2, start);
            let at = close - opener - 2;
            &&& !escaped(destination, at)
            &&& if angle_delimited(destination) {
                skip_whitespace(destination, 0) < at && s[close] == '>' as u8
            } else {
                skip_whitespace(destination, 0) <= at && whitespace(s[close])
            }
        }),
    ensures
        !link_destination(s, start),
{
    lemma_line_start_is(s, first, start);
    let line = s.subrange(first, start);
    assert forall|other: int| #[trigger]
        last_pair_at(line, ']' as u8, ':' as u8, other) implies !reference_destination_open(
        line.skip(other + 2),
    ) by {
        assert(pair_at(line, ']' as u8, ':' as u8, opener - first));
        assert(other == opener - first);
        let tail = line.skip(other + 2);
        assert(tail =~= s.subrange(opener + 2, start));
        let i = close - opener - 2;
        assert(tail[i] == s[close]);
        assert(!escaped(tail, i));
    }
}

/// A term in prose changes: it is in no link destination; before it stand no word byte, no path
/// separator or dot that begins a part in the same run of name bytes, and no `:`, `?` or `#` in the
/// same token; after it stand no word byte, no path separator, and no `.`, `:`, `?` or `#` that a
/// name or URI follows.
pub proof fn law_prose_changes(s: Seq<u8>, start: int, end: int)
    requires
        0 <= start <= end <= s.len(),
        !link_destination(s, start),
        start > 0 ==> !word_byte(s[start - 1]),
        forall|i: int|
            name_start(s, start) <= i < start ==> !path_separator(#[trigger] s[i]) && !begins_part(
                s,
                i,
                start,
            ),
        forall|i: int|
            token_start(s, start) <= i < start ==> #[trigger] s[i] != ':' as u8
                && !query_or_fragment_mark(s[i]),
        end < s.len() ==> !word_byte(s[end]),
        ({
            let stop = part_end(s, end);
            &&& stop < s.len() ==> !path_separator(s[stop])
            &&& stop + 1 < s.len() && s[stop] == '.' as u8 ==> !reference_suffix_byte(s[stop + 1])
        }),
        end + 1 < s.len() && (s[end] == ':' as u8 || query_or_fragment_mark(s[end]))
            ==> !uri_payload_start_byte(s[end + 1]),
    ensures
        retargetable(s, start, end),
{
}

// Texts that stay as they are.

/// Where nothing is retargeted, the replacement in any case leaves the text as it is.
proof fn lemma_no_any_case_site(s: Seq<u8>, needle: Seq<u8>, from: int)
    requires
        0 <= from,
        forall|at: int| !#[trigger] any_case_site(s, needle, at),
    ensures
        any_case_sites(s, needle, from) == Seq::<int>::empty(),
    decreases s.len() - from,
{
    if needle.len() > 0 && from + needle.len() <= s.len() {
        assert(!any_case_site(s, needle, from));
        lemma_no_any_case_site(s, needle, from + 1);
    }
}

/// Where nothing is retargeted, the case-sensitive replacement leaves the text as it is.
proof fn lemma_no_same_case_site(s: Seq<u8>, needle: Seq<u8>, from: int)
    requires
        0 <= from,
        forall|at: int| #[trigger]
            occurs_at(s, needle, at) ==> !retargetable(s, at, at + needle.len()),
    ensures
        same_case_sites(s, needle, from) == Seq::<int>::empty(),
    decreases s.len() - from,
{
    if needle.len() > 0 && from + needle.len() <= s.len() {
        if occurs_at(s, needle, from) {
            lemma_no_same_case_site(s, needle, from + needle.len());
        } else {
            lemma_no_same_case_site(s, needle, from + 1);
        }
    }
}

/// A text stays as it is in which every occurrence of a term, if any, is part of a word or a
/// literal reference; an empty term changes nothing.
pub proof fn law_without_retargetable_occurrence_text_stays(
    s: Seq<u8>,
    needle: Seq<u8>,
    replacement: Seq<u8>,
)
    ensures
        needle.len() == 0 || (forall|at: int| !#[trigger] any_case_site(s, needle, at))
            ==> replaced_any_case(s, needle, replacement) == s,
        needle.len() == 0 || (forall|at: int| #[trigger]
            occurs_at(s, needle, at) ==> !retargetable(s, at, at + needle.len()))
            ==> replaced_same_case(s, needle, replacement) == s,
{
    if needle.len() > 0 && forall|at: int| !#[trigger] any_case_site(s, needle, at) {
        lemma_no_any_case_site(s, needle, 0);
    }
    if needle.len() > 0 && forall|at: int| #[trigger]
        occurs_at(s, needle, at) ==> !retargetable(s, at, at + needle.len()) {
        lemma_no_same_case_site(s, needle, 0);
    }
}

/// No occurrence of `term` in any case is retargeted in `s`.
pub open spec fn untouched_any_case(s: Seq<u8>, term: Seq<char>) -> bool {
    term.len() > 0 ==> forall|at: int| !#[trigger] any_case_site(s, encode_utf8(term), at)
}

/// No occurrence of `term`, case and all, is retargeted in `s`.
pub open spec fn untouched_same_case(s: Seq<u8>, term: Seq<char>) -> bool {
    term.len() > 0 ==> forall|at: int| #[trigger]
        occurs_at(s, encode_utf8(term), at) ==> !retargetable(
            s,
            at,
            at + encode_utf8(term).len(),
        )
}

/// `term` is empty or begins with an ASCII character.
pub open spec fn begins_in_ascii(term: Seq<char>) -> bool {
    term.len() > 0 ==> encode_utf8(term)[0] < 0x80
}

proof fn lemma_untouched_terms(s: Seq<u8>, terms: Seq<Seq<char>>)
    requires
        forall|k: int| 0 <= k < terms.len() ==> untouched_any_case(s, #[trigger] terms[k]),
    ensures
        terms_rewritten(terms, s) == s,
        (forall|k: int| 0 <= k < terms.len() ==> begins_in_ascii(#[trigger] terms[k]))
            ==> terms_rewritable(terms, s),
    decreases terms.len(),
{
    if terms.len() > 0 {
        let rest = terms.drop_first();
        law_without_retargetable_occurrence_text_stays(
            s,
            encode_utf8(terms[0]),
            term_replacement(),
        );
        assert forall|k: int| 0 <= k < rest.len() implies untouched_any_case(
            s,
            #[trigger] rest[k],
        ) && (begins_in_ascii(terms[k + 1]) ==> begins_in_ascii(rest[k])) by {
            assert(rest[k] == terms[k + 1]);
        }
        lemma_untouched_terms(s, rest);
    }
}

proof fn lemma_untouched_case_sensitive_terms(s: Seq<u8>, terms: Seq<Seq<char>>)
    requires
        forall|k: int| 0 <= k < terms.len() ==> untouched_same_case(s, #[trigger] terms[k]),
    ensures
        case_sensitive_terms_rewritten(terms, s) == s,
    decreases terms.len(),
{
    if terms.len() > 0 {
        let rest = terms.drop_first();
        law_without_retargetable_occurrence_text_stays(
            s,
            encode_utf8(terms[0]),
            term_replacement(),
        );
        assert forall|k: int| 0 <= k < rest.len() implies untouched_same_case(
            s,
            #[trigger] rest[k],
        ) by {
            assert(rest[k] == terms[k + 1]);
        }
        lemma_untouched_case_sensitive_terms(s, rest);
    }
}

/// A profile leaves a text as it is in which every occurrence of its terms, if any, is part of a
/// word or a literal reference. It can be applied to such a text if its terms begin in ASCII.
pub proof fn law_rewriting_without_retargetable_occurrence_is_identity(
    profile: ProfileTerms,
    s: Seq<u8>,
)
    requires
        untouched_any_case(s, profile.doc_file_name),
        forall|k: int|
            0 <= k < profile.term_variants.len() ==> untouched_any_case(
                s,
                #[trigger] profile.term_variants[k],
            ),
        forall|k: int|
            0 <= k < profile.case_sensitive_term_variants.len() ==> untouched_same_case(
                s,
                #[trigger] profile.case_sensitive_term_variants[k],
            ),
    ensures
        profile.rewritten(s) == s,
        begins_in_ascii(profile.doc_file_name) && (forall|k: int|
            0 <= k < profile.term_variants.len() ==> begins_in_ascii(
                #[trigger] profile.term_variants[k],
            )) ==> profile.rewritable(s),
{
    law_without_retargetable_occurrence_text_stays(
        s,
        encode_utf8(profile.doc_file_name),
        doc_replacement(),
    );
    lemma_untouched_terms(s, profile.term_variants);
    lemma_untouched_case_sensitive_terms(s, profile.case_sensitive_term_variants);
}

// Case and order.

/// Terms that differ only in ASCII case are retargeted alike by the replacement in any case.
pub proof fn law_case_of_term_is_irrelevant(
    s: Seq<u8>,
    a: Seq<u8>,
    b: Seq<u8>,
    replacement: Seq<u8>,
)
    requires
        lowercase(a) == lowercase(b),
    ensures
        replaceable_any_case(s, a) == replaceable_any_case(s, b),
        replaced_any_case(s, a, replacement) == replaced_any_case(s, b, replacement),
{
    assert(a.len() == lowercase(a).len() && b.len() == lowercase(b).len());
    lemma_same_sites(s, a, b, 0);
    if replaceable_any_case(s, a) {
        lemma_replaceable_same(s, a, b);
    }
    if replaceable_any_case(s, b) {
        lemma_replaceable_same(s, b, a);
    }
}

proof fn lemma_same_sites(s: Seq<u8>, a: Seq<u8>, b: Seq<u8>, from: int)
    requires
        lowercase(a) == lowercase(b),
        a.len() == b.len(),
        0 <= from,
    ensures
        any_case_sites(s, a, from) == any_case_sites(s, b, from),
    decreases s.len() - from,
{
    if a.len() > 0 && from + a.len() <= s.len() {
        lemma_same_sites(s, a, b, from + 1);
    }
}

proof fn lemma_replaceable_same(s: Seq<u8>, a: Seq<u8>, b: Seq<u8>)
    requires
        lowercase(a) == lowercase(b),
        a.len() == b.len(),
        replaceable_any_case(s, a),
    ensures
        replaceable_any_case(s, b),
{
    if b.len() > 0 {
        assert(ascii_lower(a[0]) == ascii_lower(b[0])) by {
            assert(lowercase(a)[0] == ascii_lower(a[0]));
            assert(lowercase(b)[0] == ascii_lower(b[0]));
        }
        assert forall|at: int| #[trigger] occurs_any_case(s, b, at) implies b[0] < 0x80 by {
            assert(occurs_any_case(s, a, at));
        }
        assert forall|p: int, q: int| #[trigger]
            any_case_site(s, b, p) && #[trigger] any_case_site(s, b, q) && p < q implies p
            + b.len() <= q by {
            assert(any_case_site(s, a, p) && any_case_site(s, a, q));
        }
    }
}

/// No two occurrences of `needle` in `s` overlap.
pub open spec fn occurrences_apart(s: Seq<u8>, needle: Seq<u8>) -> bool {
    forall|p: int, q: int| #[trigger]
        occurs_at(s, needle, p) && #[trigger] occurs_at(s, needle, q) && p < q ==> p + needle.len()
            <= q
}

proof fn lemma_sites_agree(s: Seq<u8>, needle: Seq<u8>, from: int)
    requires
        lowercase(s) == s,
        lowercase(needle) == needle,
        occurrences_apart(s, needle),
        0 <= from,
    ensures
        any_case_sites(s, needle, from) == same_case_sites(s, needle, from),
    decreases s.len() - from,
{
    if needle.len() > 0 && from + needle.len() <= s.len() {
        if occurs_at(s, needle, from) {
            assert forall|i: int| from + 1 <= i < from + needle.len() implies !#[trigger] any_case_site(
                s,
                needle,
                i,
            ) by {
                assert(!occurs_at(s, needle, i));
            }
            lemma_any_case_sites_skip(s, needle, from + 1, from + needle.len());
            lemma_sites_agree(s, needle, from + needle.len());
        } else {
            lemma_sites_agree(s, needle, from + 1);
        }
    }
}

/// On text and a term in lower case, the two replacements do the same where no two occurrences of
/// the term overlap.
pub proof fn law_replacements_agree_in_lower_case(
    s: Seq<u8>,
    needle: Seq<u8>,
    replacement: Seq<u8>,
)
    requires
        lowercase(s) == s,
        lowercase(needle) == needle,
        occurrences_apart(s, needle),
    ensures
        replaced_any_case(s, needle, replacement) == replaced_same_case(s, needle, replacement),
{
    lemma_sites_agree(s, needle, 0);
}

/// Product terms are applied one after the other: a list of terms does what its first part does,
/// and then its second part on the result.
pub proof fn law_terms_apply_in_order(first: Seq<Seq<char>>, second: Seq<Seq<char>>, s: Seq<u8>)
    ensures
        terms_rewritten(first + second, s) == terms_rewritten(second, terms_rewritten(first, s)),
        terms_rewritable(first + second, s) == (terms_rewritable(first, s) && terms_rewritable(
            second,
            terms_rewritten(first, s),
        )),
        case_sensitive_terms_rewritten(first + second, s) == case_sensitive_terms_rewritten(
            second,
            case_sensitive_terms_rewritten(first, s),
        ),
    decreases first.len(),
{
    if first.len() == 0 {
        assert(first + second =~= second);
    } else {
        assert((first + second).drop_first() =~= first.drop_first() + second);
        assert((first + second)[0] == first[0]);
        let term = encode_utf8(first[0]);
        let replacement = term_replacement();
        law_terms_apply_in_order(
            first.drop_first(),
            second,
            replaced_any_case(s, term, replacement),
        );
        law_terms_apply_in_order(
            first.drop_first(),
            second,
            replaced_same_case(s, term, replacement),
        );
    }
}

// Profiles that apply to every text.

/// Two occurrences of `needle` that both stand as words of their own cannot overlap: wherever a
/// proper suffix of it is also a prefix, up to case, a word byte is on one of the edges.
pub open spec fn overlap_free(needle: Seq<u8>) -> bool {
    forall|d: int|
        1 <= d < needle.len() && #[trigger] lowercase(needle).skip(d) == lowercase(needle).take(
            needle.len() - d,
        ) ==> word_byte(needle[d - 1]) || word_byte(needle[needle.len() - d])
}

/// `needle` can be replaced in any text: it is empty, or begins with an ASCII character and never
/// overlaps itself.
pub open spec fn replaceable_everywhere(needle: Seq<u8>) -> bool {
    needle.len() > 0 ==> needle[0] < 0x80 && overlap_free(needle)
}

/// A term that begins with an ASCII character and never overlaps itself can be replaced, in any
/// case, in every text.
pub proof fn law_overlap_free_term_is_replaceable(s: Seq<u8>, needle: Seq<u8>)
    requires
        replaceable_everywhere(needle),
    ensures
        replaceable_any_case(s, needle),
{
    let w = needle.len() as int;
    let low = lowercase(needle);
    assert forall|p: int, q: int| #[trigger]
        any_case_site(s, needle, p) && #[trigger] any_case_site(s, needle, q) && p < q && w
        > 0 implies p + w <= q by {
        if q < p + w {
            let d = q - p;
            assert forall|i: int| 0 <= i < w implies lowercase(s)[p + i] == #[trigger] low[i]
                && lowercase(s)[q + i] == low[i] by {
                assert(lowercase(s).subrange(p, p + w)[i] == low[i]);
                assert(lowercase(s).subrange(q, q + w)[i] == low[i]);
            }
            assert(low.skip(d) =~= low.take(w - d)) by {
                assert forall|i: int| 0 <= i < w - d implies low.skip(d)[i] == #[trigger] low.take(
                    w - d,
                )[i] by {
                    assert(lowercase(s)[p + (d + i)] == low[d + i]);
                    assert(lowercase(s)[q + i] == low[i]);
                }
            }
            assert(low[d - 1] == lowercase(s)[p + (d - 1)]);
            assert(low[w - d] == lowercase(s)[q + (w - d)]);
            assert(ascii_lower(s[q - 1]) == ascii_lower(needle[d - 1]));
            assert(ascii_lower(s[p + w]) == ascii_lower(needle[w - d]));
            assert(false);
        }
    }
}

proof fn lemma_terms_rewritable_everywhere(s: Seq<u8>, terms: Seq<Seq<char>>)
    requires
        forall|k: int|
            0 <= k < terms.len() ==> replaceable_everywhere(encode_utf8(#[trigger] terms[k])),
    ensures
        terms_rewritable(terms, s),
    decreases terms.len(),
{
    if terms.len() > 0 {
        law_overlap_free_term_is_replaceable(s, encode_utf8(terms[0]));
        assert forall|k: int| 0 <= k < terms.drop_first().len() implies replaceable_everywhere(
            encode_utf8(#[trigger] terms.drop_first()[k]),
        ) by {
            assert(terms.drop_first()[k] == terms[k + 1]);
        }
        lemma_terms_rewritable_everywhere(
            replaced_any_case(s, encode_utf8(terms[0]), term_replacement()),
            terms.drop_first(),
        );
    }
}

/// A profile whose terms never overlap themselves rewrites every text.
pub proof fn law_overlap_free_profile_rewrites_every_text(profile: ProfileTerms, s: Seq<u8>)
    requires
        replaceable_everywhere(encode_utf8(profile.doc_file_name)),
        forall|k: int|
            0 <= k < profile.term_variants.len() ==> replaceable_everywhere(
                encode_utf8(#[trigger] profile.term_variants[k]),
            ),
    ensures
        profile.rewritable(s),
{
    law_overlap_free_term_is_replaceable(s, encode_utf8(profile.doc_file_name));
    lemma_terms_rewritable_everywhere(profile.doc_name_rewritten(s), profile.term_variants);
}

} // verus!
