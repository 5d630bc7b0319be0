//! What comes out of a replacement and of a rewriting, byte by byte and term by term.

use vstd::prelude::*;
use vstd::string::*;
use vstd::utf8::*;

use crate::layout::{
    apart, between, law_any_case_replacement, law_same_case_replacement, lays_out,
    lemma_any_case_sites, shift,
};
use crate::profile::{
    case_sensitive_terms_rewritten, doc_replacement, term_replacement, terms_rewritable,
    terms_rewritten, texts, ProfileTerms,
};
use crate::reference::retargetable;
use crate::replace::{
    any_case_site, any_case_sites, occurs_any_case, replaceable_any_case, replaced_any_case,
    replaced_same_case, same_case_sites, spliced,
};
use crate::text::occurs_at;

verus! {

// One term.

/// A text laid out with `sites` replaced, byte by byte.
proof fn lemma_laid_out(
    output: Seq<u8>,
    s: Seq<u8>,
    sites: Seq<int>,
    width: int,
    replacement: Seq<u8>,
)
    requires
        lays_out(output, s, sites, width, replacement),
        apart(sites, width, s.len() as int),
    ensures
        output.len() == s.len() + sites.len() * (replacement.len() - width),
        forall|k: int, j: int|
            0 <= k < sites.len() && 0 <= j < replacement.len() ==> output[#[trigger] sites[k] + k * (
            replacement.len() - width) + j] == #[trigger] replacement[j],
{
    assert forall|k: int, j: int|
        0 <= k < sites.len() && 0 <= j < replacement.len() implies output[#[trigger] sites[k] + k * (
    replacement.len() - width) + j] == #[trigger] replacement[j] by {
        let at = sites[k] + shift(k, width, replacement);
        assert(occurs_at(output, replacement, at));
        assert(output.subrange(at, at + replacement.len())[j] == output[at + j]);
    }
}

/// The replacement in any case, byte by byte. The places that change are those where the term
/// occurs in any case and is retargetable. Each of them holds the replacement in the output, moved
/// by as much as the replacements before it are longer than the term.
pub proof fn law_any_case_replacement_in_full(s: Seq<u8>, needle: Seq<u8>, replacement: Seq<u8>)
    requires
        replaceable_any_case(s, needle),
        needle.len() > 0,
    ensures
        ({
            let sites = any_case_sites(s, needle, 0);
            let output = replaced_any_case(s, needle, replacement);
            let growth = replacement.len() - needle.len();
            &&& forall|at: int|
                sites.contains(at) <==> #[trigger] occurs_any_case(s, needle, at) && retargetable(
                    s,
                    at,
                    at + needle.len(),
                )
            &&& forall|j: int, k: int|
                0 <= j < k < sites.len() ==> #[trigger] sites[j] + needle.len()
                    <= #[trigger] sites[k]
            &&& output.len() == s.len() + sites.len() * growth
            &&& forall|k: int, j: int|
                0 <= k < sites.len() && 0 <= j < replacement.len() ==> output[#[trigger] sites[k] + k
                    * growth + j] == #[trigger] replacement[j]
        }),
{
    let sites = any_case_sites(s, needle, 0);
    let output = replaced_any_case(s, needle, replacement);
    law_any_case_replacement(s, needle, replacement);
    lemma_laid_out(output, s, sites, needle.len() as int, replacement);
    assert forall|at: int|
        sites.contains(at) <==> #[trigger] occurs_any_case(s, needle, at) && retargetable(
            s,
            at,
            at + needle.len(),
        ) by {
        assert(any_case_site(s, needle, at) <==> sites.contains(at));
    }
}

/// What stands after `k` of the places that change in any case, and before the others, is
/// kept, moved by as much as those replacements are longer than the term.
pub proof fn law_any_case_replacement_keeps_the_rest(
    s: Seq<u8>,
    needle: Seq<u8>,
    replacement: Seq<u8>,
    k: int,
    i: int,
)
    requires
        replaceable_any_case(s, needle),
        0 <= i < s.len(),
        0 <= k <= any_case_sites(s, needle, 0).len(),
        k > 0 ==> any_case_sites(s, needle, 0)[k - 1] + needle.len() <= i,
        k < any_case_sites(s, needle, 0).len() ==> i < any_case_sites(s, needle, 0)[k],
    ensures
        ({
            let output = replaced_any_case(s, needle, replacement);
            let growth = replacement.len() - needle.len();
            0 <= i + k * growth < output.len() && output[i + k * growth] == s[i]
        }),
{
    law_any_case_replacement(s, needle, replacement);
    assert(between(any_case_sites(s, needle, 0), needle.len() as int, k, i));
    assert(shift(k, needle.len() as int, replacement) == k * (replacement.len() - needle.len()));
}

/// The occurrences of `needle` in `s` from `from` on that are met when reading from left to right
/// and going on after each.
pub open spec fn occurrences_read(s: Seq<u8>, needle: Seq<u8>, from: int) -> Seq<int>
    decreases s.len() - from,
{
    if needle.len() == 0 || from + needle.len() > s.len() {
        Seq::empty()
    } else if occurs_at(s, needle, from) {
        seq![from] + occurrences_read(s, needle, from + needle.len())
    } else {
        occurrences_read(s, needle, from + 1)
    }
}

proof fn lemma_occurrences_read(s: Seq<u8>, needle: Seq<u8>, from: int)
    requires
        0 <= from,
        needle.len() > 0,
    ensures
        ({
            let read = occurrences_read(s, needle, from);
            &&& forall|k: int|
                0 <= k < read.len() ==> from <= #[trigger] read[k] && occurs_at(s, needle, read[k])
            &&& forall|j: int, k: int|
                0 <= j < k < read.len() ==> #[trigger] read[j] + needle.len() <= #[trigger] read[k]
        }),
    decreases s.len() - from,
{
    let read = occurrences_read(s, needle, from);
    if from + needle.len() <= s.len() {
        if occurs_at(s, needle, from) {
            let next = from + needle.len();
            let rest = occurrences_read(s, needle, next);
            lemma_occurrences_read(s, needle, next);
            assert forall|k: int| 0 <= k < read.len() implies from <= #[trigger] read[k]
                && occurs_at(s, needle, read[k]) && (k > 0 ==> read[k] == rest[k - 1] && next
                <= read[k]) by {
                if k > 0 {
                    assert(read[k] == rest[k - 1]);
                }
            }
            assert forall|j: int, k: int| 0 <= j < k < read.len() implies #[trigger] read[j]
                + needle.len() <= #[trigger] read[k] by {
                if j > 0 {
                    assert(rest[j - 1] + needle.len() <= rest[k - 1]);
                }
            }
        } else {
            let rest = occurrences_read(s, needle, from + 1);
            lemma_occurrences_read(s, needle, from + 1);
            assert(read == rest);
            assert forall|k: int| 0 <= k < read.len() implies from <= #[trigger] read[k]
                && occurs_at(s, needle, read[k]) by {
                assert(from + 1 <= rest[k]);
            }
        }
    }
}

/// An occurrence begins in one that is read.
proof fn lemma_occurrence_in_read(s: Seq<u8>, needle: Seq<u8>, from: int, at: int)
    requires
        0 <= from <= at,
        needle.len() > 0,
        occurs_at(s, needle, at),
    ensures
        ({
            let read = occurrences_read(s, needle, from);
            exists|k: int| 0 <= k < read.len() && #[trigger] read[k] <= at < read[k] + needle.len()
        }),
    decreases at - from,
{
    let read = occurrences_read(s, needle, from);
    if occurs_at(s, needle, from) {
        let next = from + needle.len();
        assert(read[0] == from);
        if at >= next {
            let rest = occurrences_read(s, needle, next);
            lemma_occurrence_in_read(s, needle, next, at);
            let k = choose|k: int|
                0 <= k < rest.len() && #[trigger] rest[k] <= at < rest[k] + needle.len();
            assert(read[k + 1] == rest[k]);
        }
    } else {
        lemma_occurrence_in_read(s, needle, from + 1, at);
    }
}

proof fn lemma_in_front(first: int, rest: Seq<int>, at: int)
    ensures
        (seq![first] + rest).contains(at) <==> at == first || rest.contains(at),
{
    let all = seq![first] + rest;
    if at == first {
        assert(all[0] == at);
    }
    if rest.contains(at) {
        let k = choose|k: int| 0 <= k < rest.len() && rest[k] == at;
        assert(all[k + 1] == at);
    }
    if all.contains(at) && at != first {
        let k = choose|k: int| 0 <= k < all.len() && all[k] == at;
        assert(rest[k - 1] == at);
    }
}

/// The places that change are those that are read and retargetable.
proof fn lemma_sites_are_read(s: Seq<u8>, needle: Seq<u8>, from: int, at: int)
    requires
        0 <= from,
        needle.len() > 0,
    ensures
        same_case_sites(s, needle, from).contains(at) <==> occurrences_read(
            s,
            needle,
            from,
        ).contains(at) && retargetable(s, at, at + needle.len()),
    decreases s.len() - from,
{
    if from + needle.len() <= s.len() {
        if occurs_at(s, needle, from) {
            let next = from + needle.len();
            lemma_sites_are_read(s, needle, next, at);
            lemma_in_front(from, occurrences_read(s, needle, next), at);
            lemma_in_front(from, same_case_sites(s, needle, next), at);
        } else {
            lemma_sites_are_read(s, needle, from + 1, at);
        }
    }
}

/// The case-sensitive replacement, byte by byte. Occurrences are read from left to right: those
/// that are read do not overlap, and every other occurrence begins inside one that is read. Those
/// that are read and retargetable change. Each of them holds the replacement in the output, moved by
/// as much as the replacements before it are longer than the term.
pub proof fn law_same_case_replacement_in_full(s: Seq<u8>, needle: Seq<u8>, replacement: Seq<u8>)
    requires
        needle.len() > 0,
    ensures
        ({
            let read = occurrences_read(s, needle, 0);
            let sites = same_case_sites(s, needle, 0);
            let output = replaced_same_case(s, needle, replacement);
            let growth = replacement.len() - needle.len();
            &&& forall|k: int| 0 <= k < read.len() ==> occurs_at(s, needle, #[trigger] read[k])
            &&& forall|j: int, k: int|
                0 <= j < k < read.len() ==> #[trigger] read[j] + needle.len() <= #[trigger] read[k]
            &&& forall|at: int| #[trigger]
                occurs_at(s, needle, at) ==> exists|k: int|
                    0 <= k < read.len() && #[trigger] read[k] <= at < read[k] + needle.len()
            &&& forall|at: int|
                sites.contains(at) <==> #[trigger] read.contains(at) && retargetable(
                    s,
                    at,
                    at + needle.len(),
                )
            &&& forall|j: int, k: int|
                0 <= j < k < sites.len() ==> #[trigger] sites[j] + needle.len()
                    <= #[trigger] sites[k]
            &&& output.len() == s.len() + sites.len() * growth
            &&& forall|k: int, j: int|
                0 <= k < sites.len() && 0 <= j < replacement.len() ==> output[#[trigger] sites[k] + k
                    * growth + j] == #[trigger] replacement[j]
        }),
{
    let read = occurrences_read(s, needle, 0);
    let sites = same_case_sites(s, needle, 0);
    lemma_occurrences_read(s, needle, 0);
    assert forall|at: int| #[trigger] occurs_at(s, needle, at) implies exists|k: int|
        0 <= k < read.len() && #[trigger] read[k] <= at < read[k] + needle.len() by {
        lemma_occurrence_in_read(s, needle, 0, at);
    }
    assert forall|at: int|
        sites.contains(at) <==> #[trigger] read.contains(at) && retargetable(
            s,
            at,
            at + needle.len(),
        ) by {
        lemma_sites_are_read(s, needle, 0, at);
    }
    law_same_case_replacement(s, needle, replacement);
    lemma_laid_out(
        replaced_same_case(s, needle, replacement),
        s,
        sites,
        needle.len() as int,
        replacement,
    );
}

/// What stands after `k` of the places that change as they are written, and before the others, is
/// kept, moved by as much as those replacements are longer than the term.
pub proof fn law_same_case_replacement_keeps_the_rest(
    s: Seq<u8>,
    needle: Seq<u8>,
    replacement: Seq<u8>,
    k: int,
    i: int,
)
    requires
        0 <= i < s.len(),
        0 <= k <= same_case_sites(s, needle, 0).len(),
        k > 0 ==> same_case_sites(s, needle, 0)[k - 1] + needle.len() <= i,
        k < same_case_sites(s, needle, 0).len() ==> i < same_case_sites(s, needle, 0)[k],
    ensures
        ({
            let output = replaced_same_case(s, needle, replacement);
            let growth = replacement.len() - needle.len();
            0 <= i + k * growth < output.len() && output[i + k * growth] == s[i]
        }),
{
    law_same_case_replacement(s, needle, replacement);
    assert(between(same_case_sites(s, needle, 0), needle.len() as int, k, i));
    assert(shift(k, needle.len() as int, replacement) == k * (replacement.len() - needle.len()));
}

/// An empty term changes nothing, and can always be replaced.
pub proof fn law_empty_term_changes_nothing(s: Seq<u8>, replacement: Seq<u8>)
    ensures
        replaced_any_case(s, Seq::empty(), replacement) == s,
        replaced_same_case(s, Seq::empty(), replacement) == s,
        replaceable_any_case(s, Seq::empty()),
{
}

/// A term cannot be replaced in any case exactly where it occurs and begins outside ASCII, or where
/// two retargetable occurrences overlap.
pub proof fn law_not_replaceable(s: Seq<u8>, needle: Seq<u8>)
    requires
        needle.len() > 0,
    ensures
        !replaceable_any_case(s, needle) <==> {
            ||| needle[0] >= 0x80 && exists|at: int| #[trigger] occurs_any_case(s, needle, at)
            ||| exists|p: int, q: int|
                #![trigger occurs_any_case(s, needle, p), occurs_any_case(s, needle, q)]
                p < q < p + needle.len() && occurs_any_case(s, needle, p) && occurs_any_case(
                    s,
                    needle,
                    q,
                ) && retargetable(s, p, p + needle.len()) && retargetable(s, q, q + needle.len())
        },
{
    if exists|p: int, q: int|
        #![trigger occurs_any_case(s, needle, p), occurs_any_case(s, needle, q)]
        p < q < p + needle.len() && occurs_any_case(s, needle, p) && occurs_any_case(s, needle, q)
            && retargetable(s, p, p + needle.len()) && retargetable(s, q, q + needle.len()) {
        let (p, q) = choose|p: int, q: int|
            #![trigger occurs_any_case(s, needle, p), occurs_any_case(s, needle, q)]
            p < q < p + needle.len() && occurs_any_case(s, needle, p) && occurs_any_case(
                s,
                needle,
                q,
            ) && retargetable(s, p, p + needle.len()) && retargetable(s, q, q + needle.len());
        assert(any_case_site(s, needle, p) && any_case_site(s, needle, q));
    }
    if !replaceable_any_case(s, needle) && !(needle[0] >= 0x80 && exists|at: int| #[trigger]
        occurs_any_case(s, needle, at)) {
        let (p, q) = choose|p: int, q: int|
            #[trigger] any_case_site(s, needle, p) && #[trigger] any_case_site(s, needle, q) && p
                < q && q < p + needle.len();
        assert(occurs_any_case(s, needle, p) && occurs_any_case(s, needle, q));
    }
}

/// Where a term occurs once in any case, and is retargetable there, the output is the text before
/// it, the replacement, and the text after it.
pub proof fn law_only_occurrence_in_any_case_changes(
    s: Seq<u8>,
    needle: Seq<u8>,
    replacement: Seq<u8>,
    at: int,
)
    requires
        needle.len() > 0,
        occurs_any_case(s, needle, at),
        retargetable(s, at, at + needle.len()),
        forall|other: int| #[trigger] occurs_any_case(s, needle, other) ==> other == at,
    ensures
        replaced_any_case(s, needle, replacement) == s.take(at) + replacement + s.skip(
            at + needle.len(),
        ),
{
    lemma_any_case_sites(s, needle, 0);
    let sites = any_case_sites(s, needle, 0);
    assert(any_case_site(s, needle, at));
    assert forall|k: int| 0 <= k < sites.len() implies #[trigger] sites[k] == at by {
        assert(any_case_site(s, needle, sites[k]));
    }
    assert(sites.len() == 1) by {
        assert(sites.contains(at));
        if sites.len() > 1 {
            assert(sites[0] < sites[1]);
        }
    }
    assert(sites.drop_last() =~= Seq::empty());
    assert(spliced(s.take(at), Seq::empty(), needle.len() as int, replacement) == s.take(at));
}

/// Where a term occurs once as it is written, and is retargetable there, the output is the text
/// before it, the replacement, and the text after it.
pub proof fn law_only_occurrence_in_same_case_changes(
    s: Seq<u8>,
    needle: Seq<u8>,
    replacement: Seq<u8>,
    at: int,
)
    requires
        needle.len() > 0,
        occurs_at(s, needle, at),
        retargetable(s, at, at + needle.len()),
        forall|other: int| #[trigger] occurs_at(s, needle, other) ==> other == at,
    ensures
        replaced_same_case(s, needle, replacement) == s.take(at) + replacement + s.skip(
            at + needle.len(),
        ),
{
    law_same_case_replacement(s, needle, replacement);
    let sites = same_case_sites(s, needle, 0);
    assert(sites.contains(at)) by {
        assert(forall|p: int| p < at < p + needle.len() ==> !#[trigger] occurs_at(s, needle, p));
    }
    assert forall|k: int| 0 <= k < sites.len() implies #[trigger] sites[k] == at by {
        assert(occurs_at(s, needle, sites[k]));
    }
    assert(sites.len() == 1) by {
        if sites.len() > 1 {
            assert(sites[0] + needle.len() <= sites[1]);
        }
    }
    assert(sites.drop_last() =~= Seq::empty());
    assert(spliced(s.take(at), Seq::empty(), needle.len() as int, replacement) == s.take(at));
}

// Profiles.

/// Documentation names become `AGENTS.md`, and product terms `Codex`.
pub proof fn law_replacement_bytes()
    ensures
        doc_replacement() == seq![0x41u8, 0x47, 0x45, 0x4e, 0x54, 0x53, 0x2e, 0x6d, 0x64],
        term_replacement() == seq![0x43u8, 0x6f, 0x64, 0x65, 0x78],
{
    reveal_strlit("AGENTS.md");
    reveal_strlit("Codex");
    is_ascii_chars_encode_utf8("AGENTS.md"@);
    is_ascii_chars_encode_utf8("Codex"@);
}

/// The texts of terms are those of each term, in their order.
pub proof fn law_texts(terms: Seq<&'static str>)
    ensures
        texts(terms).len() == terms.len(),
        forall|i: int| 0 <= i < terms.len() ==> #[trigger] texts(terms)[i] == terms[i]@,
{
}

/// Without product terms, only the documentation name is rewritten.
pub proof fn law_rewriting_by_doc_name(doc_file_name: Seq<char>, s: Seq<u8>)
    ensures
        ({
            let profile = ProfileTerms {
                doc_file_name,
                term_variants: Seq::empty(),
                case_sensitive_term_variants: Seq::empty(),
            };
            &&& profile.rewritten(s) == replaced_any_case(
                s,
                encode_utf8(doc_file_name),
                seq![0x41u8, 0x47, 0x45, 0x4e, 0x54, 0x53, 0x2e, 0x6d, 0x64],
            )
            &&& profile.rewritable(s) == replaceable_any_case(s, encode_utf8(doc_file_name))
        }),
{
    law_replacement_bytes();
}

proof fn lemma_one_more_term(terms: Seq<Seq<char>>, term: Seq<char>, s: Seq<u8>)
    ensures
        terms_rewritten(terms.push(term), s) == replaced_any_case(
            terms_rewritten(terms, s),
            encode_utf8(term),
            term_replacement(),
        ),
        terms_rewritable(terms.push(term), s) <==> terms_rewritable(terms, s)
            && replaceable_any_case(terms_rewritten(terms, s), encode_utf8(term)),
    decreases terms.len(),
{
    let longer = terms.push(term);
    if terms.len() == 0 {
        assert(longer.drop_first() =~= Seq::empty());
        assert(longer[0] == term);
        let next = replaced_any_case(s, encode_utf8(term), term_replacement());
        assert(terms_rewritten(Seq::empty(), next) == next);
        assert(terms_rewritable(Seq::empty(), next));
    } else {
        assert(longer.drop_first() =~= terms.drop_first().push(term));
        assert(longer[0] == terms[0]);
        lemma_one_more_term(
            terms.drop_first(),
            term,
            replaced_any_case(s, encode_utf8(terms[0]), term_replacement()),
        );
    }
}

/// One more product term is rewritten in any case, to `Codex`, after those before it.
pub proof fn law_rewriting_by_one_more_term(
    doc_file_name: Seq<char>,
    terms: Seq<Seq<char>>,
    term: Seq<char>,
    s: Seq<u8>,
)
    ensures
        ({
            let profile = ProfileTerms {
                doc_file_name,
                term_variants: terms,
                case_sensitive_term_variants: Seq::empty(),
            };
            let longer = ProfileTerms { term_variants: terms.push(term), ..profile };
            &&& longer.rewritten(s) == replaced_any_case(
                profile.rewritten(s),
                encode_utf8(term),
                seq![0x43u8, 0x6f, 0x64, 0x65, 0x78],
            )
            &&& longer.rewritable(s) <==> profile.rewritable(s) && replaceable_any_case(
                profile.rewritten(s),
                encode_utf8(term),
            )
        }),
{
    law_replacement_bytes();
    let profile = ProfileTerms {
        doc_file_name,
        term_variants: terms,
        case_sensitive_term_variants: Seq::empty(),
    };
    lemma_one_more_term(terms, term, profile.doc_name_rewritten(s));
}

proof fn lemma_one_more_case_sensitive_term(terms: Seq<Seq<char>>, term: Seq<char>, s: Seq<u8>)
    ensures
        case_sensitive_terms_rewritten(terms.push(term), s) == replaced_same_case(
            case_sensitive_terms_rewritten(terms, s),
            encode_utf8(term),
            term_replacement(),
        ),
    decreases terms.len(),
{
    let longer = terms.push(term);
    if terms.len() == 0 {
        assert(longer.drop_first() =~= Seq::empty());
        assert(longer[0] == term);
        let next = replaced_same_case(s, encode_utf8(term), term_replacement());
        assert(case_sensitive_terms_rewritten(Seq::empty(), next) == next);
    } else {
        assert(longer.drop_first() =~= terms.drop_first().push(term));
        assert(longer[0] == terms[0]);
        lemma_one_more_case_sensitive_term(
            terms.drop_first(),
            term,
            replaced_same_case(s, encode_utf8(terms[0]), term_replacement()),
        );
    }
}

/// One more case-sensitive product term is rewritten as it is written, to `Codex`, after everything
/// else, and texts can be rewritten as before.
pub proof fn law_rewriting_by_one_more_case_sensitive_term(
    doc_file_name: Seq<char>,
    terms: Seq<Seq<char>>,
    case_sensitive_terms: Seq<Seq<char>>,
    term: Seq<char>,
    s: Seq<u8>,
)
    ensures
        ({
            let profile = ProfileTerms {
                doc_file_name,
                term_variants: terms,
                case_sensitive_term_variants: case_sensitive_terms,
            };
            let longer = ProfileTerms {
                case_sensitive_term_variants: case_sensitive_terms.push(term),
                ..profile
            };
            &&& longer.rewritten(s) == replaced_same_case(
                profile.rewritten(s),
                encode_utf8(term),
                seq![0x43u8, 0x6f, 0x64, 0x65, 0x78],
            )
            &&& longer.rewritable(s) == profile.rewritable(s)
        }),
{
    law_replacement_bytes();
    let profile = ProfileTerms {
        doc_file_name,
        term_variants: terms,
        case_sensitive_term_variants: case_sensitive_terms,
    };
    lemma_one_more_case_sensitive_term(
        case_sensitive_terms,
        term,
        terms_rewritten(terms, profile.doc_name_rewritten(s)),
    );
}

} // verus!
