//! What one source agent calls things, and how text written for it is rewritten.

use vstd::prelude::*;
use vstd::utf8::*;

use crate::replace::{
    replace_with_boundaries, replaceable_any_case, replaced_any_case, replaced_same_case,
    try_replace_case_insensitive_with_boundaries,
};

verus! {

/// The terms of a profile as plain text.
#[verifier::ext_equal]
pub struct ProfileTerms {
    /// The name of the documentation file, in any case.
    pub doc_file_name: Seq<char>,
    /// The product terms, in any case.
    pub term_variants: Seq<Seq<char>>,
    /// The product terms that only count in the case they are written in.
    pub case_sensitive_term_variants: Seq<Seq<char>>,
}

/// What documentation names become, as bytes.
pub open spec fn doc_replacement() -> Seq<u8> {
    encode_utf8("AGENTS.md"@)
}

/// What product terms become, as bytes.
pub open spec fn term_replacement() -> Seq<u8> {
    encode_utf8("Codex"@)
}

/// `s` with each of `terms`, one after the other and in any case, retargeted.
pub open spec fn terms_rewritten(terms: Seq<Seq<char>>, s: Seq<u8>) -> Seq<u8>
    decreases terms.len(),
{
    if terms.len() == 0 {
        s
    } else {
        terms_rewritten(
            terms.drop_first(),
            replaced_any_case(s, encode_utf8(terms[0]), term_replacement()),
        )
    }
}

/// Retargeting `terms` one after the other, in any case, is well defined at each step.
pub open spec fn terms_rewritable(terms: Seq<Seq<char>>, s: Seq<u8>) -> bool
    decreases terms.len(),
{
    terms.len() > 0 ==> {
        &&& replaceable_any_case(s, encode_utf8(terms[0]))
        &&& terms_rewritable(
            terms.drop_first(),
            replaced_any_case(s, encode_utf8(terms[0]), term_replacement()),
        )
    }
}

/// `s` with each of `terms`, one after the other and in the case they are written in, retargeted.
pub open spec fn case_sensitive_terms_rewritten(terms: Seq<Seq<char>>, s: Seq<u8>) -> Seq<u8>
    decreases terms.len(),
{
    if terms.len() == 0 {
        s
    } else {
        case_sensitive_terms_rewritten(
            terms.drop_first(),
            replaced_same_case(s, encode_utf8(terms[0]), term_replacement()),
        )
    }
}

impl ProfileTerms {
    /// `s` with the documentation name retargeted.
    pub open spec fn doc_name_rewritten(self, s: Seq<u8>) -> Seq<u8> {
        replaced_any_case(s, encode_utf8(self.doc_file_name), doc_replacement())
    }

    /// `s` rewritten: first the documentation name, then the product terms in any case, then those
    /// that count only as written.
    pub open spec fn rewritten(self, s: Seq<u8>) -> Seq<u8> {
        case_sensitive_terms_rewritten(
            self.case_sensitive_term_variants,
            terms_rewritten(self.term_variants, self.doc_name_rewritten(s)),
        )
    }

    /// Rewriting `s` is well defined at each step that goes by any case.
    pub open spec fn rewritable(self, s: Seq<u8>) -> bool {
        &&& replaceable_any_case(s, encode_utf8(self.doc_file_name))
        &&& terms_rewritable(self.term_variants, self.doc_name_rewritten(s))
    }
}

/// The text of each of `terms`.
pub open spec fn texts(terms: Seq<&'static str>) -> Seq<Seq<char>> {
    Seq::new(terms.len(), |i: int| terms[i]@)
}

/// Describes source-specific terms that should be rewritten in migrated artifacts.
#[derive(Clone, Copy)]
pub struct RewriteProfile {
    doc_file_name: &'static str,
    term_variants: &'static [&'static str],
    case_sensitive_term_variants: &'static [&'static str],
}

impl View for RewriteProfile {
    type V = ProfileTerms;

    closed spec fn view(&self) -> ProfileTerms {
        ProfileTerms {
            doc_file_name: self.doc_file_name@,
            term_variants: texts(self.term_variants@),
            case_sensitive_term_variants: texts(self.case_sensitive_term_variants@),
        }
    }
}

impl RewriteProfile {
    /// A profile for a documentation name and product terms that count in any case.
    pub fn new(doc_file_name: &'static str, term_variants: &'static [&'static str]) -> (result:
        Self)
        ensures
            result@ == (ProfileTerms {
                doc_file_name: doc_file_name@,
                term_variants: texts(term_variants@),
                case_sensitive_term_variants: Seq::empty(),
            }),
    {
        let result = Self { doc_file_name, term_variants, case_sensitive_term_variants: &[] };
        assert(texts(result.case_sensitive_term_variants@) =~= Seq::empty());
        result
    }

    /// The profile with its case-sensitive product terms set to `term_variants`.
    pub fn with_case_sensitive_term_variants(
        self,
        term_variants: &'static [&'static str],
    ) -> (result: Self)
        ensures
            result@ == (ProfileTerms {
                case_sensitive_term_variants: texts(term_variants@),
                ..self@
            }),
    {
        Self { case_sensitive_term_variants: term_variants, ..self }
    }

    /// The documentation name.
    pub fn doc_file_name(self) -> (result: &'static str)
        ensures
            result@ == self@.doc_file_name,
    {
        self.doc_file_name
    }

    /// The product terms that count in any case.
    pub fn term_variants(self) -> (result: &'static [&'static str])
        ensures
            texts(result@) == self@.term_variants,
    {
        self.term_variants
    }

    /// The product terms that count only in the case they are written in.
    pub fn case_sensitive_term_variants(self) -> (result: &'static [&'static str])
        ensures
            texts(result@) == self@.case_sensitive_term_variants,
    {
        self.case_sensitive_term_variants
    }

    /// Rewrites source-specific documentation names and product terms to their Codex forms. The
    /// result is `None` where two occurrences of a term that counts in any case would be rewritten
    /// and overlap, and where such a term occurs and begins outside ASCII.
    pub fn try_rewrite(self, content: &str) -> (result: Option<String>)
        ensures
            result is Some <==> self@.rewritable(encode_utf8(content@)),
            result matches Some(text) ==> encode_utf8(text@) == self@.rewritten(
                encode_utf8(content@),
            ),
    {
        let ghost s = encode_utf8(content@);
        let ghost terms = self@.term_variants;
        let ghost case_sensitive_terms = self@.case_sensitive_term_variants;
        let mut rewritten: String = match try_replace_case_insensitive_with_boundaries(
            content,
            self.doc_file_name,
            "AGENTS.md",
        ) {
            Some(text) => text,
            None => return None,
        };
        let mut i: usize = 0;
        assert(terms.skip(0) =~= terms);
        while i < self.term_variants.len()
            invariant
                i <= self.term_variants@.len(),
                terms == texts(self.term_variants@),
                terms_rewritten(terms.skip(i as int), encode_utf8(rewritten@)) == terms_rewritten(
                    terms,
                    self@.doc_name_rewritten(s),
                ),
                terms_rewritable(terms.skip(i as int), encode_utf8(rewritten@))
                    == terms_rewritable(terms, self@.doc_name_rewritten(s)),
                replaceable_any_case(s, encode_utf8(self@.doc_file_name)),
                self@.term_variants == terms,
                s == encode_utf8(content@),
            decreases self.term_variants@.len() - i,
        {
            proof {
                assert(terms.skip(i as int)[0] == self.term_variants@[i as int]@);
                assert(terms.skip(i as int).drop_first() =~= terms.skip(i + 1));
            }
            rewritten =
            match try_replace_case_insensitive_with_boundaries(
                rewritten.as_str(),
                self.term_variants[i],
                "Codex",
            ) {
                Some(text) => text,
                None => return None,
            };
            i += 1;
        }
        let ghost folded = encode_utf8(rewritten@);
        i = 0;
        assert(case_sensitive_terms.skip(0) =~= case_sensitive_terms);
        while i < self.case_sensitive_term_variants.len()
            invariant
                i <= self.case_sensitive_term_variants@.len(),
                case_sensitive_terms == texts(self.case_sensitive_term_variants@),
                case_sensitive_terms_rewritten(
                    case_sensitive_terms.skip(i as int),
                    encode_utf8(rewritten@),
                ) == case_sensitive_terms_rewritten(case_sensitive_terms, folded),
            decreases self.case_sensitive_term_variants@.len() - i,
        {
            proof {
                let left = case_sensitive_terms.skip(i as int);
                assert(left[0] == self.case_sensitive_term_variants@[i as int]@);
                assert(left.drop_first() =~= case_sensitive_terms.skip(i + 1));
            }
            rewritten =
            replace_with_boundaries(
                rewritten.as_str(),
                self.case_sensitive_term_variants[i],
                "Codex",
            );
            i += 1;
        }
        Some(rewritten)
    }

    /// Rewrites source-specific documentation names and product terms to their Codex forms.
    ///
    /// A profile whose terms begin in ASCII and never overlap themselves rewrites every text; for
    /// any other, [`try_rewrite`](Self::try_rewrite) tells whether a text can be rewritten.
    pub fn rewrite(self, content: &str) -> (result: String)
        requires
            self@.rewritable(encode_utf8(content@)),
        ensures
            encode_utf8(result@) == self@.rewritten(encode_utf8(content@)),
    {
        self.try_rewrite(content).unwrap()
    }
}

} // verus!
