//! Replacing the retargetable matches of one term, with and without regard to ASCII case.
//!
//! Contracts speak of texts by their UTF-8 bytes. Texts with the same bytes are the same, so a
//! contract over the bytes of a result fixes the result.

use vstd::prelude::*;
use vstd::string::*;
use vstd::utf8::*;

use crate::reference::{is_retargetable_match, retargetable};
use crate::text::{
    find_from, lemma_encode_concat, lemma_match_boundaries, lowercase, occurs_at, text_range,
    to_lowercase,
};

verus! {

/// `s` with the `width` bytes at each of `sites` (in ascending order) replaced.
pub open spec fn spliced(s: Seq<u8>, sites: Seq<int>, width: int, replacement: Seq<u8>) -> Seq<u8>
    decreases sites.len(),
{
    if sites.len() == 0 {
        s
    } else {
        let at = sites.last();
        spliced(s.take(at), sites.drop_last(), width, replacement) + replacement + s.skip(
            at + width,
        )
    }
}

/// The retargeted places of `needle` in `s` from `from` on, case and all. Occurrences are read
/// from left to right and do not overlap; those that are not retargetable are passed over whole.
pub open spec fn same_case_sites(s: Seq<u8>, needle: Seq<u8>, from: int) -> Seq<int>
    decreases s.len() - from,
{
    if needle.len() == 0 || from + needle.len() > s.len() {
        Seq::empty()
    } else if !occurs_at(s, needle, from) {
        same_case_sites(s, needle, from + 1)
    } else if retargetable(s, from, from + needle.len()) {
        seq![from] + same_case_sites(s, needle, from + needle.len())
    } else {
        same_case_sites(s, needle, from + needle.len())
    }
}

/// `s` with `needle`, case and all, retargeted to `replacement`.
pub open spec fn replaced_same_case(
    s: Seq<u8>,
    needle: Seq<u8>,
    replacement: Seq<u8>,
) -> Seq<u8> {
    spliced(s, same_case_sites(s, needle, 0), needle.len() as int, replacement)
}

/// `needle` occurs in `s` at `at` up to ASCII case.
pub open spec fn occurs_any_case(s: Seq<u8>, needle: Seq<u8>, at: int) -> bool {
    occurs_at(lowercase(s), lowercase(needle), at)
}

/// `needle`, in any case, is retargeted in `s` at `at`.
pub open spec fn any_case_site(s: Seq<u8>, needle: Seq<u8>, at: int) -> bool {
    occurs_any_case(s, needle, at) && retargetable(s, at, at + needle.len())
}

/// All places from `from` on where `needle`, in any case, is retargeted in `s`.
pub open spec fn any_case_sites(s: Seq<u8>, needle: Seq<u8>, from: int) -> Seq<int>
    decreases s.len() - from,
{
    if needle.len() == 0 || from + needle.len() > s.len() {
        Seq::empty()
    } else if any_case_site(s, needle, from) {
        seq![from] + any_case_sites(s, needle, from + 1)
    } else {
        any_case_sites(s, needle, from + 1)
    }
}

/// `s` with `needle`, in any case, retargeted to `replacement`.
pub open spec fn replaced_any_case(
    s: Seq<u8>,
    needle: Seq<u8>,
    replacement: Seq<u8>,
) -> Seq<u8> {
    spliced(s, any_case_sites(s, needle, 0), needle.len() as int, replacement)
}

/// Replacing `needle` in any case is well defined on `s`: no two retargeted places overlap, and
/// the search, which goes on one byte after the start of each occurrence, goes on at a character.
pub open spec fn replaceable_any_case(s: Seq<u8>, needle: Seq<u8>) -> bool {
    needle.len() > 0 ==> {
        &&& forall|at: int| #[trigger] occurs_any_case(s, needle, at) ==> needle[0] < 0x80
        &&& forall|p: int, q: int|
            #[trigger] any_case_site(s, needle, p) && #[trigger] any_case_site(s, needle, q) && p
                < q ==> p + needle.len() <= q
    }
}

/// More text after the last site only adds to the end.
pub proof fn lemma_spliced_extend(
    s: Seq<u8>,
    sites: Seq<int>,
    width: int,
    replacement: Seq<u8>,
    from: int,
    to: int,
)
    requires
        0 <= from <= to <= s.len(),
        0 <= width,
        sites.len() > 0 ==> 0 <= sites.last() && sites.last() + width <= from,
    ensures
        spliced(s.take(to), sites, width, replacement) == spliced(
            s.take(from),
            sites,
            width,
            replacement,
        ) + s.subrange(from, to),
{
    if sites.len() == 0 {
        assert(s.take(to) =~= s.take(from) + s.subrange(from, to));
    } else {
        let at = sites.last();
        assert(s.take(to).take(at) =~= s.take(at));
        assert(s.take(from).take(at) =~= s.take(at));
        assert(s.take(to).skip(at + width) =~= s.take(from).skip(at + width) + s.subrange(
            from,
            to,
        ));
        let head = spliced(s.take(at), sites.drop_last(), width, replacement) + replacement;
        assert(head + (s.take(from).skip(at + width) + s.subrange(from, to)) =~= head + s.take(
            from,
        ).skip(at + width) + s.subrange(from, to));
    }
}

/// A further site adds its replacement to the end.
proof fn lemma_spliced_push(
    s: Seq<u8>,
    sites: Seq<int>,
    width: int,
    replacement: Seq<u8>,
    at: int,
)
    requires
        0 <= at,
        0 <= width,
        at + width <= s.len(),
    ensures
        spliced(s.take(at + width), sites.push(at), width, replacement) == spliced(
            s.take(at),
            sites,
            width,
            replacement,
        ) + replacement,
{
    assert(sites.push(at).drop_last() =~= sites);
    assert(s.take(at + width).take(at) =~= s.take(at));
    assert(s.take(at + width).skip(at + width) =~= Seq::<u8>::empty());
    let head = spliced(s.take(at), sites, width, replacement) + replacement;
    assert(head + Seq::<u8>::empty() =~= head);
}

/// Places without an occurrence add no site.
proof fn lemma_same_case_sites_skip(s: Seq<u8>, needle: Seq<u8>, from: int, to: int)
    requires
        0 <= from <= to,
        forall|i: int| from <= i < to ==> !#[trigger] occurs_at(s, needle, i),
    ensures
        same_case_sites(s, needle, from) == same_case_sites(s, needle, to),
    decreases to - from,
{
    if from < to {
        assert(!occurs_at(s, needle, from));
        lemma_same_case_sites_skip(s, needle, from + 1, to);
    }
}

/// Places without an occurrence add no site.
pub proof fn lemma_any_case_sites_skip(s: Seq<u8>, needle: Seq<u8>, from: int, to: int)
    requires
        0 <= from <= to,
        forall|i: int| from <= i < to ==> !#[trigger] any_case_site(s, needle, i),
    ensures
        any_case_sites(s, needle, from) == any_case_sites(s, needle, to),
    decreases to - from,
{
    if from < to {
        assert(!any_case_site(s, needle, from));
        lemma_any_case_sites_skip(s, needle, from + 1, to);
    }
}

/// Text that occurs in other text also occurs in it up to case.
pub proof fn lemma_occurs_any_case(s: Seq<u8>, needle: Seq<u8>, at: int)
    requires
        occurs_at(s, needle, at),
    ensures
        occurs_any_case(s, needle, at),
{
    let found = s.subrange(at, at + needle.len());
    assert(lowercase(s).subrange(at, at + needle.len()) =~= lowercase(found));
}

/// Replaces every retargetable occurrence of `needle`, case and all, by `replacement`.
pub fn replace_with_boundaries(input: &str, needle: &str, replacement: &str) -> (result: String)
    ensures
        encode_utf8(result@) == replaced_same_case(
            encode_utf8(input@),
            encode_utf8(needle@),
            encode_utf8(replacement@),
        ),
{
    broadcast use encode_utf8_valid_utf8;

    let ghost s = encode_utf8(input@);
    let ghost n = encode_utf8(needle@);
    let ghost r = encode_utf8(replacement@);
    let ghost w = n.len() as int;
    let bytes: &[u8] = input.as_bytes();
    let needle_bytes: &[u8] = needle.as_bytes();
    if needle_bytes.len() == 0 {
        return input.to_owned();
    }
    let mut output: String = String::new();
    let mut last_emitted: usize = 0;
    let mut search_start: usize = 0;
    let ghost mut done: Seq<int> = Seq::empty();
    proof {
        is_char_boundary_start_end_of_seq(s);
        assert(done + same_case_sites(s, n, 0) =~= same_case_sites(s, n, 0));
        assert(s.take(0) =~= encode_utf8(output@));
    }
    loop
        invariant
            s == encode_utf8(input@),
            n == encode_utf8(needle@),
            r == encode_utf8(replacement@),
            valid_utf8(s),
            valid_utf8(n),
            bytes@ == s,
            needle_bytes@ == n,
            w == n.len(),
            w > 0,
            last_emitted <= search_start <= bytes.len(),
            is_char_boundary(s, last_emitted as int),
            done.len() == 0 ==> last_emitted == 0,
            done.len() > 0 ==> 0 <= done.last() && last_emitted == done.last() + w,
            done + same_case_sites(s, n, search_start as int) == same_case_sites(s, n, 0),
            encode_utf8(output@) == spliced(s.take(last_emitted as int), done, w, r),
        ensures
            forall|i: int| search_start <= i ==> !#[trigger] occurs_at(s, n, i),
        decreases bytes@.len() - search_start,
    {
        let start: usize = match find_from(bytes, needle_bytes, search_start) {
            Some(at) => at,
            None => break,
        };
        let end: usize = start + needle_bytes.len();
        proof {
            lemma_occurs_any_case(s, n, start as int);
            lemma_match_boundaries(s, n, start as int);
            lemma_same_case_sites_skip(s, n, search_start as int, start as int);
        }
        if is_retargetable_match(bytes, start, end) {
            let kept: &str = text_range(input, last_emitted, start);
            proof {
                lemma_encode_concat(output@, kept@);
                lemma_encode_concat(output@ + kept@, replacement@);
                lemma_spliced_extend(s, done, w, r, last_emitted as int, start as int);
                lemma_spliced_push(s, done, w, r, start as int);
                assert(done.push(start as int) + same_case_sites(s, n, end as int) =~= done + (seq![
                    start as int,
                ] + same_case_sites(s, n, end as int)));
                done = done.push(start as int);
            }
            output.append(kept);
            output.append(replacement);
            last_emitted = end;
        }
        search_start = end;
    }
    proof {
        lemma_same_case_sites_skip(s, n, search_start as int, s.len() as int);
        assert(done + Seq::<int>::empty() =~= done);
        assert(s.take(s.len() as int) =~= s);
        lemma_spliced_extend(s, done, w, r, last_emitted as int, s.len() as int);
    }
    if last_emitted == 0 {
        return input.to_owned();
    }
    let rest: &str = text_range(input, last_emitted, bytes.len());
    proof {
        lemma_encode_concat(output@, rest@);
    }
    output.append(rest);
    output
}

/// Replaces every retargetable occurrence of `needle`, in any ASCII case, by `replacement`. The
/// result is `None` where two such occurrences overlap, and where `needle` begins outside ASCII and
/// occurs at all.
pub fn try_replace_case_insensitive_with_boundaries(
    input: &str,
    needle: &str,
    replacement: &str,
) -> (result: Option<String>)
    ensures
        result is Some <==> replaceable_any_case(encode_utf8(input@), encode_utf8(needle@)),
        result matches Some(text) ==> encode_utf8(text@) == replaced_any_case(
            encode_utf8(input@),
            encode_utf8(needle@),
            encode_utf8(replacement@),
        ),
{
    broadcast use encode_utf8_valid_utf8;

    let ghost s = encode_utf8(input@);
    let ghost n = encode_utf8(needle@);
    let ghost r = encode_utf8(replacement@);
    let ghost w = n.len() as int;
    let bytes: &[u8] = input.as_bytes();
    let needle_bytes: &[u8] = needle.as_bytes();
    if needle_bytes.len() == 0 {
        return Some(input.to_owned());
    }
    let needle_lower: Vec<u8> = to_lowercase(needle_bytes);
    let haystack_lower: Vec<u8> = to_lowercase(bytes);
    let mut output: String = String::new();
    let mut last_emitted: usize = 0;
    let mut search_start: usize = 0;
    let ghost mut done: Seq<int> = Seq::empty();
    proof {
        is_char_boundary_start_end_of_seq(s);
        assert(done + any_case_sites(s, n, 0) =~= any_case_sites(s, n, 0));
        assert(s.take(0) =~= encode_utf8(output@));
    }
    loop
        invariant
            s == encode_utf8(input@),
            n == encode_utf8(needle@),
            r == encode_utf8(replacement@),
            valid_utf8(s),
            valid_utf8(n),
            bytes@ == s,
            needle_bytes@ == n,
            haystack_lower@ == lowercase(s),
            needle_lower@ == lowercase(n),
            w == n.len(),
            w > 0,
            last_emitted <= bytes.len(),
            search_start <= bytes.len(),
            is_char_boundary(s, last_emitted as int),
            done.len() == 0 ==> last_emitted == 0,
            done.len() > 0 ==> 0 <= done.last() < search_start && last_emitted == done.last() + w
                && any_case_site(s, n, done.last()),
            done + any_case_sites(s, n, search_start as int) == any_case_sites(s, n, 0),
            encode_utf8(output@) == spliced(s.take(last_emitted as int), done, w, r),
            forall|p: int| #[trigger]
                any_case_site(s, n, p) && p < search_start ==> p + w <= last_emitted,
            forall|p: int, q: int| #[trigger]
                any_case_site(s, n, p) && #[trigger] any_case_site(s, n, q) && p < q < search_start
                    ==> p + w <= q,
            forall|at: int| #[trigger]
                occurs_any_case(s, n, at) && at < search_start ==> n[0] < 0x80,
        ensures
            forall|i: int| search_start <= i ==> !#[trigger] occurs_any_case(s, n, i),
        decreases bytes@.len() - search_start,
    {
        let start: usize = match find_from(
            haystack_lower.as_slice(),
            needle_lower.as_slice(),
            search_start,
        ) {
            Some(at) => at,
            None => break,
        };
        let end: usize = start + needle_bytes.len();
        assert(occurs_any_case(s, n, start as int));
        if needle_bytes[0] >= 0x80 {
            return None;
        }
        proof {
            lemma_match_boundaries(s, n, start as int);
            assert forall|i: int| search_start <= i < start implies !#[trigger] any_case_site(
                s,
                n,
                i,
            ) && !occurs_any_case(s, n, i) by {
                assert(!occurs_at(haystack_lower@, needle_lower@, i));
            }
            lemma_any_case_sites_skip(s, n, search_start as int, start as int);
        }
        if is_retargetable_match(bytes, start, end) {
            assert(any_case_site(s, n, start as int));
            if start < last_emitted {
                return None;
            }
            let kept: &str = text_range(input, last_emitted, start);
            proof {
                lemma_encode_concat(output@, kept@);
                lemma_encode_concat(output@ + kept@, replacement@);
                lemma_spliced_extend(s, done, w, r, last_emitted as int, start as int);
                lemma_spliced_push(s, done, w, r, start as int);
                assert(done.push(start as int) + any_case_sites(s, n, start + 1) =~= done + (seq![
                    start as int,
                ] + any_case_sites(s, n, start + 1)));
                done = done.push(start as int);
            }
            output.append(kept);
            output.append(replacement);
            last_emitted = end;
        }
        search_start = start + 1;
    }
    proof {
        assert forall|i: int| search_start <= i implies !#[trigger] any_case_site(s, n, i) by {
            assert(!occurs_any_case(s, n, i));
        }
        lemma_any_case_sites_skip(s, n, search_start as int, s.len() as int);
        assert(done + Seq::<int>::empty() =~= done);
        assert(s.take(s.len() as int) =~= s);
        lemma_spliced_extend(s, done, w, r, last_emitted as int, s.len() as int);
    }
    if last_emitted == 0 {
        return Some(input.to_owned());
    }
    let rest: &str = text_range(input, last_emitted, bytes.len());
    proof {
        lemma_encode_concat(output@, rest@);
    }
    output.append(rest);
    Some(output)
}

/// Replaces every retargetable occurrence of `needle`, in any ASCII case, by `replacement`. A
/// `needle` that begins in ASCII and never overlaps itself is replaceable in every text.
pub fn replace_case_insensitive_with_boundaries(
    input: &str,
    needle: &str,
    replacement: &str,
) -> (result: String)
    requires
        replaceable_any_case(encode_utf8(input@), encode_utf8(needle@)),
    ensures
        encode_utf8(result@) == replaced_any_case(
            encode_utf8(input@),
            encode_utf8(needle@),
            encode_utf8(replacement@),
        ),
{
    try_replace_case_insensitive_with_boundaries(input, needle, replacement).unwrap()
}

} // verus!
