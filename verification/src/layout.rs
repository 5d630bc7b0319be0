//! What a replacement does to a text: which places it changes, and that all else stays.

use vstd::prelude::*;

use crate::reference::retargetable;
use crate::replace::{
    any_case_site, any_case_sites, replaceable_any_case, replaced_any_case, replaced_same_case,
    same_case_sites, spliced,
};
use crate::text::occurs_at;

verus! {

/// `sites` are windows of `width` bytes in a text of length `len`, in ascending order and apart.
pub open spec fn apart(sites: Seq<int>, width: int, len: int) -> bool {
    &&& forall|k: int| 0 <= k < sites.len() ==> 0 <= #[trigger] sites[k] && sites[k] + width <= len
    &&& forall|j: int, k: int|
        0 <= j < k < sites.len() ==> #[trigger] sites[j] + width <= #[trigger] sites[k]
}

/// How far `k` replacements move what comes after them.
pub open spec fn shift(k: int, width: int, replacement: Seq<u8>) -> int {
    k * (replacement.len() - width)
}

/// Byte `i` comes after exactly the first `k` of `sites`, and in none of them.
pub open spec fn between(sites: Seq<int>, width: int, k: int, i: int) -> bool {
    &&& 0 <= k <= sites.len()
    &&& k > 0 ==> sites[k - 1] + width <= i
    &&& k < sites.len() ==> i < sites[k]
}

/// The text `output` is `s` with `sites` replaced: it has the replacement at each site, every
/// other byte of `s` in its order, and nothing else.
pub open spec fn lays_out(
    output: Seq<u8>,
    s: Seq<u8>,
    sites: Seq<int>,
    width: int,
    replacement: Seq<u8>,
) -> bool {
    &&& output.len() == s.len() + shift(sites.len() as int, width, replacement)
    &&& forall|k: int|
        0 <= k < sites.len() ==> occurs_at(
            output,
            replacement,
            #[trigger] sites[k] + shift(k, width, replacement),
        )
    &&& forall|k: int, i: int|
        0 <= i < s.len() && #[trigger] between(sites, width, k, i) ==> {
            &&& 0 <= i + shift(k, width, replacement) < output.len()
            &&& output[i + shift(k, width, replacement)] == s[i]
        }
}

proof fn lemma_shift_step(k: int, width: int, replacement: Seq<u8>)
    ensures
        shift(k, width, replacement) == shift(k - 1, width, replacement) + replacement.len()
            - width,
        shift(0, width, replacement) == 0,
{
    assert(k * (replacement.len() - width) == (k - 1) * (replacement.len() - width) + (
    replacement.len() - width)) by (nonlinear_arith);
    assert(0 * (replacement.len() - width) == 0);
}

/// Splicing replaces the sites and keeps everything else, in its order.
pub proof fn law_splicing_changes_only_sites(
    s: Seq<u8>,
    sites: Seq<int>,
    width: int,
    replacement: Seq<u8>,
)
    requires
        0 <= width,
        apart(sites, width, s.len() as int),
    ensures
        lays_out(spliced(s, sites, width, replacement), s, sites, width, replacement),
    decreases sites.len(),
{
    let output = spliced(s, sites, width, replacement);
    let n = sites.len() as int;
    lemma_shift_step(n, width, replacement);
    if n == 0 {
        assert forall|k: int, i: int|
            0 <= i < s.len() && #[trigger] between(sites, width, k, i) implies 0 <= i + shift(
            k,
            width,
            replacement,
        ) < output.len() && output[i + shift(k, width, replacement)] == s[i] by {
            assert(k == 0);
        }
    } else {
        let at = sites.last();
        let before = sites.drop_last();
        let head = spliced(s.take(at), before, width, replacement);
        assert forall|k: int| 0 <= k < before.len() implies 0 <= #[trigger] before[k] && before[k]
            + width <= at by {
            assert(sites[k] + width <= sites[n - 1]);
        }
        law_splicing_changes_only_sites(s.take(at), before, width, replacement);
        let moved = shift(n - 1, width, replacement);
        assert(head.len() == at + moved);
        assert(output =~= head + replacement + s.skip(at + width));
        assert forall|k: int| 0 <= k < n implies occurs_at(
            output,
            replacement,
            #[trigger] sites[k] + shift(k, width, replacement),
        ) by {
            let p = sites[k] + shift(k, width, replacement);
            if k < n - 1 {
                assert(before[k] == sites[k]);
                assert(occurs_at(head, replacement, p));
                assert(output.subrange(p, p + replacement.len()) =~= head.subrange(
                    p,
                    p + replacement.len(),
                ));
            } else {
                assert(output.subrange(p, p + replacement.len()) =~= replacement);
            }
        }
        assert forall|k: int, i: int|
            0 <= i < s.len() && #[trigger] between(sites, width, k, i) implies 0 <= i + shift(
            k,
            width,
            replacement,
        ) < output.len() && output[i + shift(k, width, replacement)] == s[i] by {
            if k < n {
                assert(sites[k] <= at) by {
                    if k < n - 1 {
                        assert(sites[k] + width <= sites[n - 1]);
                    }
                }
                assert(between(before, width, k, i)) by {
                    if k > 0 {
                        assert(before[k - 1] == sites[k - 1]);
                    }
                    if k < before.len() {
                        assert(before[k] == sites[k]);
                    }
                }
                assert(s.take(at)[i] == s[i]);
            } else {
                assert(s.skip(at + width)[i - at - width] == s[i]);
            }
        }
    }
}

/// A stretch of text that no site touches comes out whole, moved by the sites before it.
pub proof fn law_splicing_keeps_stretches_whole(
    s: Seq<u8>,
    sites: Seq<int>,
    width: int,
    replacement: Seq<u8>,
    k: int,
    from: int,
    to: int,
)
    requires
        0 <= width,
        apart(sites, width, s.len() as int),
        0 <= from < to <= s.len(),
        between(sites, width, k, from),
        k < sites.len() ==> to <= sites[k],
    ensures
        occurs_at(
            spliced(s, sites, width, replacement),
            s.subrange(from, to),
            from + shift(k, width, replacement),
        ),
{
    law_splicing_changes_only_sites(s, sites, width, replacement);
    let output = spliced(s, sites, width, replacement);
    let at = from + shift(k, width, replacement);
    assert forall|i: int| from <= i < to implies output[i + shift(k, width, replacement)]
        == #[trigger] s[i] && 0 <= i + shift(k, width, replacement) < output.len() by {
        assert(between(sites, width, k, i));
    }
    assert(0 <= at && at + (to - from) <= output.len()) by {
        assert(between(sites, width, k, from) && between(sites, width, k, to - 1));
    }
    assert(output.subrange(at, at + (to - from)) =~= s.subrange(from, to)) by {
        assert forall|j: int| 0 <= j < to - from implies output[at + j] == #[trigger] s.subrange(
            from,
            to,
        )[j] by {
            assert(s.subrange(from, to)[j] == s[from + j]);
        }
    }
}

/// The sites of the case-sensitive replacement are apart, and each is a retargetable occurrence.
pub proof fn lemma_same_case_sites(s: Seq<u8>, needle: Seq<u8>, from: int)
    requires
        0 <= from,
    ensures
        apart(same_case_sites(s, needle, from), needle.len() as int, s.len() as int),
        forall|k: int|
            0 <= k < same_case_sites(s, needle, from).len() ==> {
                let at = #[trigger] same_case_sites(s, needle, from)[k];
                from <= at && occurs_at(s, needle, at) && retargetable(s, at, at + needle.len())
            },
    decreases s.len() - from,
{
    let sites = same_case_sites(s, needle, from);
    if needle.len() == 0 || from + needle.len() > s.len() {
    } else if !occurs_at(s, needle, from) {
        lemma_same_case_sites(s, needle, from + 1);
    } else {
        let rest = same_case_sites(s, needle, from + needle.len());
        lemma_same_case_sites(s, needle, from + needle.len());
        if retargetable(s, from, from + needle.len()) {
            assert forall|k: int| 0 <= k < sites.len() implies {
                let at = #[trigger] sites[k];
                &&& from <= at
                &&& occurs_at(s, needle, at)
                &&& retargetable(s, at, at + needle.len())
                &&& k > 0 ==> at == rest[k - 1] && from + needle.len() <= at
            } by {
                if k > 0 {
                    assert(sites[k] == rest[k - 1]);
                }
            }
        }
    }
}

/// A retargetable occurrence is a site unless an occurrence that was read before it overlaps it.
proof fn lemma_same_case_sites_complete(s: Seq<u8>, needle: Seq<u8>, from: int, at: int)
    requires
        0 <= from <= at,
        needle.len() > 0,
        occurs_at(s, needle, at),
        retargetable(s, at, at + needle.len()),
        forall|p: int|
            from <= p < at && at < p + needle.len() ==> !#[trigger] occurs_at(s, needle, p),
    ensures
        same_case_sites(s, needle, from).contains(at),
    decreases s.len() - from,
{
    let sites = same_case_sites(s, needle, from);
    if from == at {
        assert(sites[0] == at);
    } else if !occurs_at(s, needle, from) {
        lemma_same_case_sites_complete(s, needle, from + 1, at);
    } else {
        let rest = same_case_sites(s, needle, from + needle.len());
        lemma_same_case_sites_complete(s, needle, from + needle.len(), at);
        let k = choose|k: int| 0 <= k < rest.len() && rest[k] == at;
        if retargetable(s, from, from + needle.len()) {
            assert(sites[k + 1] == at);
        } else {
            assert(sites[k] == at);
        }
    }
}

/// The case-sensitive replacement changes only retargetable occurrences of the term, each to the
/// replacement, and keeps every other byte in its order. It changes every retargetable occurrence
/// that no other occurrence overlaps.
pub proof fn law_same_case_replacement(s: Seq<u8>, needle: Seq<u8>, replacement: Seq<u8>)
    ensures
        ({
            let sites = same_case_sites(s, needle, 0);
            &&& lays_out(
                replaced_same_case(s, needle, replacement),
                s,
                sites,
                needle.len() as int,
                replacement,
            )
            &&& apart(sites, needle.len() as int, s.len() as int)
            &&& forall|k: int|
                0 <= k < sites.len() ==> occurs_at(s, needle, #[trigger] sites[k]) && retargetable(
                    s,
                    sites[k],
                    sites[k] + needle.len(),
                )
            &&& forall|at: int| #[trigger]
                occurs_at(s, needle, at) && needle.len() > 0 && retargetable(
                    s,
                    at,
                    at + needle.len(),
                ) && (forall|p: int|
                    p < at < p + needle.len() ==> !#[trigger] occurs_at(s, needle, p))
                    ==> sites.contains(at)
        }),
{
    let sites = same_case_sites(s, needle, 0);
    lemma_same_case_sites(s, needle, 0);
    law_splicing_changes_only_sites(s, sites, needle.len() as int, replacement);
    assert forall|at: int| #[trigger]
        occurs_at(s, needle, at) && needle.len() > 0 && retargetable(s, at, at + needle.len()) && (
        forall|p: int|
            p < at < p + needle.len() ==> !#[trigger] occurs_at(s, needle, p)) implies sites.contains(
    at) by {
        lemma_same_case_sites_complete(s, needle, 0, at);
    }
}

/// The sites of the replacement in any case ascend, and are exactly the retargeted places.
pub proof fn lemma_any_case_sites(s: Seq<u8>, needle: Seq<u8>, from: int)
    requires
        0 <= from,
        needle.len() > 0,
    ensures
        ({
            let sites = any_case_sites(s, needle, from);
            &&& forall|k: int|
                0 <= k < sites.len() ==> from <= #[trigger] sites[k] && any_case_site(
                    s,
                    needle,
                    sites[k],
                )
            &&& forall|j: int, k: int|
                0 <= j < k < sites.len() ==> #[trigger] sites[j] < #[trigger] sites[k]
            &&& forall|at: int| #[trigger]
                any_case_site(s, needle, at) && from <= at ==> sites.contains(at)
        }),
    decreases s.len() - from,
{
    let sites = any_case_sites(s, needle, from);
    if from + needle.len() <= s.len() {
        let rest = any_case_sites(s, needle, from + 1);
        lemma_any_case_sites(s, needle, from + 1);
        if any_case_site(s, needle, from) {
            assert forall|k: int| 0 <= k < sites.len() implies from <= #[trigger] sites[k]
                && any_case_site(s, needle, sites[k]) && (k > 0 ==> sites[k] == rest[k - 1] && from
                < sites[k]) by {
                if k > 0 {
                    assert(sites[k] == rest[k - 1]);
                }
            }
            assert forall|at: int| #[trigger]
                any_case_site(s, needle, at) && from <= at implies sites.contains(at) by {
                if at == from {
                    assert(sites[0] == at);
                } else {
                    let k = choose|k: int| 0 <= k < rest.len() && rest[k] == at;
                    assert(sites[k + 1] == at);
                }
            }
        }
    }
}

/// The replacement in any case changes exactly the retargetable occurrences of the term, each to
/// the replacement, and keeps every other byte in its order.
pub proof fn law_any_case_replacement(s: Seq<u8>, needle: Seq<u8>, replacement: Seq<u8>)
    requires
        replaceable_any_case(s, needle),
    ensures
        ({
            let sites = any_case_sites(s, needle, 0);
            &&& lays_out(
                replaced_any_case(s, needle, replacement),
                s,
                sites,
                needle.len() as int,
                replacement,
            )
            &&& apart(sites, needle.len() as int, s.len() as int)
            &&& forall|at: int|
                needle.len() > 0 ==> (#[trigger] any_case_site(s, needle, at) <==> sites.contains(
                    at,
                ))
        }),
{
    let sites = any_case_sites(s, needle, 0);
    if needle.len() > 0 {
        lemma_any_case_sites(s, needle, 0);
    }
    law_splicing_changes_only_sites(s, sites, needle.len() as int, replacement);
}

} // verus!
