//! The engine's global guarantees, stated and proved once over the
//! specification functions that every public contract uses.
use vstd::prelude::*;

use crate::diff::DiffModel;
use crate::diff::diff_end;
use crate::diff::spans_disjoint;
use crate::matching::all_diffs;
use crate::matching::diffs_separated;
use crate::matching::group_clear_of;
use crate::matching::group_diffs;
use crate::matching::group_match_at;
use crate::matching::min_span;
use crate::matching::occurs_at;
use crate::matching::pats_wf;
use crate::matching::scan_from;
use crate::matching::spec_replaced;

verus! {

/// No-match identity: an input without any occurrence of the pattern
/// sequence passes through byte for byte.
pub proof fn lemma_no_match_identity(input: Seq<u8>, pats: Seq<Seq<u8>>, repl: Seq<u8>)
    requires
        pats_wf(pats),
        forall|i: int| !group_match_at(input, pats, i),
    ensures
        spec_replaced(input, pats, repl) == input,
{
    crate::matching::lemma_scan_no_match(input, pats, repl, 0, Seq::empty());
    let all = all_diffs(input, pats, repl);
    crate::matching::lemma_apply_none(input, all, 0);
    assert(input.subrange(0, input.len() as int) =~= input);
}

/// Soundness and single replacement: every accepted diff removes a
/// genuine occurrence of one of the patterns and adds the replacement,
/// and accepted spans are mutually disjoint, so no byte is replaced
/// twice and no byte outside a removed span is touched.
pub proof fn lemma_replacement_sound(input: Seq<u8>, pats: Seq<Seq<u8>>, repl: Seq<u8>)
    requires
        pats_wf(pats),
    ensures
        diffs_separated(all_diffs(input, pats, repl)),
        forall|m: int|
            0 <= m < all_diffs(input, pats, repl).len() ==> {
                let e = #[trigger] all_diffs(input, pats, repl)[m];
                &&& e.add == repl
                &&& exists|k: int|
                    0 <= k < pats.len() && occurs_at(input, #[trigger] pats[k], e.pos) && e.remove
                        == pats[k].len()
            },
{
    assert(diffs_separated(Seq::<DiffModel>::empty()));
    crate::matching::lemma_scan_separated(input, pats, repl, 0, Seq::empty());
    crate::matching::lemma_scan_new_elems(input, pats, repl, 0, Seq::empty());
}

/// Non-overlap completeness: an occurrence of the pattern sequence whose
/// part spans are clear of those of every other occurrence is replaced in
/// full — each of its part diffs is accepted.
pub proof fn lemma_isolated_occurrence_replaced(
    input: Seq<u8>,
    pats: Seq<Seq<u8>>,
    repl: Seq<u8>,
    i0: int,
)
    requires
        pats_wf(pats),
        group_match_at(input, pats, i0),
        forall|i1: int|
            #[trigger] group_match_at(input, pats, i1) && i1 != i0 ==> group_clear_of(
                group_diffs(input, pats, repl, i1),
                group_diffs(input, pats, repl, i0),
            ),
    ensures
        forall|k: int|
            0 <= k < pats.len() ==> all_diffs(input, pats, repl).contains(
                #[trigger] group_diffs(input, pats, repl, i0)[k],
            ),
{
    crate::matching::lemma_group_props(input, pats, repl, i0);
    lemma_scan_reaches(input, pats, repl, 0, Seq::empty(), i0);
}

/// `e` is a part diff of some occurrence other than the one at `i0`,
/// anchored strictly before `i`.
pub open spec fn from_other_group(
    input: Seq<u8>,
    pats: Seq<Seq<u8>>,
    repl: Seq<u8>,
    i: int,
    i0: int,
    e: DiffModel,
) -> bool {
    exists|i1: int, k: int|
        {
            &&& group_match_at(input, pats, i1)
            &&& i1 < i
            &&& i1 != i0
            &&& 0 <= k < pats.len()
            &&& #[trigger] group_diffs(input, pats, repl, i1)[k] == e
        }
}

/// The scan, started at or before an isolated occurrence with an
/// accumulator drawn from other occurrences only, accepts that
/// occurrence's whole batch.
proof fn lemma_scan_reaches(
    input: Seq<u8>,
    pats: Seq<Seq<u8>>,
    repl: Seq<u8>,
    i: int,
    acc: Seq<DiffModel>,
    i0: int,
)
    requires
        pats_wf(pats),
        group_match_at(input, pats, i0),
        forall|i1: int|
            #[trigger] group_match_at(input, pats, i1) && i1 != i0 ==> group_clear_of(
                group_diffs(input, pats, repl, i1),
                group_diffs(input, pats, repl, i0),
            ),
        0 <= i <= i0,
        forall|m: int|
            0 <= m < acc.len() ==> from_other_group(input, pats, repl, i, i0, #[trigger] acc[m]),
    ensures
        forall|k: int|
            0 <= k < pats.len() ==> scan_from(input, pats, repl, i, acc).contains(
                #[trigger] group_diffs(input, pats, repl, i0)[k],
            ),
    decreases input.len() - i,
{
    crate::matching::lemma_group_props(input, pats, repl, i0);
    assert(i0 + min_span(pats) <= input.len());
    crate::matching::lemma_sum_from_nonneg(pats, 1);
    assert(min_span(pats) >= 1) by {
        assert(crate::matching::sum_from(pats, 0) == pats[0].len()
            + crate::matching::sum_from(pats, 1));
    }
    let g0 = group_diffs(input, pats, repl, i0);
    if i < i0 {
        if group_match_at(input, pats, i) && group_clear_of(
            acc,
            group_diffs(input, pats, repl, i),
        ) {
            let g = group_diffs(input, pats, repl, i);
            crate::matching::lemma_group_props(input, pats, repl, i);
            let step = pats[0].len() as int;
            assert(i + step <= i0) by {
                if i + step > i0 {
                    assert(group_match_at(input, pats, i) && i != i0);
                    assert(group_clear_of(g, g0));
                    assert(g[0].pos == i && g[0].remove == pats[0].len());
                    assert(g0[0].pos == i0 && g0[0].remove == pats[0].len());
                    assert(spans_disjoint(g[0], g0[0]));
                    assert(false);
                }
            }
            assert forall|m: int| 0 <= m < (acc + g).len() implies from_other_group(
                input,
                pats,
                repl,
                i + step,
                i0,
                #[trigger] (acc + g)[m],
            ) by {
                if m < acc.len() {
                    assert((acc + g)[m] == acc[m]);
                    assert(from_other_group(input, pats, repl, i, i0, acc[m]));
                    let (i1, k) = choose|i1: int, k: int|
                        {
                            &&& group_match_at(input, pats, i1)
                            &&& i1 < i
                            &&& i1 != i0
                            &&& 0 <= k < pats.len()
                            &&& #[trigger] group_diffs(input, pats, repl, i1)[k] == acc[m]
                        };
                    assert(group_match_at(input, pats, i1) && i1 < i + step && i1 != i0 && 0 <= k
                        < pats.len() && group_diffs(input, pats, repl, i1)[k] == (acc + g)[m]);
                } else {
                    assert((acc + g)[m] == g[m - acc.len()]);
                    assert(group_match_at(input, pats, i) && i < i + step && i != i0 && 0 <= m
                        - acc.len() < pats.len() && group_diffs(input, pats, repl, i)[m - acc.len()]
                        == (acc + g)[m]);
                }
            }
            lemma_scan_reaches(input, pats, repl, i + step, acc + g, i0);
            assert(scan_from(input, pats, repl, i, acc) == scan_from(
                input,
                pats,
                repl,
                i + step,
                acc + g,
            ));
        } else {
            lemma_scan_reaches(input, pats, repl, i + 1, acc, i0);
            assert(scan_from(input, pats, repl, i, acc) == scan_from(
                input,
                pats,
                repl,
                i + 1,
                acc,
            ));
        }
    } else {
        assert(group_clear_of(acc, g0)) by {
            assert forall|a: int, b: int| 0 <= a < acc.len() && 0 <= b < g0.len() implies spans_disjoint(
                #[trigger] acc[a],
                #[trigger] g0[b],
            ) by {
                assert(from_other_group(input, pats, repl, i, i0, acc[a]));
                let (i1, k) = choose|i1: int, k: int|
                    {
                        &&& group_match_at(input, pats, i1)
                        &&& i1 < i
                        &&& i1 != i0
                        &&& 0 <= k < pats.len()
                        &&& #[trigger] group_diffs(input, pats, repl, i1)[k] == acc[a]
                    };
                assert(group_clear_of(
                    group_diffs(input, pats, repl, i1),
                    group_diffs(input, pats, repl, i0),
                ));
                assert(spans_disjoint(group_diffs(input, pats, repl, i1)[k], g0[b]));
            }
        }
        let step = pats[0].len() as int;
        assert(scan_from(input, pats, repl, i0, acc) == scan_from(
            input,
            pats,
            repl,
            i0 + step,
            acc + g0,
        ));
        crate::matching::lemma_scan_prefix(input, pats, repl, i0 + step, acc + g0);
        assert forall|k: int| 0 <= k < pats.len() implies scan_from(
            input,
            pats,
            repl,
            i,
            acc,
        ).contains(#[trigger] g0[k]) by {
            let r = scan_from(input, pats, repl, i0 + step, acc + g0);
            assert(r[acc.len() + k] == (acc + g0)[acc.len() + k]);
            assert((acc + g0)[acc.len() + k] == g0[k]);
        }
    }
}

} // verus!
