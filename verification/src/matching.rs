//! The mathematical account of block-pattern matching.
//!
//! A pattern sequence is a non-empty list of literal byte strings. A group
//! occurrence anchored at position `i` places the first pattern at `i`; each
//! later pattern must sit on the line immediately following the previous
//! part's match end, at the same column as the anchor, and within
//! `COLUMN_MAX` bytes of that part's end. The scanner walks the input left
//! to right, accepts the leftmost group at each point (skipping candidates
//! that would overlap an already accepted span), and advances past the
//! first part of an accepted group, so that overlapping group anchors can
//! still be explored. `scan_from` is the exact account of that walk, and
//! `apply_from` the account of rebuilding the output from input plus diffs.
use vstd::prelude::*;

use crate::diff::DiffModel;
use crate::diff::diff_end;
use crate::diff::spans_disjoint;

verus! {

/// Capacity of the scan buffer; no match may span more bytes.
pub const SEARCH_MAX: usize = 4096;

/// Upper bound on the byte distance between the end of one block part and
/// the start of the next.
pub const COLUMN_MAX: usize = 120;

/// The newline byte that separates lines of a block pattern.
pub const NEWLINE: u8 = 10;

/// Total byte length of the patterns from index `k` on.
pub open spec fn sum_from(pats: Seq<Seq<u8>>, k: int) -> int
    decreases pats.len() - k,
{
    if k < 0 || k >= pats.len() {
        0
    } else {
        pats[k].len() + sum_from(pats, k + 1)
    }
}

/// Smallest total span a group occurrence can occupy: every part followed
/// by a sole newline.
pub open spec fn min_span(pats: Seq<Seq<u8>>) -> int {
    sum_from(pats, 0) + pats.len() - 1
}

/// Largest total span a group occurrence can occupy: every gap between
/// consecutive parts stretched to `COLUMN_MAX`.
pub open spec fn max_span(pats: Seq<Seq<u8>>) -> int {
    sum_from(pats, 0) + (pats.len() - 1) * (COLUMN_MAX as int)
}

/// A usable pattern sequence: non-empty, no empty part, and the largest
/// possible span fits in the scan buffer.
pub open spec fn pats_wf(pats: Seq<Seq<u8>>) -> bool {
    &&& pats.len() >= 1
    &&& forall|k: int| 0 <= k < pats.len() ==> (#[trigger] pats[k]).len() >= 1
    &&& max_span(pats) <= SEARCH_MAX
}

/// The literal `p` occurs in `input` at position `i`.
pub open spec fn occurs_at(input: Seq<u8>, p: Seq<u8>, i: int) -> bool {
    &&& 0 <= i
    &&& i + p.len() <= input.len()
    &&& input.subrange(i, i + p.len()) == p
}

/// Start of the line containing position `i`: the index just past the last
/// newline strictly before `i`, or 0.
pub open spec fn line_start(input: Seq<u8>, i: int) -> int
    decreases i,
{
    if i <= 0 {
        0
    } else if input[i - 1] == NEWLINE {
        i
    } else {
        line_start(input, i - 1)
    }
}

/// Start of the line immediately following position `j`: the index just
/// past the first newline at or after `j`, if any.
pub open spec fn next_line_start(input: Seq<u8>, j: int) -> Option<int>
    decreases input.len() - j,
{
    if j < 0 || j >= input.len() {
        None
    } else if input[j] == NEWLINE {
        Some(j + 1)
    } else {
        next_line_start(input, j + 1)
    }
}

/// The parts `pats[k..]` all match, chained from a previous part that ended
/// at `prev_end`, with alignment column `col`.
pub open spec fn parts_match_from(
    input: Seq<u8>,
    pats: Seq<Seq<u8>>,
    k: int,
    prev_end: int,
    col: int,
) -> bool
    decreases pats.len() - k,
{
    if k >= pats.len() {
        true
    } else {
        match next_line_start(input, prev_end) {
            None => false,
            Some(nls) => {
                let s = nls + col;
                &&& s - prev_end <= COLUMN_MAX
                &&& occurs_at(input, pats[k], s)
                &&& parts_match_from(input, pats, k + 1, s + pats[k].len(), col)
            },
        }
    }
}

/// Start positions of the parts `pats[k..]`, chained as in
/// `parts_match_from`; meaningful only where that predicate holds.
pub open spec fn parts_starts_from(
    input: Seq<u8>,
    pats: Seq<Seq<u8>>,
    k: int,
    prev_end: int,
    col: int,
) -> Seq<int>
    decreases pats.len() - k,
{
    if k >= pats.len() {
        Seq::empty()
    } else {
        match next_line_start(input, prev_end) {
            None => Seq::empty(),
            Some(nls) => {
                let s = nls + col;
                seq![s] + parts_starts_from(input, pats, k + 1, s + pats[k].len(), col)
            },
        }
    }
}

/// A group occurrence of the whole pattern sequence anchored at `i`.
pub open spec fn group_match_at(input: Seq<u8>, pats: Seq<Seq<u8>>, i: int) -> bool {
    &&& pats.len() >= 1
    &&& occurs_at(input, pats[0], i)
    &&& parts_match_from(input, pats, 1, i + pats[0].len(), i - line_start(input, i))
}

/// Start positions of all parts of the group anchored at `i`.
pub open spec fn group_starts(input: Seq<u8>, pats: Seq<Seq<u8>>, i: int) -> Seq<int> {
    seq![i] + parts_starts_from(input, pats, 1, i + pats[0].len(), i - line_start(input, i))
}

/// The batch of diffs an accepted group anchored at `i` contributes: one
/// diff per part, each replaced by `repl` independently.
pub open spec fn group_diffs(input: Seq<u8>, pats: Seq<Seq<u8>>, repl: Seq<u8>, i: int) -> Seq<
    DiffModel,
> {
    Seq::new(
        pats.len(),
        |k: int|
            DiffModel {
                pos: group_starts(input, pats, i)[k],
                remove: pats[k].len() as int,
                add: repl,
            },
    )
}

/// Every span of `g` is disjoint from every span already in `acc`.
pub open spec fn group_clear_of(acc: Seq<DiffModel>, g: Seq<DiffModel>) -> bool {
    forall|a: int, b: int|
        0 <= a < acc.len() && 0 <= b < g.len() ==> spans_disjoint(#[trigger] acc[a], #[trigger] g[b])
}

/// The scanner's walk from position `i`, with `acc` the diffs accepted so
/// far: at each position, a group that matches and does not overlap an
/// accepted span is accepted as a batch and the walk advances past its
/// first part; otherwise the walk advances one byte. It stops as soon as
/// fewer than `min_span` bytes remain.
pub open spec fn scan_from(
    input: Seq<u8>,
    pats: Seq<Seq<u8>>,
    repl: Seq<u8>,
    i: int,
    acc: Seq<DiffModel>,
) -> Seq<DiffModel>
    decreases input.len() - i,
{
    if pats.len() == 0 || i < 0 || i >= input.len() || i + min_span(pats) > input.len() {
        acc
    } else if group_match_at(input, pats, i) && group_clear_of(
        acc,
        group_diffs(input, pats, repl, i),
    ) {
        let step = if pats[0].len() < 1 {
            1
        } else {
            pats[0].len() as int
        };
        scan_from(input, pats, repl, i + step, acc + group_diffs(input, pats, repl, i))
    } else {
        scan_from(input, pats, repl, i + 1, acc)
    }
}

/// All diffs of the whole input, in the order the scanner accepts them.
pub open spec fn all_diffs(input: Seq<u8>, pats: Seq<Seq<u8>>, repl: Seq<u8>) -> Seq<DiffModel> {
    scan_from(input, pats, repl, 0, Seq::empty())
}

/// Some diff of `diffs` removes a span starting exactly at `j`.
pub open spec fn has_diff_at(diffs: Seq<DiffModel>, j: int) -> bool {
    exists|k: int| 0 <= k < diffs.len() && #[trigger] diffs[k].pos == j
}

/// Output reconstruction from position `j` on: bytes of `input` are copied
/// verbatim except that, where a diff starts, its replacement is emitted
/// and the removed span skipped.
pub open spec fn apply_from(input: Seq<u8>, diffs: Seq<DiffModel>, j: int) -> Seq<u8>
    decreases input.len() - j,
{
    if j < 0 || j >= input.len() {
        Seq::empty()
    } else if has_diff_at(diffs, j) {
        let k = choose|k: int| 0 <= k < diffs.len() && #[trigger] diffs[k].pos == j;
        let step = if diffs[k].remove < 1 {
            1
        } else {
            diffs[k].remove
        };
        let next = if j + step > input.len() {
            input.len() as int
        } else {
            j + step
        };
        diffs[k].add + apply_from(input, diffs, next)
    } else {
        seq![input[j]] + apply_from(input, diffs, j + 1)
    }
}

/// The whole engine's answer: the input with every accepted occurrence of
/// the pattern sequence replaced.
pub open spec fn spec_replaced(input: Seq<u8>, pats: Seq<Seq<u8>>, repl: Seq<u8>) -> Seq<u8> {
    apply_from(input, all_diffs(input, pats, repl), 0)
}

/// `line_start` stays within `[0, i]`.
pub proof fn lemma_line_start_bounds(input: Seq<u8>, i: int)
    requires
        0 <= i,
    ensures
        0 <= line_start(input, i) <= i,
    decreases i,
{
    if i > 0 && input[i - 1] != NEWLINE {
        lemma_line_start_bounds(input, i - 1);
    }
}

/// What `next_line_start` says about the bytes it passed over.
pub proof fn lemma_next_line_start_props(input: Seq<u8>, j: int)
    requires
        0 <= j,
    ensures
        match next_line_start(input, j) {
            None => forall|t: int| j <= t < input.len() ==> #[trigger] input[t] != NEWLINE,
            Some(s) => j < s <= input.len() && input[s - 1] == NEWLINE && forall|t: int|
                j <= t < s - 1 ==> #[trigger] input[t] != NEWLINE,
        },
    decreases input.len() - j,
{
    if j < input.len() && input[j] != NEWLINE {
        lemma_next_line_start_props(input, j + 1);
    }
}

/// If no newline occurs in `[j, m)`, the next line start lies past `m`.
pub proof fn lemma_next_line_start_beyond(input: Seq<u8>, j: int, m: int)
    requires
        0 <= j <= m,
        forall|t: int| j <= t < m ==> #[trigger] input[t] != NEWLINE,
    ensures
        match next_line_start(input, j) {
            None => true,
            Some(s) => s > m,
        },
    decreases m - j,
{
    if j == m {
        lemma_next_line_start_props(input, j);
    } else {
        lemma_next_line_start_beyond(input, j + 1, m);
    }
}

/// If `m` holds the first newline at or after `j`, the next line starts at
/// `m + 1`.
pub proof fn lemma_next_line_start_found(input: Seq<u8>, j: int, m: int)
    requires
        0 <= j <= m < input.len(),
        input[m] == NEWLINE,
        forall|t: int| j <= t < m ==> #[trigger] input[t] != NEWLINE,
    ensures
        next_line_start(input, j) == Some(m + 1),
    decreases m - j,
{
    if j < m {
        lemma_next_line_start_found(input, j + 1, m);
    }
}

/// Pattern length sums are nonnegative.
pub proof fn lemma_sum_from_nonneg(pats: Seq<Seq<u8>>, k: int)
    ensures
        sum_from(pats, k) >= 0,
    decreases pats.len() - k,
{
    if 0 <= k < pats.len() {
        lemma_sum_from_nonneg(pats, k + 1);
    }
}

/// Dropping leading patterns cannot increase the length sum.
pub proof fn lemma_sum_from_mono(pats: Seq<Seq<u8>>, k: int, j: int)
    requires
        0 <= k <= j,
    ensures
        sum_from(pats, j) <= sum_from(pats, k),
    decreases j - k,
{
    if k < j && k < pats.len() {
        lemma_sum_from_mono(pats, k + 1, j);
    } else if k < j {
        lemma_sum_from_mono(pats, k + 1, j);
    }
}

/// Facts about a matching chain of parts `pats[k..]`: one start per part;
/// each part occurs at its start; parts follow each other in order with a
/// gap of at least one byte (the newline) and at most `COLUMN_MAX` bytes.
pub proof fn lemma_parts_props(input: Seq<u8>, pats: Seq<Seq<u8>>, k: int, prev_end: int, col: int)
    requires
        1 <= k <= pats.len(),
        0 <= prev_end,
        0 <= col,
        parts_match_from(input, pats, k, prev_end, col),
    ensures
        ({
            let st = parts_starts_from(input, pats, k, prev_end, col);
            &&& st.len() == pats.len() - k
            &&& forall|m: int| 0 <= m < st.len() ==> occurs_at(input, pats[k + m], #[trigger] st[m])
            &&& forall|m: int|
                0 <= m < st.len() ==> #[trigger] st[m] + pats[k + m].len() <= prev_end + (sum_from(
                    pats,
                    k,
                ) - sum_from(pats, k + m + 1)) + (m + 1) * (COLUMN_MAX as int)
            &&& forall|m: int|
                0 <= m < st.len() ==> #[trigger] st[m] + pats[k + m].len() >= prev_end + (sum_from(
                    pats,
                    k,
                ) - sum_from(pats, k + m + 1)) + (m + 1)
            &&& forall|m: int| 0 <= m < st.len() ==> prev_end + 1 <= #[trigger] st[m]
            &&& forall|a: int, b: int|
                0 <= a < b < st.len() ==> #[trigger] st[a] + pats[k + a].len() < #[trigger] st[b]
        }),
    decreases pats.len() - k,
{
    if k == pats.len() {
    } else {
        let nls = next_line_start(input, prev_end)->Some_0;
        let s = nls + col;
        lemma_next_line_start_props(input, prev_end);
        lemma_parts_props(input, pats, k + 1, s + pats[k].len(), col);
        let st = parts_starts_from(input, pats, k, prev_end, col);
        let st1 = parts_starts_from(input, pats, k + 1, s + pats[k].len(), col);
        assert(st == seq![s] + st1);
        assert(st[0] == s);
        assert forall|m: int| 0 < m < st.len() implies #[trigger] st[m] == st1[m - 1] by {}
        assert(sum_from(pats, k) == pats[k].len() + sum_from(pats, k + 1));
        assert forall|m: int| 0 <= m < st.len() implies #[trigger] st[m] + pats[k + m].len()
            <= prev_end + (sum_from(pats, k) - sum_from(pats, k + m + 1)) + (m + 1) * (
        COLUMN_MAX as int) by {
            if m > 0 {
                assert(st1[m - 1] + pats[k + m].len() <= (s + pats[k].len()) + (sum_from(
                    pats,
                    k + 1,
                ) - sum_from(pats, k + m + 1)) + m * (COLUMN_MAX as int));
            }
        }
        assert forall|m: int| 0 <= m < st.len() implies #[trigger] st[m] + pats[k + m].len()
            >= prev_end + (sum_from(pats, k) - sum_from(pats, k + m + 1)) + (m + 1) by {
            if m > 0 {
                assert(st1[m - 1] + pats[k + m].len() >= (s + pats[k].len()) + (sum_from(
                    pats,
                    k + 1,
                ) - sum_from(pats, k + m + 1)) + m);
            }
        }
    }
}

/// Facts about the diff batch of a group occurrence anchored at `i`: one
/// diff per part, positions inside `[i, i + max_span]`, spans inside the
/// input, parts in strictly ascending non-overlapping order, and at least
/// `min_span` bytes available at `i`.
pub proof fn lemma_group_props(input: Seq<u8>, pats: Seq<Seq<u8>>, repl: Seq<u8>, i: int)
    requires
        pats_wf(pats),
        group_match_at(input, pats, i),
    ensures
        ({
            let g = group_diffs(input, pats, repl, i);
            &&& g.len() == pats.len()
            &&& forall|m: int|
                0 <= m < g.len() ==> occurs_at(input, pats[m], (#[trigger] g[m]).pos)
                    && g[m].remove == pats[m].len() && g[m].add == repl
            &&& forall|m: int|
                0 <= m < g.len() ==> i <= (#[trigger] g[m]).pos && diff_end(g[m]) <= i + max_span(
                    pats,
                ) && diff_end(g[m]) <= input.len()
            &&& forall|a: int, b: int|
                0 <= a < b < g.len() ==> diff_end(#[trigger] g[a]) <= (#[trigger] g[b]).pos
            &&& g[0].pos == i
            &&& i + min_span(pats) <= input.len()
        }),
{
    let col = i - line_start(input, i);
    let prev_end = i + pats[0].len();
    lemma_line_start_bounds(input, i);
    lemma_sum_from_nonneg(pats, 0);
    let st1 = parts_starts_from(input, pats, 1, prev_end, col);
    lemma_parts_props(input, pats, 1, prev_end, col);
    let st = group_starts(input, pats, i);
    let g = group_diffs(input, pats, repl, i);
    assert(st == seq![i] + st1);
    assert(st[0] == i);
    assert forall|m: int| 0 < m < st.len() implies #[trigger] st[m] == st1[m - 1] by {}
    assert forall|m: int| 0 <= m < g.len() implies occurs_at(input, pats[m], (#[trigger] g[m]).pos)
        && g[m].remove == pats[m].len() && g[m].add == repl by {
        assert(g[m].pos == st[m]);
    }
    assert(sum_from(pats, 0) == pats[0].len() + sum_from(pats, 1));
    lemma_sum_from_nonneg(pats, 1);
    assert forall|m: int| 0 <= m < g.len() implies i <= (#[trigger] g[m]).pos && diff_end(g[m]) <= i
        + max_span(pats) && diff_end(g[m]) <= input.len() by {
        assert(g[m].pos == st[m]);
        if m == 0 {
            assert(occurs_at(input, pats[0], i));
            assert((pats.len() - 1) * (COLUMN_MAX as int) >= 0);
        }
        if m > 0 {
            lemma_sum_from_nonneg(pats, m + 1);
            assert(st1[m - 1] + pats[m].len() <= prev_end + (sum_from(pats, 1) - sum_from(
                pats,
                m + 1,
            )) + m * (COLUMN_MAX as int));
            assert(m * (COLUMN_MAX as int) <= (pats.len() - 1) * (COLUMN_MAX as int)) by (
            nonlinear_arith)
                requires
                    0 < m <= pats.len() - 1,
            ;
            assert(st1[m - 1] >= prev_end + 1);
        }
        assert(occurs_at(input, pats[m], st[m]));
    }
    assert forall|a: int, b: int| 0 <= a < b < g.len() implies diff_end(#[trigger] g[a]) <= (
    #[trigger] g[b]).pos by {
        assert(g[a].pos == st[a] && g[b].pos == st[b]);
        if a == 0 {
            assert(st1[b - 1] >= prev_end + 1);
        } else {
            assert(st1[a - 1] + pats[a].len() < st1[b - 1]);
        }
    }
    if pats.len() == 1 {
        assert(occurs_at(input, pats[0], i));
    } else {
        let last = pats.len() - 1;
        assert(st1[last - 1] + pats[last].len() >= prev_end + (sum_from(pats, 1) - sum_from(
            pats,
            pats.len() as int,
        )) + last);
        assert(sum_from(pats, pats.len() as int) == 0);
        assert(occurs_at(input, pats[last], st1[last - 1]));
    }
}

/// The already accepted diffs are a prefix of any further scan.
pub proof fn lemma_scan_prefix(
    input: Seq<u8>,
    pats: Seq<Seq<u8>>,
    repl: Seq<u8>,
    i: int,
    acc: Seq<DiffModel>,
)
    ensures
        ({
            let r = scan_from(input, pats, repl, i, acc);
            &&& r.len() >= acc.len()
            &&& forall|m: int| 0 <= m < acc.len() ==> #[trigger] r[m] == acc[m]
        }),
    decreases input.len() - i,
{
    if pats.len() == 0 || i < 0 || i >= input.len() || i + min_span(pats) > input.len() {
    } else if group_match_at(input, pats, i) && group_clear_of(
        acc,
        group_diffs(input, pats, repl, i),
    ) {
        let step = if pats[0].len() < 1 {
            1
        } else {
            pats[0].len() as int
        };
        lemma_scan_prefix(input, pats, repl, i + step, acc + group_diffs(input, pats, repl, i));
    } else {
        lemma_scan_prefix(input, pats, repl, i + 1, acc);
    }
}

/// Every diff the scan adds beyond `acc` lies at or past `i`, replaces one
/// of the patterns by `repl`, and removes a genuine occurrence.
pub proof fn lemma_scan_new_elems(
    input: Seq<u8>,
    pats: Seq<Seq<u8>>,
    repl: Seq<u8>,
    i: int,
    acc: Seq<DiffModel>,
)
    requires
        pats_wf(pats),
    ensures
        ({
            let r = scan_from(input, pats, repl, i, acc);
            forall|m: int|
                acc.len() <= m < r.len() ==> {
                    let e = #[trigger] r[m];
                    &&& e.pos >= i
                    &&& e.add == repl
                    &&& e.remove >= 1
                    &&& diff_end(e) <= input.len()
                    &&& exists|k: int|
                        0 <= k < pats.len() && occurs_at(input, #[trigger] pats[k], e.pos)
                            && e.remove == pats[k].len()
                }
        }),
    decreases input.len() - i,
{
    if pats.len() == 0 || i < 0 || i >= input.len() || i + min_span(pats) > input.len() {
    } else if group_match_at(input, pats, i) && group_clear_of(
        acc,
        group_diffs(input, pats, repl, i),
    ) {
        let step = if pats[0].len() < 1 {
            1
        } else {
            pats[0].len() as int
        };
        let g = group_diffs(input, pats, repl, i);
        lemma_group_props(input, pats, repl, i);
        lemma_scan_new_elems(input, pats, repl, i + step, acc + g);
        let r = scan_from(input, pats, repl, i, acc);
        lemma_scan_prefix(input, pats, repl, i + step, acc + g);
        assert forall|m: int| acc.len() <= m < r.len() implies {
            let e = #[trigger] r[m];
            &&& e.pos >= i
            &&& e.add == repl
            &&& e.remove >= 1
            &&& diff_end(e) <= input.len()
            &&& exists|k: int|
                0 <= k < pats.len() && occurs_at(input, #[trigger] pats[k], e.pos) && e.remove
                    == pats[k].len()
        } by {
            assert(r == scan_from(input, pats, repl, i + step, acc + g));
            if m < acc.len() + g.len() {
                assert(r[m] == (acc + g)[m]);
                assert(r[m] == g[m - acc.len()]);
                let k = m - acc.len();
                assert(occurs_at(input, pats[k], g[k].pos) && g[k].remove == pats[k].len());
            } else {
                assert(r[m] == scan_from(input, pats, repl, i + step, acc + g)[m]);
                let e = r[m];
                let k = choose|k: int|
                    0 <= k < pats.len() && occurs_at(input, #[trigger] pats[k], e.pos) && e.remove
                        == pats[k].len();
                assert(occurs_at(input, pats[k], e.pos));
            }
        }
    } else {
        lemma_scan_new_elems(input, pats, repl, i + 1, acc);
        assert(scan_from(input, pats, repl, i, acc) == scan_from(input, pats, repl, i + 1, acc));
    }
}

/// Scanning preserves mutual disjointness of the accepted spans.
pub proof fn lemma_scan_separated(
    input: Seq<u8>,
    pats: Seq<Seq<u8>>,
    repl: Seq<u8>,
    i: int,
    acc: Seq<DiffModel>,
)
    requires
        pats_wf(pats),
        diffs_separated(acc),
    ensures
        diffs_separated(scan_from(input, pats, repl, i, acc)),
    decreases input.len() - i,
{
    if pats.len() == 0 || i < 0 || i >= input.len() || i + min_span(pats) > input.len() {
    } else if group_match_at(input, pats, i) && group_clear_of(
        acc,
        group_diffs(input, pats, repl, i),
    ) {
        let step = if pats[0].len() < 1 {
            1
        } else {
            pats[0].len() as int
        };
        let g = group_diffs(input, pats, repl, i);
        lemma_group_props(input, pats, repl, i);
        assert(diffs_separated(acc + g)) by {
            assert forall|a: int, b: int|
                0 <= a < (acc + g).len() && 0 <= b < (acc + g).len() && a != b implies spans_disjoint(
                #[trigger] (acc + g)[a],
                #[trigger] (acc + g)[b],
            ) by {
                let n = acc.len();
                if a < n && b < n {
                } else if a < n {
                    assert((acc + g)[b] == g[b - n]);
                    assert(spans_disjoint(acc[a], g[b - n]));
                } else if b < n {
                    assert((acc + g)[a] == g[a - n]);
                    assert(spans_disjoint(acc[b], g[a - n]));
                } else {
                    let x = a - n;
                    let y = b - n;
                    if x < y {
                        assert(diff_end(g[x]) <= g[y].pos);
                    } else {
                        assert(diff_end(g[y]) <= g[x].pos);
                    }
                }
            }
            assert forall|a: int| 0 <= a < (acc + g).len() implies (#[trigger] (acc + g)[a]).remove
                >= 1 by {
                if a >= acc.len() {
                    assert((acc + g)[a] == g[a - acc.len()]);
                }
            }
        }
        lemma_scan_separated(input, pats, repl, i + step, acc + g);
    } else {
        lemma_scan_separated(input, pats, repl, i + 1, acc);
    }
}

/// Where no diff starts inside `[j, p)`, the output between those points
/// is a verbatim copy.
pub proof fn lemma_apply_copy(input: Seq<u8>, diffs: Seq<DiffModel>, j: int, p: int)
    requires
        0 <= j <= p <= input.len(),
        forall|k: int| 0 <= k < diffs.len() ==> !(j <= (#[trigger] diffs[k]).pos < p),
    ensures
        apply_from(input, diffs, j) == input.subrange(j, p) + apply_from(input, diffs, p),
    decreases p - j,
{
    if j == p {
        assert(input.subrange(j, p) + apply_from(input, diffs, p) =~= apply_from(input, diffs, j));
    } else {
        assert(!has_diff_at(diffs, j));
        lemma_apply_copy(input, diffs, j + 1, p);
        assert(apply_from(input, diffs, j) == seq![input[j]] + apply_from(input, diffs, j + 1));
        assert(seq![input[j]] + (input.subrange(j + 1, p) + apply_from(input, diffs, p))
            =~= input.subrange(j, p) + apply_from(input, diffs, p));
    }
}

/// At the start of a removed span, the output continues with the diff's
/// replacement and skips the span.
pub proof fn lemma_apply_at(input: Seq<u8>, diffs: Seq<DiffModel>, n: int, j: int)
    requires
        diffs_separated(diffs),
        0 <= n < diffs.len(),
        diffs[n].pos == j,
        0 <= j,
        j + diffs[n].remove <= input.len(),
    ensures
        apply_from(input, diffs, j) == diffs[n].add + apply_from(input, diffs, j + diffs[n].remove),
{
    assert(has_diff_at(diffs, j));
    let k = choose|k: int| 0 <= k < diffs.len() && #[trigger] diffs[k].pos == j;
    if k != n {
        assert(spans_disjoint(diffs[k], diffs[n]));
        assert(false);
    }
}

/// Where no diff starts at or past `j`, the rest of the output is a
/// verbatim copy of the rest of the input.
pub proof fn lemma_apply_none(input: Seq<u8>, diffs: Seq<DiffModel>, j: int)
    requires
        0 <= j <= input.len(),
        forall|k: int| 0 <= k < diffs.len() ==> (#[trigger] diffs[k]).pos < j,
    ensures
        apply_from(input, diffs, j) == input.subrange(j, input.len() as int),
{
    lemma_apply_copy(input, diffs, j, input.len() as int);
    assert(input.subrange(j, input.len() as int) + apply_from(input, diffs, input.len() as int)
        =~= input.subrange(j, input.len() as int));
}

/// A scan over an input without any group occurrence accepts nothing.
pub proof fn lemma_scan_no_match(
    input: Seq<u8>,
    pats: Seq<Seq<u8>>,
    repl: Seq<u8>,
    i: int,
    acc: Seq<DiffModel>,
)
    requires
        forall|t: int| !group_match_at(input, pats, t),
    ensures
        scan_from(input, pats, repl, i, acc) == acc,
    decreases input.len() - i,
{
    if pats.len() == 0 || i < 0 || i >= input.len() || i + min_span(pats) > input.len() {
    } else {
        assert(!group_match_at(input, pats, i));
        lemma_scan_no_match(input, pats, repl, i + 1, acc);
    }
}

/// All spans in `diffs` are mutually disjoint and remove at least one byte.
pub open spec fn diffs_separated(diffs: Seq<DiffModel>) -> bool {
    &&& forall|a: int, b: int|
        0 <= a < diffs.len() && 0 <= b < diffs.len() && a != b ==> spans_disjoint(
            #[trigger] diffs[a],
            #[trigger] diffs[b],
        )
    &&& forall|a: int| 0 <= a < diffs.len() ==> (#[trigger] diffs[a]).remove >= 1
}

} // verus!
