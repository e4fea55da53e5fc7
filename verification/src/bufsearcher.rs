//! The bounded-memory sliding-window scanner.
//!
//! `BufSearcher` reads the leading tee cursor exactly once, front to back,
//! keeps at most `SEARCH_MAX` bytes buffered, and yields every accepted
//! occurrence of the pattern sequence as `Diff` records in strictly
//! ascending, non-overlapping position order. Its behaviour is specified
//! against the `matching` module: the set of diffs it hands out is exactly
//! `all_diffs` of the underlying byte sequence.
use vstd::prelude::*;

use vstd::multiset::Multiset;

use crate::diff::Diff;
use crate::diff::DiffModel;
use crate::diff::diff_end;
use crate::diff::spans_disjoint;
use crate::diffheap::DiffHeap;
use crate::error::Error;
use crate::matching::COLUMN_MAX;
use crate::matching::NEWLINE;
use crate::matching::SEARCH_MAX;
use crate::matching::all_diffs;
use crate::matching::diffs_separated;
use crate::matching::group_clear_of;
use crate::matching::group_diffs;
use crate::matching::group_match_at;
use crate::matching::line_start;
use crate::matching::max_span;
use crate::matching::min_span;
use crate::matching::occurs_at;
use crate::matching::parts_match_from;
use crate::matching::pats_wf;
use crate::matching::scan_from;
use crate::matching::sum_from;
use crate::teereader::TeeReader;

verus! {

/// The sliding-window scanner over one byte stream.
pub struct BufSearcher {
    patterns: Vec<Vec<u8>>,
    replacement: Vec<u8>,
    /// Absolute offset of buffer index 0 in the stream.
    pos: usize,
    /// Fixed-capacity window; only `[drop_head, read_head)` is meaningful.
    buf: Vec<u8>,
    /// Bytes of the buffer filled from the stream.
    read_head: usize,
    /// Bytes of the buffer already matched or rejected.
    drop_head: usize,
    /// Bytes between the current scan position and the start of its line,
    /// tracked incrementally so no backward re-scan is ever needed.
    last_line_start: usize,
    /// Accepted diffs not yet handed to the consumer, keyed by position.
    ready: DiffHeap,
    /// Spans `(pos, end)` of every accepted diff, in acceptance order; a
    /// candidate group overlapping one of them is skipped.
    spans: Vec<(usize, usize)>,
    /// All accepted diffs, in acceptance order.
    g_emitted: Ghost<Seq<DiffModel>>,
    /// Diffs already handed to the consumer, in ascending position order.
    g_delivered: Ghost<Seq<DiffModel>>,
    /// End of the last delivered span; 0 before the first delivery.
    g_out: Ghost<int>,
}

impl BufSearcher {
    /// The pattern sequence, as byte sequences.
    pub closed spec fn pats(&self) -> Seq<Seq<u8>> {
        self.patterns@.map_values(|p: Vec<u8>| p@)
    }

    /// The replacement bytes.
    pub closed spec fn repl(&self) -> Seq<u8> {
        self.replacement@
    }

    /// All diffs accepted so far, in acceptance order.
    pub closed spec fn emitted(&self) -> Seq<DiffModel> {
        self.g_emitted@
    }

    /// Diffs handed to the consumer so far, in ascending position order.
    pub closed spec fn delivered(&self) -> Seq<DiffModel> {
        self.g_delivered@
    }

    /// First stream offset not yet covered by a delivered span.
    pub closed spec fn out_frontier(&self) -> int {
        self.g_out@
    }

    /// Current absolute scan position.
    pub closed spec fn scan_pos(&self) -> int {
        self.pos + self.drop_head
    }

    /// Bytes of the stream consumed by the scanner's read cursor.
    pub closed spec fn src_read(&self) -> int {
        self.pos + self.read_head
    }

    /// Facts the invariant gives every caller: the patterns are usable and
    /// the scanner's positions lie inside the stream.
    pub proof fn lemma_wf_public_facts(&self, input: Seq<u8>)
        requires
            self.wf(input),
        ensures
            pats_wf(self.pats()),
            0 <= self.scan_pos() <= self.src_read() <= input.len(),
            self.out_frontier() >= 0,
            sorted_spans(self.delivered()),
            self.out_frontier() == if self.delivered().len() == 0 {
                0int
            } else {
                diff_end(self.delivered().last())
            },
    {
    }

    /// The buffer-window half of the invariant: the meaningful slice of
    /// the buffer mirrors the stream, and the column tracker is exact.
    pub closed spec fn wf_window(&self, input: Seq<u8>) -> bool {
        let cur = self.pos + self.drop_head;
        &&& pats_wf(self.pats())
        &&& self.buf@.len() == SEARCH_MAX
        &&& self.drop_head <= self.read_head <= SEARCH_MAX
        &&& self.pos + self.read_head <= input.len()
        &&& input.len() <= usize::MAX
        &&& self.buf@.subrange(self.drop_head as int, self.read_head as int) == input.subrange(
            cur as int,
            self.pos + self.read_head,
        )
        &&& self.last_line_start == cur - line_start(input, cur as int)
    }

    /// The scanner's invariant over the underlying byte sequence `input`.
    pub closed spec fn wf(&self, input: Seq<u8>) -> bool {
        let cur = self.pos + self.drop_head;
        &&& self.wf_window(input)
        &&& all_diffs(input, self.pats(), self.repl()) == scan_from(
            input,
            self.pats(),
            self.repl(),
            cur as int,
            self.g_emitted@,
        )
        &&& diffs_separated(self.g_emitted@)
        &&& self.g_emitted@.to_multiset() == self.g_delivered@.to_multiset().add(self.ready@)
        &&& sorted_spans(self.g_delivered@)
        &&& self.g_out@ == if self.g_delivered@.len() == 0 {
            0
        } else {
            diff_end(self.g_delivered@.last())
        }
        &&& self.g_out@ >= 0
        &&& forall|e: DiffModel| self.ready@.contains(e) ==> e.pos >= self.g_out@
        &&& forall|m: int|
            0 <= m < self.g_emitted@.len() ==> diff_end(#[trigger] self.g_emitted@[m]) <= self.pos
                + self.read_head
        &&& self.spans@.len() == self.g_emitted@.len()
        &&& forall|m: int|
            0 <= m < self.spans@.len() ==> (#[trigger] self.spans@[m]).0
                == self.g_emitted@[m].pos && self.spans@[m].1 == diff_end(self.g_emitted@[m])
        &&& (forall|m: int|
            0 <= m < self.g_delivered@.len() ==> (#[trigger] self.g_delivered@[m]).pos < self.pos
                + self.drop_head) || all_diffs(input, self.pats(), self.repl()) == self.g_emitted@
    }

    /// Creates a scanner for one ordered pattern sequence and one shared
    /// replacement. Rejected with `BadPattern` exactly when the sequence is
    /// empty, holds an empty pattern, or cannot fit in the scan buffer
    /// together with the maximal block span.
    pub fn new(patterns: &Vec<Vec<u8>>, replacement: &Vec<u8>) -> (r: Result<BufSearcher, Error>)
        ensures
            match r {
                Ok(s) => {
                    &&& pats_wf(patterns@.map_values(|p: Vec<u8>| p@))
                    &&& s.pats() == patterns@.map_values(|p: Vec<u8>| p@)
                    &&& s.repl() == replacement@
                    &&& forall|input: Seq<u8>| input.len() <= usize::MAX ==> s.wf(input)
                    &&& s.delivered() == Seq::<DiffModel>::empty()
                    &&& s.out_frontier() == 0
                    &&& s.src_read() == 0
                    &&& s.scan_pos() == 0
                },
                Err(e) => e == Error::BadPattern && !pats_wf(patterns@.map_values(|p: Vec<u8>| p@)),
            },
    {
        let ghost pv = patterns@.map_values(|p: Vec<u8>| p@);
        if patterns.len() == 0 {
            return Err(Error::BadPattern);
        }
        let mut sum: usize = 0;
        let mut i: usize = 0;
        while i < patterns.len()
            invariant
                i <= patterns@.len(),
                pv == patterns@.map_values(|p: Vec<u8>| p@),
                pv.len() == patterns@.len(),
                sum == sum_from(pv, 0) - sum_from(pv, i as int),
                sum <= SEARCH_MAX,
                forall|k: int| 0 <= k < i ==> (#[trigger] pv[k]).len() >= 1,
            decreases patterns@.len() - i,
        {
            let pl = patterns[i].len();
            proof {
                assert(pv[i as int] == patterns@[i as int]@);
                assert(sum_from(pv, i as int) == pv[i as int].len() + sum_from(pv, i + 1));
                crate::matching::lemma_sum_from_nonneg(pv, i + 1);
            }
            if pl == 0 {
                return Err(Error::BadPattern);
            }
            if pl > SEARCH_MAX - sum {
                proof {
                    assert(sum_from(pv, 0) > SEARCH_MAX);
                    assert((pv.len() - 1) * (COLUMN_MAX as int) >= 0);
                }
                return Err(Error::BadPattern);
            }
            sum = sum + pl;
            i = i + 1;
        }
        proof {
            assert(sum_from(pv, patterns@.len() as int) == 0);
            assert(sum == sum_from(pv, 0));
        }
        proof {
            assert(patterns@.len() <= sum) by {
                lemma_count_le_sum(pv, 0);
            }
            assert((patterns@.len() - 1) * (COLUMN_MAX as int) <= (SEARCH_MAX - 1) * (
            COLUMN_MAX as int)) by (nonlinear_arith)
                requires
                    0 <= patterns@.len() - 1 <= SEARCH_MAX - 1,
            ;
        }
        let nl_spans = (patterns.len() - 1) * COLUMN_MAX;
        if nl_spans > SEARCH_MAX - sum {
            return Err(Error::BadPattern);
        }
        let mut pats_copy: Vec<Vec<u8>> = Vec::new();
        let mut j: usize = 0;
        while j < patterns.len()
            invariant
                j <= patterns@.len(),
                pats_copy@.len() == j,
                forall|k: int| 0 <= k < j ==> (#[trigger] pats_copy@[k])@ == patterns@[k]@,
            decreases patterns@.len() - j,
        {
            pats_copy.push(crate::diff::copy_bytes(&patterns[j]));
            j = j + 1;
        }
        let s = BufSearcher {
            patterns: pats_copy,
            replacement: crate::diff::copy_bytes(replacement),
            pos: 0,
            buf: vec![0u8; SEARCH_MAX],
            read_head: 0,
            drop_head: 0,
            last_line_start: 0,
            ready: DiffHeap::new(),
            spans: Vec::new(),
            g_emitted: Ghost(Seq::empty()),
            g_delivered: Ghost(Seq::empty()),
            g_out: Ghost(0),
        };
        proof {
            assert(s.pats() =~~= pv);
            assert(pats_wf(pv));
            assert forall|input: Seq<u8>| input.len() <= usize::MAX implies s.wf(input) by {
                assert(s.buf@.subrange(0, 0) =~= input.subrange(0, 0));
                assert(line_start(input, 0) == 0);
                assert(s.g_emitted@.to_multiset() =~= s.g_delivered@.to_multiset().add(s.ready@));
            }
        }
        Ok(s)
    }

    /// Smallest byte span a full group occurrence can occupy; when fewer
    /// bytes than this remain, scanning is over.
    pub fn minimum_match_length(&self) -> (r: usize)
        requires
            pats_wf(self.pats()),
        ensures
            r == min_span(self.pats()),
    {
        let sum = self.patterns_total_len();
        sum + (self.patterns.len() - 1)
    }

    /// Largest byte span a group occurrence can occupy; this many bytes
    /// must be buffered before a candidate match attempt is decisive.
    pub fn maximum_match_length(&self) -> (r: usize)
        requires
            pats_wf(self.pats()),
        ensures
            r == max_span(self.pats()),
    {
        let sum = self.patterns_total_len();
        proof {
            lemma_count_le_sum(self.pats(), 0);
            assert((self.patterns@.len() - 1) * (COLUMN_MAX as int) <= (SEARCH_MAX - 1) * (
            COLUMN_MAX as int)) by (nonlinear_arith)
                requires
                    0 <= self.patterns@.len() - 1 <= SEARCH_MAX - 1,
            ;
        }
        sum + (self.patterns.len() - 1) * COLUMN_MAX
    }

    /// Total byte length of all patterns.
    fn patterns_total_len(&self) -> (r: usize)
        requires
            pats_wf(self.pats()),
        ensures
            r == sum_from(self.pats(), 0),
            r <= SEARCH_MAX,
            self.patterns@.len() <= r,
    {
        let ghost pv = self.pats();
        proof {
            crate::matching::lemma_sum_from_nonneg(pv, 0);
            assert((pv.len() - 1) * (COLUMN_MAX as int) >= 0);
            lemma_count_le_sum(pv, 0);
        }
        let mut sum: usize = 0;
        let mut i: usize = 0;
        while i < self.patterns.len()
            invariant
                i <= self.patterns@.len(),
                pv == self.pats(),
                pv.len() == self.patterns@.len(),
                sum == sum_from(pv, 0) - sum_from(pv, i as int),
                sum_from(pv, 0) <= SEARCH_MAX,
                sum <= SEARCH_MAX,
            decreases self.patterns@.len() - i,
        {
            proof {
                assert(pv[i as int] == self.patterns@[i as int]@);
                assert(sum_from(pv, i as int) == pv[i as int].len() + sum_from(pv, i + 1));
                crate::matching::lemma_sum_from_nonneg(pv, i + 1);
                crate::matching::lemma_sum_from_mono(pv, 0, i as int);
            }
            sum = sum + self.patterns[i].len();
            i = i + 1;
        }
        proof {
            assert(sum_from(pv, self.patterns@.len() as int) == 0);
        }
        sum
    }
    /// Moves the unconsumed window `[drop_head, read_head)` to the front
    /// of the buffer, freeing room without losing a byte.
    fn compress_buffer(&mut self)
        requires
            old(self).drop_head <= old(self).read_head,
            old(self).read_head <= old(self).buf@.len(),
            old(self).pos + old(self).read_head <= usize::MAX,
        ensures
            final(self).pos == old(self).pos + old(self).drop_head,
            final(self).drop_head == 0,
            final(self).read_head == old(self).read_head - old(self).drop_head,
            final(self).buf@.len() == old(self).buf@.len(),
            final(self).buf@.subrange(0, final(self).read_head as int) == old(self).buf@.subrange(
                old(self).drop_head as int,
                old(self).read_head as int,
            ),
            final(self).patterns == old(self).patterns,
            final(self).replacement == old(self).replacement,
            final(self).last_line_start == old(self).last_line_start,
            final(self).ready == old(self).ready,
            final(self).spans == old(self).spans,
            final(self).g_emitted == old(self).g_emitted,
            final(self).g_delivered == old(self).g_delivered,
            final(self).g_out == old(self).g_out,
    {
        let remaining = self.read_head - self.drop_head;
        let dh = self.drop_head;
        let mut t: usize = 0;
        while t < remaining
            invariant
                t <= remaining,
                dh + remaining <= self.buf.len(),
                self.buf@.len() == old(self).buf@.len(),
                remaining == old(self).read_head - dh,
                dh == old(self).drop_head,
                forall|j: int| t <= j < self.buf@.len() ==> #[trigger] self.buf@[j] == old(
                    self,
                ).buf@[j],
                forall|j: int| 0 <= j < t ==> #[trigger] self.buf@[j] == old(self).buf@[dh + j],
                self.pos == old(self).pos,
                self.drop_head == old(self).drop_head,
                self.read_head == old(self).read_head,
                self.patterns == old(self).patterns,
                self.replacement == old(self).replacement,
                self.last_line_start == old(self).last_line_start,
                self.ready == old(self).ready,
                self.spans == old(self).spans,
                self.g_emitted == old(self).g_emitted,
                self.g_delivered == old(self).g_delivered,
                self.g_out == old(self).g_out,
            decreases remaining - t,
        {
            let b = self.buf[dh + t];
            self.buf[t] = b;
            t = t + 1;
        }
        self.pos = self.pos + self.drop_head;
        self.drop_head = 0;
        self.read_head = remaining;
        proof {
            assert(self.buf@.subrange(0, remaining as int) =~= old(self).buf@.subrange(
                old(self).drop_head as int,
                old(self).read_head as int,
            ));
        }
    }

    /// Pulls bytes from the leading tee cursor until the window holds a
    /// full maximal span or the stream is exhausted, compacting first when
    /// the buffer would otherwise run out of room. Never reads past what a
    /// decisive match attempt needs, so memory stays bounded by the buffer
    /// capacity.
    fn fill_buffer(&mut self, t: &mut TeeReader)
        requires
            old(self).wf(old(t).data()),
            old(t).wf(),
            old(t).live(0),
            old(t).live(1),
            old(t).cursor(0) == old(self).pos + old(self).read_head,
            old(t).cursor(1) <= old(t).cursor(0),
        ensures
            final(self).wf(final(t).data()),
            final(t).data() == old(t).data(),
            final(t).wf(),
            final(t).live(0) && final(t).live(1),
            final(t).cursor(1) == old(t).cursor(1),
            final(t).cursor(0) == final(self).pos + final(self).read_head,
            final(self).scan_pos() == old(self).scan_pos(),
            final(self).pats() == old(self).pats(),
            final(self).repl() == old(self).repl(),
            final(self).emitted() == old(self).emitted(),
            final(self).delivered() == old(self).delivered(),
            final(self).out_frontier() == old(self).out_frontier(),
            final(self).ready@ == old(self).ready@,
            final(self).src_read() >= old(self).src_read(),
            final(self).read_head - final(self).drop_head >= max_span(old(self).pats()) || final(self).pos + final(self).read_head == old(t).data().len(),
    {
        let ghost input = old(t).data();
        let remaining = self.read_head - self.drop_head;
        let maxm = self.maximum_match_length();
        if maxm > remaining {
            let missing = maxm - remaining;
            if self.read_head + missing > SEARCH_MAX {
                let ghost pre = *self;
                self.compress_buffer();
                proof {
                    assert(self.buf@.subrange(self.drop_head as int, self.read_head as int)
                        =~= input.subrange(
                        self.pos + self.drop_head,
                        self.pos + self.read_head,
                    ));
                }
            }
            let want = maxm - (self.read_head - self.drop_head);
            let ghost mid = *self;
            proof {
                t.lemma_wf_facts();
            }
            let got = t.read(0, want);
            let glen = got.len();
            let mut j: usize = 0;
            while j < glen
                invariant
                    j <= glen,
                    glen == got@.len(),
                    mid.read_head + glen <= self.buf.len(),
                    self.buf@.len() == mid.buf@.len(),
                    forall|q: int| 0 <= q < mid.read_head ==> #[trigger] self.buf@[q] == mid.buf@[q],
                    forall|q: int|
                        mid.read_head <= q < mid.read_head + j ==> #[trigger] self.buf@[q]
                            == got@[q - mid.read_head],
                    self.pos == mid.pos,
                    self.drop_head == mid.drop_head,
                    self.read_head == mid.read_head,
                    self.patterns == mid.patterns,
                    self.replacement == mid.replacement,
                    self.last_line_start == mid.last_line_start,
                    self.ready == mid.ready,
                    self.spans == mid.spans,
                    self.g_emitted == mid.g_emitted,
                    self.g_delivered == mid.g_delivered,
                    self.g_out == mid.g_out,
                decreases glen - j,
            {
                let b = got[j];
                self.buf[self.read_head + j] = b;
                j = j + 1;
            }
            self.read_head = self.read_head + glen;
            proof {
                t.lemma_wf_facts();
                let dh = self.drop_head as int;
                let rh = self.read_head as int;
                let p = self.pos as int;
                assert(t.cursor(0) == mid.pos + mid.read_head + got@.len());
                assert(p + rh <= input.len());
                assert forall|q: int| dh <= q < rh implies #[trigger] self.buf@[q] == input[p
                    + q] by {
                    if q < mid.read_head {
                        assert(self.buf@[q] == mid.buf@[q]);
                        assert(mid.buf@.subrange(mid.drop_head as int, mid.read_head as int)[q - dh]
                            == input.subrange(
                            mid.pos + mid.drop_head,
                            mid.pos + mid.read_head,
                        )[q - dh]);
                    } else {
                        assert(self.buf@[q] == got@[q - mid.read_head]);
                        assert(got@[q - mid.read_head] == input.subrange(
                            mid.pos + mid.read_head,
                            mid.pos + mid.read_head + got@.len(),
                        )[q - mid.read_head]);
                    }
                }
                assert(self.buf@.subrange(dh, rh) =~= input.subrange(p + dh, p + rh)) by {
                    assert forall|q: int| 0 <= q < rh - dh implies self.buf@.subrange(dh, rh)[q]
                        == input.subrange(p + dh, p + rh)[q] by {
                        assert(self.buf@[dh + q] == input[p + dh + q]);
                    }
                }
                assert(all_diffs(input, self.pats(), self.repl()) == scan_from(
                    input,
                    self.pats(),
                    self.repl(),
                    self.pos + self.drop_head,
                    self.g_emitted@,
                ));
            }
        }
    }

    /// Advances the scan head by `nb` bytes, resetting the column tracker
    /// at each newline and incrementing it otherwise.
    fn drop(&mut self, nb: usize, Ghost(input): Ghost<Seq<u8>>)
        requires
            old(self).wf_window(input),
            old(self).drop_head + nb <= old(self).read_head,
        ensures
            final(self).wf_window(input),
            final(self).drop_head == old(self).drop_head + nb,
            final(self).pos == old(self).pos,
            final(self).read_head == old(self).read_head,
            final(self).buf == old(self).buf,
            final(self).patterns == old(self).patterns,
            final(self).replacement == old(self).replacement,
            final(self).ready == old(self).ready,
            final(self).spans == old(self).spans,
            final(self).g_emitted == old(self).g_emitted,
            final(self).g_delivered == old(self).g_delivered,
            final(self).g_out == old(self).g_out,
    {
        let mut c: usize = 0;
        while c < nb
            invariant
                c <= nb,
                self.wf_window(input),
                self.drop_head == old(self).drop_head + c,
                old(self).drop_head + nb <= self.read_head,
                self.pos == old(self).pos,
                self.read_head == old(self).read_head,
                self.buf == old(self).buf,
                self.patterns == old(self).patterns,
                self.replacement == old(self).replacement,
                self.ready == old(self).ready,
                self.spans == old(self).spans,
                self.g_emitted == old(self).g_emitted,
                self.g_delivered == old(self).g_delivered,
                self.g_out == old(self).g_out,
            decreases nb - c,
        {
            let ghost cur = self.pos + self.drop_head;
            proof {
                assert(self.buf@.subrange(self.drop_head as int, self.read_head as int)[0]
                    == input[cur as int]);
                crate::matching::lemma_line_start_bounds(input, cur as int);
            }
            let b = self.buf[self.drop_head];
            if b == NEWLINE {
                self.last_line_start = 0;
            } else {
                self.last_line_start = self.last_line_start + 1;
            }
            self.drop_head = self.drop_head + 1;
            c = c + 1;
            proof {
                crate::matching::lemma_line_start_bounds(input, cur + 1);
                assert(line_start(input, cur + 1) == if input[cur as int] == NEWLINE {
                    cur + 1
                } else {
                    line_start(input, cur as int)
                });
                lemma_window_slide(
                    self.buf@,
                    input,
                    cur - self.pos,
                    self.read_head as int,
                    self.pos as int,
                    self.drop_head as int,
                );
            }
        }
    }
    /// Compares pattern `k` with the buffered bytes at buffer offset
    /// `start`; equivalent to a literal occurrence in the stream there.
    fn match_one_pattern(&self, start: usize, k: usize, Ghost(input): Ghost<Seq<u8>>) -> (r: bool)
        requires
            self.wf_window(input),
            k < self.patterns@.len(),
            self.drop_head <= start,
            start + self.patterns@[k as int]@.len() <= self.read_head,
        ensures
            r <==> occurs_at(input, self.pats()[k as int], self.pos + start),
    {
        let ghost p = self.pats()[k as int];
        let ghost abs = self.pos + start;
        let plen = self.patterns[k].len();
        let mut i: usize = 0;
        while i < plen
            invariant
                i <= plen,
                self.wf_window(input),
                k < self.patterns@.len(),
                self.drop_head <= start,
                start + plen <= self.read_head,
                plen == p.len(),
                p == self.pats()[k as int],
                abs == self.pos + start,
                forall|q: int| 0 <= q < i ==> input[abs + q] == #[trigger] p[q],
            decreases plen - i,
        {
            proof {
                assert(self.buf@.subrange(self.drop_head as int, self.read_head as int)[start
                    - self.drop_head + i] == input[abs + i]);
                assert(self.pats()[k as int] == self.patterns@[k as int]@);
            }
            if self.buf[start + i] != self.patterns[k][i] {
                proof {
                    assert(input[abs + i] != p[i as int]);
                    assert(input.subrange(abs as int, abs + p.len())[i as int] == input[abs + i]);
                    assert(!occurs_at(input, p, abs as int));
                }
                return false;
            }
            i = i + 1;
        }
        proof {
            assert(input.subrange(abs as int, abs + p.len()) =~= p) by {
                assert forall|q: int| 0 <= q < p.len() implies input.subrange(
                    abs as int,
                    abs + p.len(),
                )[q] == p[q] by {
                    assert(input[abs + q] == p[q]);
                }
            }
        }
        true
    }

    /// Distance from buffer offset `start_offset` to just past the next
    /// newline, looking at most `limit` bytes ahead and never past the
    /// filled window.
    fn next_line_offset(&self, start_offset: usize, limit: usize, Ghost(input): Ghost<Seq<u8>>) -> (r:
        Option<usize>)
        requires
            self.wf_window(input),
            self.drop_head <= start_offset <= self.read_head,
        ensures
            match r {
                Some(nlo) => {
                    &&& 1 <= nlo <= limit
                    &&& start_offset + nlo <= self.read_head
                    &&& input[self.pos + start_offset + nlo - 1] == NEWLINE
                    &&& forall|t: int|
                        self.pos + start_offset <= t < self.pos + start_offset + nlo - 1
                            ==> #[trigger] input[t] != NEWLINE
                },
                None => forall|t: int|
                    self.pos + start_offset <= t < self.pos + (if start_offset + limit
                        <= self.read_head {
                        (start_offset + limit) as int
                    } else {
                        self.read_head as int
                    }) ==> #[trigger] input[t] != NEWLINE,
            },
    {
        let ghost abs0 = self.pos + start_offset;
        let mut j = start_offset;
        while j < self.read_head && j - start_offset < limit
            invariant
                self.wf_window(input),
                self.drop_head <= start_offset <= j <= self.read_head,
                j - start_offset <= limit,
                abs0 == self.pos + start_offset,
                forall|t: int| abs0 <= t < self.pos + j ==> #[trigger] input[t] != NEWLINE,
            decreases self.read_head - j,
        {
            proof {
                let dh = self.drop_head as int;
                let rh = self.read_head as int;
                let cur = self.pos + dh;
                assert(self.buf@.subrange(dh, rh)[j - dh] == input.subrange(cur, self.pos + rh)[j
                    - dh]);
                assert(input.subrange(cur, self.pos + rh)[j - dh] == input[self.pos + j]);
                assert(self.buf@.subrange(dh, rh)[j - dh] == self.buf@[j as int]);
            }
            if self.buf[j] == NEWLINE {
                return Some(j - start_offset + 1);
            }
            j = j + 1;
        }
        None
    }
    /// Attempts a whole group match anchored at the current scan position.
    /// `None` means no group occurrence is anchored there; `Some(parts)`
    /// hands back one diff per part, exactly the group's diff batch.
    fn match_buffer(&self, Ghost(input): Ghost<Seq<u8>>) -> (r: Option<Vec<Diff>>)
        requires
            self.wf_window(input),
            self.read_head - self.drop_head >= max_span(self.pats()) || self.pos + self.read_head
                == input.len(),
            min_span(self.pats()) <= self.read_head - self.drop_head,
        ensures
            match r {
                None => !group_match_at(input, self.pats(), self.scan_pos()),
                Some(parts) => group_match_at(input, self.pats(), self.scan_pos()) && parts@.map_values(
                    |d: Diff| d@,
                ) == group_diffs(input, self.pats(), self.repl(), self.scan_pos()),
            },
    {
        let ghost pv = self.pats();
        let ghost abs = self.scan_pos();
        let ghost col_g = abs - line_start(input, abs as int);
        let len0 = self.patterns[0].len();
        proof {
            assert(pv[0] == self.patterns@[0]@);
            crate::matching::lemma_sum_from_nonneg(pv, 1);
            assert(sum_from(pv, 0) == pv[0].len() + sum_from(pv, 1));
            lemma_count_le_sum(pv, 1);
        }
        if !self.match_one_pattern(self.drop_head, 0, Ghost(input)) {
            return None;
        }
        let mut parts: Vec<Diff> = Vec::new();
        parts.push(
            Diff {
                pos: self.pos + self.drop_head,
                remove: len0,
                add: crate::diff::copy_bytes(&self.replacement),
            },
        );
        let col = self.last_line_start;
        let mut prev_end: usize = self.drop_head + len0;
        let mut k: usize = 1;
        while k < self.patterns.len()
            invariant
                self.wf_window(input),
                self.read_head - self.drop_head >= max_span(self.pats()) || self.pos
                    + self.read_head == input.len(),
                1 <= k <= self.patterns@.len(),
                pv == self.pats(),
                pv.len() == self.patterns@.len(),
                abs == self.scan_pos(),
                col == self.last_line_start,
                col_g == col,
                col_g == abs - line_start(input, abs as int),
                parts@.len() == k,
                forall|m: int|
                    0 <= m < k ==> (#[trigger] parts@[m])@.remove == pv[m].len() && parts@[m]@.add
                        == self.repl(),
                parts@[0]@.pos == abs,
                self.pos + prev_end == parts@[k - 1]@.pos + pv[k - 1].len(),
                occurs_at(input, pv[0], abs as int),
                parts_match_from(input, pv, 1, abs + pv[0].len(), col_g) <==> parts_match_from(
                    input,
                    pv,
                    k as int,
                    self.pos + prev_end,
                    col_g,
                ),
                parts_match_from(input, pv, k as int, self.pos + prev_end, col_g)
                    ==> crate::matching::parts_starts_from(input, pv, 1, abs + pv[0].len(), col_g)
                    == dposes(parts@).skip(1) + crate::matching::parts_starts_from(
                    input,
                    pv,
                    k as int,
                    self.pos + prev_end,
                    col_g,
                ),
                self.drop_head <= prev_end <= self.read_head,
                prev_end - self.drop_head <= (sum_from(pv, 0) - sum_from(pv, k as int)) + (k - 1) * (
                COLUMN_MAX as int),
            decreases self.patterns@.len() - k,
        {
            let ghost pe_abs = self.pos + prev_end;
            proof {
                assert(pv[k as int] == self.patterns@[k as int]@);
                assert(sum_from(pv, k as int) == pv[k as int].len() + sum_from(pv, k + 1));
                crate::matching::lemma_sum_from_nonneg(pv, k + 1);
                crate::matching::lemma_sum_from_mono(pv, 0, k as int);
            }
            if col >= COLUMN_MAX {
                proof {
                    crate::matching::lemma_next_line_start_props(input, pe_abs);
                    assert(!parts_match_from(input, pv, k as int, pe_abs, col_g));
                }
                return None;
            }
            let limit = COLUMN_MAX - col;
            proof {
                assert((k - 1) * (COLUMN_MAX as int) + (COLUMN_MAX as int) == k * (
                COLUMN_MAX as int)) by (nonlinear_arith);
                assert(k * (COLUMN_MAX as int) <= (pv.len() - 1) * (COLUMN_MAX as int)) by (
                nonlinear_arith)
                    requires
                        1 <= k as int <= pv.len() - 1,
                ;
            }
            match self.next_line_offset(prev_end, limit, Ghost(input)) {
                None => {
                    proof {
                        if prev_end + limit <= self.read_head {
                            crate::matching::lemma_next_line_start_beyond(
                                input,
                                pe_abs,
                                pe_abs + limit,
                            );
                            crate::matching::lemma_next_line_start_props(input, pe_abs);
                            assert(!parts_match_from(input, pv, k as int, pe_abs, col_g));
                        } else {
                            assert(self.pos + self.read_head == input.len());
                            crate::matching::lemma_next_line_start_beyond(
                                input,
                                pe_abs,
                                input.len() as int,
                            );
                            crate::matching::lemma_next_line_start_props(input, pe_abs);
                            assert(!parts_match_from(input, pv, k as int, pe_abs, col_g));
                        }
                    }
                    return None;
                },
                Some(nlo) => {
                    let ghost nls_abs = pe_abs + nlo;
                    proof {
                        crate::matching::lemma_next_line_start_found(
                            input,
                            pe_abs,
                            pe_abs + nlo - 1,
                        );
                        assert(crate::matching::next_line_start(input, pe_abs) == Some(nls_abs));
                    }
                    let start = prev_end + nlo + col;
                    let lenk = self.patterns[k].len();
                    if start + lenk > self.read_head {
                        proof {
                            if self.read_head - self.drop_head >= max_span(self.pats()) {
                                assert(start + lenk - self.drop_head <= sum_from(pv, 0) - sum_from(
                                    pv,
                                    k + 1,
                                ) + k * (COLUMN_MAX as int));
                                assert(false);
                            }
                            assert(self.pos + self.read_head == input.len());
                            assert(!occurs_at(input, pv[k as int], nls_abs + col_g));
                            assert(!parts_match_from(input, pv, k as int, pe_abs, col_g));
                        }
                        return None;
                    }
                    if !self.match_one_pattern(start, k, Ghost(input)) {
                        proof {
                            assert(!occurs_at(input, pv[k as int], nls_abs + col_g));
                            assert(!parts_match_from(input, pv, k as int, pe_abs, col_g));
                        }
                        return None;
                    }
                    let ghost old_parts = parts@;
                    let ghost old_pe = prev_end;
                    parts.push(
                        Diff {
                            pos: self.pos + start,
                            remove: lenk,
                            add: crate::diff::copy_bytes(&self.replacement),
                        },
                    );
                    prev_end = start + lenk;
                    k = k + 1;
                    proof {
                        let kk = k - 1;
                        assert(parts@[kk as int]@.pos == self.pos + start);
                        assert(self.pos + start == nls_abs + col_g);
                        assert(parts_match_from(input, pv, kk as int, pe_abs, col_g)
                            <==> parts_match_from(input, pv, k as int, self.pos + prev_end, col_g));
                        if parts_match_from(input, pv, k as int, self.pos + prev_end, col_g) {
                            assert(crate::matching::parts_starts_from(
                                input,
                                pv,
                                kk as int,
                                pe_abs,
                                col_g,
                            ) == seq![nls_abs + col_g] + crate::matching::parts_starts_from(
                                input,
                                pv,
                                k as int,
                                self.pos + prev_end,
                                col_g,
                            ));
                            assert(dposes(parts@).skip(1) =~= dposes(old_parts).skip(1) + seq![
                                nls_abs + col_g,
                            ]);
                            assert(dposes(parts@).skip(1) + crate::matching::parts_starts_from(
                                input,
                                pv,
                                k as int,
                                self.pos + prev_end,
                                col_g,
                            ) =~= dposes(old_parts).skip(1) + crate::matching::parts_starts_from(
                                input,
                                pv,
                                kk as int,
                                pe_abs,
                                col_g,
                            ));
                        }
                        assert(forall|m: int|
                            0 <= m < k ==> (#[trigger] parts@[m])@.remove == pv[m].len()
                                && parts@[m]@.add == self.repl());
                    }
                },
            }
        }
        proof {
            assert(parts_match_from(input, pv, pv.len() as int, self.pos + prev_end, col_g));
            assert(group_match_at(input, pv, abs as int));
            let gs = crate::matching::group_starts(input, pv, abs as int);
            assert(gs == seq![abs as int] + crate::matching::parts_starts_from(
                input,
                pv,
                1,
                abs + pv[0].len(),
                col_g,
            ));
            assert(crate::matching::parts_starts_from(input, pv, pv.len() as int, self.pos
                + prev_end, col_g) == Seq::<int>::empty());
            assert(crate::matching::parts_starts_from(input, pv, 1, abs + pv[0].len(), col_g)
                =~= dposes(parts@).skip(1));
            assert(gs =~= dposes(parts@));
            let g = group_diffs(input, pv, self.repl(), abs as int);
            assert forall|m: int| 0 <= m < pv.len() implies parts@.map_values(|d: Diff| d@)[m]
                == g[m] by {
                assert(dposes(parts@)[m] == parts@[m]@.pos);
                assert(g[m].pos == gs[m]);
            }
            assert(parts@.map_values(|d: Diff| d@) =~= g);
        }
        Some(parts)
    }

    /// Checks a candidate batch against every accepted span: true exactly
    /// when no byte of the batch overlaps an accepted diff.
    fn spans_clear(&self, parts: &Vec<Diff>) -> (r: bool)
        requires
            self.spans@.len() == self.g_emitted@.len(),
            forall|m: int|
                0 <= m < self.spans@.len() ==> (#[trigger] self.spans@[m]).0
                    == self.g_emitted@[m].pos && self.spans@[m].1 == diff_end(self.g_emitted@[m]),
            forall|b: int|
                0 <= b < parts@.len() ==> (#[trigger] parts@[b]).pos + parts@[b].remove
                    <= usize::MAX,
        ensures
            r <==> group_clear_of(self.g_emitted@, parts@.map_values(|d: Diff| d@)),
    {
        let ghost em = self.g_emitted@;
        let ghost g = parts@.map_values(|d: Diff| d@);
        let mut a: usize = 0;
        while a < self.spans.len()
            invariant
                a <= self.spans@.len(),
                self.spans@.len() == em.len(),
                em == self.g_emitted@,
                g == parts@.map_values(|d: Diff| d@),
                g.len() == parts@.len(),
                forall|m: int|
                    0 <= m < self.spans@.len() ==> (#[trigger] self.spans@[m]).0 == em[m].pos
                        && self.spans@[m].1 == diff_end(em[m]),
                forall|b: int|
                    0 <= b < parts@.len() ==> (#[trigger] parts@[b]).pos + parts@[b].remove
                        <= usize::MAX,
                forall|x: int, y: int|
                    0 <= x < a && 0 <= y < g.len() ==> spans_disjoint(#[trigger] em[x], #[trigger] g[y]),
            decreases self.spans@.len() - a,
        {
            let (sp, se) = (self.spans[a].0, self.spans[a].1);
            let mut b: usize = 0;
            while b < parts.len()
                invariant
                    b <= parts@.len(),
                    a < self.spans@.len(),
                    self.spans@.len() == em.len(),
                    em == self.g_emitted@,
                    g == parts@.map_values(|d: Diff| d@),
                    g.len() == parts@.len(),
                    sp == em[a as int].pos,
                    se == diff_end(em[a as int]),
                    forall|bb: int|
                        0 <= bb < parts@.len() ==> (#[trigger] parts@[bb]).pos + parts@[bb].remove
                            <= usize::MAX,
                    forall|y: int| 0 <= y < b ==> spans_disjoint(em[a as int], #[trigger] g[y]),
                decreases parts@.len() - b,
            {
                let bp = parts[b].pos;
                let be = parts[b].pos + parts[b].remove;
                if !(se <= bp || be <= sp) {
                    proof {
                        assert(g[b as int] == parts@[b as int]@);
                        assert(!spans_disjoint(em[a as int], g[b as int]));
                    }
                    return false;
                }
                proof {
                    assert(g[b as int] == parts@[b as int]@);
                    assert(spans_disjoint(em[a as int], g[b as int]));
                }
                b = b + 1;
            }
            a = a + 1;
        }
        true
    }

    /// Scans forward until one group occurrence is accepted — its diff
    /// batch is merged into the pending queue and `true` returned — or
    /// fewer bytes than any occurrence needs remain, which completes the
    /// scan (`false`; nothing changed).
    fn read_diffs(&mut self, t: &mut TeeReader) -> (r: bool)
        requires
            old(self).wf(old(t).data()),
            old(t).wf(),
            old(t).live(0),
            old(t).live(1),
            old(t).cursor(0) == old(self).src_read(),
            old(t).cursor(1) <= old(t).cursor(0),
        ensures
            final(self).wf(final(t).data()),
            final(t).data() == old(t).data(),
            final(t).wf(),
            final(t).live(0) && final(t).live(1),
            final(t).cursor(1) == old(t).cursor(1),
            final(t).cursor(0) == final(self).src_read(),
            final(self).pats() == old(self).pats(),
            final(self).repl() == old(self).repl(),
            final(self).delivered() == old(self).delivered(),
            final(self).out_frontier() == old(self).out_frontier(),
            final(self).scan_pos() >= old(self).scan_pos(),
            final(self).src_read() >= old(self).src_read(),
            r ==> final(self).scan_pos() >= old(self).scan_pos() + 1,
            !r ==> all_diffs(old(t).data(), old(self).pats(), old(self).repl()) == final(self).emitted(),
            !r ==> final(self).emitted() == old(self).emitted(),
            !r ==> final(self).ready@ == old(self).ready@,
    {
        let ghost input = old(t).data();
        loop
            invariant
                input == old(t).data(),
                self.wf(input),
                t.wf(),
                t.data() == input,
                t.live(0) && t.live(1),
                t.cursor(1) == old(t).cursor(1),
                t.cursor(0) == self.src_read(),
                t.cursor(1) <= t.cursor(0),
                self.pats() == old(self).pats(),
                self.repl() == old(self).repl(),
                self.delivered() == old(self).delivered(),
                self.out_frontier() == old(self).out_frontier(),
                self.scan_pos() >= old(self).scan_pos(),
                self.src_read() >= old(self).src_read(),
                self.emitted() == old(self).emitted(),
                self.ready@ == old(self).ready@,
            decreases input.len() - self.scan_pos(),
        {
            self.fill_buffer(t);
            let remaining = self.read_head - self.drop_head;
            let minm = self.minimum_match_length();
            let ghost cur = self.scan_pos();
            let ghost pv = self.pats();
            let ghost rv = self.repl();
            let ghost em = self.g_emitted@;
            if minm > remaining {
                proof {
                    assert((pv.len() - 1) * (COLUMN_MAX as int) >= pv.len() - 1) by (
                    nonlinear_arith)
                        requires
                            pv.len() >= 1,
                    ;
                    assert(min_span(pv) <= max_span(pv));
                    assert(self.pos + self.read_head == input.len());
                    assert(cur + min_span(pv) > input.len());
                    assert(scan_from(input, pv, rv, cur, em) == em);
                }
                return false;
            }
            proof {
                crate::matching::lemma_sum_from_nonneg(pv, 1);
                lemma_count_le_sum(pv, 0);
                assert(sum_from(pv, 0) == pv[0].len() + sum_from(pv, 1));
                assert(min_span(pv) >= 1);
                assert(cur + min_span(pv) <= input.len());
                assert(0 <= cur < input.len());
            }
            match self.match_buffer(Ghost(input)) {
                None => {
                    proof {
                        assert(scan_from(input, pv, rv, cur, em) == scan_from(
                            input,
                            pv,
                            rv,
                            cur + 1,
                            em,
                        ));
                    }
                    self.drop(1, Ghost(input));
                },
                Some(batch) => {
                    let ghost g = group_diffs(input, pv, rv, cur);
                    proof {
                        crate::matching::lemma_group_props(input, pv, rv, cur);
                        assert(batch@.map_values(|d: Diff| d@) == g);
                        assert forall|b: int| 0 <= b < batch@.len() implies (#[trigger] batch@[b]).pos
                            + batch@[b].remove <= usize::MAX by {
                            assert(g[b] == batch@[b]@);
                            assert(diff_end(g[b]) <= input.len());
                        }
                    }
                    if self.spans_clear(&batch) {
                        let len0 = self.patterns[0].len();
                        proof {
                            assert(group_clear_of(em, g));
                            assert(pv[0] == self.patterns@[0]@);
                            assert(pv[0].len() == len0);
                            assert(scan_from(input, pv, rv, cur, em) == scan_from(
                                input,
                                pv,
                                rv,
                                cur + len0,
                                em + g,
                            ));
                        }
                        let ghost mid = *self;
                        proof {
                            assert(mid.wf(input));
                            broadcast use vstd::seq_lib::group_to_multiset_ensures;

                            assert(g.take(0) =~= Seq::<DiffModel>::empty());
                            assert(g.take(0).to_multiset() =~= Multiset::<DiffModel>::empty());
                        }
                        let ghost b0 = batch@;
                        let ghost old_spans = self.spans@;
                        let mut batch = batch;
                        let mut h = DiffHeap::new();
                        let ghost n = b0.len();
                        while batch.len() > 0
                            invariant
                                mid.wf(input),
                                input == old(t).data(),
                                pv == mid.pats(),
                                rv == mid.repl(),
                                em == mid.g_emitted@,
                                cur == mid.pos + mid.drop_head,
                                len0 == pv[0].len(),
                                group_match_at(input, pv, cur),
                                group_clear_of(em, g),
                                g == group_diffs(input, pv, rv, cur),
                                cur + min_span(pv) <= input.len(),
                                mid.read_head - mid.drop_head >= max_span(pv) || mid.pos
                                    + mid.read_head == input.len(),
                                old_spans == mid.spans@,
                                batch@ == b0.skip(n - batch@.len()),
                                batch@.len() <= n == b0.len(),
                                g == b0.map_values(|d: Diff| d@),
                                g.len() == n,
                                forall|b: int|
                                    0 <= b < n ==> (#[trigger] b0[b]).pos + b0[b].remove
                                        <= usize::MAX,
                                self.spans@.len() == old_spans.len() + (n - batch@.len()),
                                forall|m: int|
                                    0 <= m < old_spans.len() ==> #[trigger] self.spans@[m]
                                        == old_spans[m],
                                forall|q: int|
                                    0 <= q < n - batch@.len() ==> (#[trigger] self.spans@[old_spans.len()
                                        + q]).0 == g[q].pos && self.spans@[old_spans.len() + q].1
                                        == diff_end(g[q]),
                                h@ == g.take(n - batch@.len()).to_multiset(),
                                self.patterns == mid.patterns,
                                self.replacement == mid.replacement,
                                self.pos == mid.pos,
                                self.buf == mid.buf,
                                self.read_head == mid.read_head,
                                self.drop_head == mid.drop_head,
                                self.last_line_start == mid.last_line_start,
                                self.ready == mid.ready,
                                self.g_emitted == mid.g_emitted,
                                self.g_delivered == mid.g_delivered,
                                self.g_out == mid.g_out,
                            decreases batch@.len(),
                        {
                            let ghost done = n - batch@.len();
                            let d = batch.remove(0);
                            proof {
                                assert(d == b0[done as int]);
                                assert(d@ == g[done as int]);
                                assert(batch@ =~= b0.skip(done + 1));
                            }
                            self.spans.push((d.pos, d.pos + d.remove));
                            h.push(d);
                            proof {
                                broadcast use vstd::seq_lib::group_to_multiset_ensures;

                                assert(g.take(done + 1) =~= g.take(done as int).push(
                                    g[done as int],
                                ));
                                assert(h@ =~= g.take(done + 1).to_multiset());
                            }
                        }
                        proof {
                            assert(g.take(n as int) =~= g);
                            assert(h@ == g.to_multiset());
                        }
                        self.g_emitted = Ghost(em + g);
                        let ghost ready_pre = self.ready@;
                        self.ready.merge_with(h);
                        proof {
                            assert(self.wf_window(input));
                        }
                        self.drop(len0, Ghost(input));
                        proof {
                            broadcast use vstd::multiset::group_multiset_axioms;

                            crate::matching::lemma_group_props(input, pv, rv, cur);
                            let del = self.g_delivered@;
                            let all = all_diffs(input, pv, rv);
                            assert(self.scan_pos() == cur + len0);
                            assert(self.g_emitted@ == em + g);
                            assert(all == scan_from(input, pv, rv, cur, em));
                            assert(scan_from(input, pv, rv, cur, em) == scan_from(
                                input,
                                pv,
                                rv,
                                cur + len0,
                                em + g,
                            ));
                            assert(diffs_separated(Seq::<DiffModel>::empty()));
                            crate::matching::lemma_scan_separated(input, pv, rv, 0, Seq::empty());
                            crate::matching::lemma_scan_prefix(input, pv, rv, cur + len0, em + g);
                            assert(diffs_separated(em + g)) by {
                                assert forall|a: int, b: int|
                                    0 <= a < (em + g).len() && 0 <= b < (em + g).len() && a != b implies spans_disjoint(
                                    #[trigger] (em + g)[a],
                                    #[trigger] (em + g)[b],
                                ) by {
                                    assert(all[a] == (em + g)[a]);
                                    assert(all[b] == (em + g)[b]);
                                }
                                assert forall|a: int| 0 <= a < (em + g).len() implies (#[trigger] (em
                                    + g)[a]).remove >= 1 by {
                                    assert(all[a] == (em + g)[a]);
                                }
                            }
                            vstd::seq_lib::lemma_multiset_commutative(em, g);
                            assert(self.ready@ == ready_pre.add(g.to_multiset()));
                            assert((em + g).to_multiset() =~= del.to_multiset().add(self.ready@));
                            // the scan was not complete, so delivered diffs sit before `cur`
                            assert forall|m: int| 0 <= m < del.len() implies (#[trigger] del[m]).pos
                                < self.scan_pos() by {
                                assert(all.len() >= (em + g).len());
                                assert((em + g).len() > em.len());
                                assert(del[m].pos < cur);
                            }
                            // everything pending starts at or past the delivery frontier
                            assert forall|e: DiffModel| self.ready@.contains(e) implies e.pos
                                >= self.g_out@ by {
                                if ready_pre.contains(e) {
                                } else {
                                    assert(g.to_multiset().count(e) >= 1);
                                    lemma_in_seq_of_multiset(g, e);
                                    let q = choose|q: int| 0 <= q < g.len() && g[q] == e;
                                    assert(e.pos >= cur);
                                    if del.len() > 0 {
                                        let dl = del.last();
                                        assert(del.contains(dl));
                                        broadcast use vstd::seq_lib::group_to_multiset_ensures;

                                        assert(del.to_multiset().count(dl) >= 1);
                                        assert((em + g).to_multiset().count(dl) >= 1);
                                        lemma_in_seq_of_multiset(em + g, dl);
                                        let md = choose|w: int|
                                            0 <= w < (em + g).len() && (em + g)[w] == dl;
                                        assert(all[md] == dl);
                                        assert(all[em.len() + q] == e);
                                        assert(dl.pos < cur);
                                        if md == em.len() + q {
                                            assert(false);
                                        }
                                        assert(spans_disjoint(all[md], all[em.len() + q]));
                                        assert(dl.remove >= 1);
                                    }
                                }
                            }
                            // accepted spans stay within what the cursor has read
                            assert forall|m: int| 0 <= m < (em + g).len() implies diff_end(
                                #[trigger] (em + g)[m],
                            ) <= self.pos + self.read_head by {
                                if m < em.len() {
                                    assert((em + g)[m] == em[m]);
                                    assert(diff_end(em[m]) <= mid.pos + mid.read_head);
                                } else {
                                    assert((em + g)[m] == g[m - em.len()]);
                                    if mid.read_head - mid.drop_head >= max_span(pv) {
                                        assert(diff_end(g[m - em.len()]) <= cur + max_span(pv));
                                    } else {
                                        assert(mid.pos + mid.read_head == input.len());
                                        assert(diff_end(g[m - em.len()]) <= input.len());
                                    }
                                }
                            }
                            assert forall|m: int| 0 <= m < self.spans@.len() implies (
                            #[trigger] self.spans@[m]).0 == self.g_emitted@[m].pos
                                && self.spans@[m].1 == diff_end(self.g_emitted@[m]) by {
                                if m < old_spans.len() {
                                    assert(self.spans@[m] == old_spans[m]);
                                    assert(mid.spans@[m].0 == em[m].pos && mid.spans@[m].1
                                        == diff_end(em[m]));
                                    assert((em + g)[m] == em[m]);
                                } else {
                                    let q = m - old_spans.len();
                                    assert(self.spans@[old_spans.len() + q].0 == g[q].pos
                                        && self.spans@[old_spans.len() + q].1 == diff_end(g[q]));
                                    assert((em + g)[m] == g[q]);
                                }
                            }
                            assert(self.wf(input));
                        }
                        return true;
                    } else {
                        proof {
                            assert(!group_clear_of(em, g));
                            assert(scan_from(input, pv, rv, cur, em) == scan_from(
                                input,
                                pv,
                                rv,
                                cur + 1,
                                em,
                            ));
                        }
                        self.drop(1, Ghost(input));
                    }
                },
            }
        }
    }

    /// Hands out the next diff, in strictly ascending non-overlapping
    /// position order across calls, scanning ahead as needed; `None` once
    /// every accepted diff has been handed out and the stream is finished.
    /// A diff is held back until the scan has passed its position, so no
    /// later call can produce an earlier diff.
    pub fn next_diff(&mut self, t: &mut TeeReader) -> (r: Option<Diff>)
        requires
            old(self).wf(old(t).data()),
            old(t).wf(),
            old(t).live(0),
            old(t).live(1),
            old(t).cursor(0) == old(self).src_read(),
            old(t).cursor(1) <= old(t).cursor(0),
        ensures
            final(self).wf(final(t).data()),
            final(t).data() == old(t).data(),
            final(t).wf(),
            final(t).live(0) && final(t).live(1),
            final(t).cursor(1) == old(t).cursor(1),
            final(t).cursor(0) == final(self).src_read(),
            final(self).pats() == old(self).pats(),
            final(self).repl() == old(self).repl(),
            ({
                let all = all_diffs(old(t).data(), old(self).pats(), old(self).repl());
                match r {
                    None => {
                        &&& final(self).delivered() == old(self).delivered()
                        &&& final(self).out_frontier() == old(self).out_frontier()
                        &&& all.to_multiset() == final(self).delivered().to_multiset()
                        &&& forall|m: int|
                            0 <= m < all.len() ==> (#[trigger] all[m]).pos < final(self).out_frontier()
                    },
                    Some(d) => {
                        &&& exists|m: int| 0 <= m < all.len() && #[trigger] all[m] == d@
                        &&& old(self).out_frontier() <= d@.pos
                        &&& final(self).out_frontier() == d@.pos + d@.remove
                        &&& final(self).delivered() == old(self).delivered().push(d@)
                        &&& forall|m: int|
                            0 <= m < all.len() ==> !(old(self).out_frontier() <= (
                            #[trigger] all[m]).pos < d@.pos)
                        &&& d@.remove >= 1
                        &&& d@.pos + d@.remove <= final(t).cursor(0)
                        &&& d@.pos + d@.remove <= old(t).data().len()
                    },
                }
            }),
    {
        let ghost input = old(t).data();
        let ghost pv = old(self).pats();
        let ghost rv = old(self).repl();
        loop
            invariant
                input == old(t).data(),
                pv == old(self).pats(),
                rv == old(self).repl(),
                self.wf(input),
                t.wf(),
                t.data() == input,
                t.live(0) && t.live(1),
                t.cursor(1) == old(t).cursor(1),
                t.cursor(0) == self.src_read(),
                t.cursor(1) <= t.cursor(0),
                self.pats() == pv,
                self.repl() == rv,
                self.delivered() == old(self).delivered(),
                self.out_frontier() == old(self).out_frontier(),
            decreases input.len() - self.scan_pos(),
        {
            let ghost all = all_diffs(input, pv, rv);
            let ghost ready_pre = self.ready@;
            match self.ready.pop() {
                None => {
                    if !self.read_diffs(t) {
                        proof {
                            broadcast use vstd::seq_lib::group_to_multiset_ensures;
                            broadcast use vstd::multiset::group_multiset_axioms;

                            assert(ready_pre == Multiset::<DiffModel>::empty());
                            assert(self.ready@ == Multiset::<DiffModel>::empty());
                            assert(all == self.g_emitted@);
                            assert(all.to_multiset() =~= self.g_delivered@.to_multiset());
                            let del = self.g_delivered@;
                            assert forall|m: int| 0 <= m < all.len() implies (#[trigger] all[m]).pos
                                < self.g_out@ by {
                                assert(all.contains(all[m]));
                                assert(all.to_multiset().count(all[m]) >= 1);
                                assert(del.to_multiset().contains(all[m]));
                                assert(del.contains(all[m]));
                                let q = choose|q: int| 0 <= q < del.len() && del[q] == all[m];
                                if q < del.len() - 1 {
                                    assert(diff_end(del[q]) <= del[del.len() - 1].pos);
                                }
                                assert(all[m].remove >= 1) by {
                                    assert(diffs_separated(self.g_emitted@));
                                }
                                assert(del[del.len() - 1].remove >= 1) by {
                                    assert(del.contains(del[del.len() - 1]));
                                    assert(del.to_multiset().contains(del[del.len() - 1]));
                                    assert(all.to_multiset().count(del[del.len() - 1]) >= 1);
                                    assert(all.contains(del[del.len() - 1]));
                                    let w = choose|w: int|
                                        0 <= w < all.len() && all[w] == del[del.len() - 1];
                                    assert(diffs_separated(self.g_emitted@));
                                }
                            }
                        }
                        return None;
                    }
                },
                Some(d) => {
                    if d.pos < self.pos + self.drop_head {
                        proof {
                            self.lemma_commit(input, pv, rv, d@, ready_pre, all);
                        }
                        self.g_delivered = Ghost(self.g_delivered@.push(d@));
                        self.g_out = Ghost(d@.pos + d@.remove);
                        proof {
                            assert(self.wf(input));
                        }
                        return Some(d);
                    } else {
                        self.ready.push(d);
                        proof {
                            assert(self.ready@ =~= ready_pre);
                            assert(self.wf(input));
                        }
                        if !self.read_diffs(t) {
                            let ghost ready_pre2 = self.ready@;
                            match self.ready.pop() {
                                Some(d2) => {
                                    proof {
                                        self.lemma_commit(input, pv, rv, d2@, ready_pre2, all);
                                    }
                                    self.g_delivered = Ghost(self.g_delivered@.push(d2@));
                                    self.g_out = Ghost(d2@.pos + d2@.remove);
                                    proof {
                                        assert(self.wf(input));
                                    }
                                    return Some(d2);
                                },
                                None => {
                                    proof {
                                        assert(ready_pre2.contains(d@));
                                        assert(false);
                                    }
                                    return None;
                                },
                            }
                        }
                    }
                },
            }
        }
    }

    /// The facts one delivery step rests on, assembled from the scanner's
    /// invariant right after a successful pop of the pending queue.
    proof fn lemma_commit(
        &self,
        input: Seq<u8>,
        pv: Seq<Seq<u8>>,
        rv: Seq<u8>,
        d: DiffModel,
        ready_pre: Multiset<DiffModel>,
        all: Seq<DiffModel>,
    )
        requires
            self.wf_window(input),
            pv == self.pats(),
            rv == self.repl(),
            all == all_diffs(input, pv, rv),
            all == scan_from(input, pv, rv, self.scan_pos(), self.emitted()),
            diffs_separated(self.emitted()),
            self.emitted().to_multiset() == self.delivered().to_multiset().add(ready_pre),
            ready_pre == self.ready@.insert(d),
            forall|e: DiffModel| self.ready@.contains(e) ==> e.pos >= d.pos,
            forall|e: DiffModel| ready_pre.contains(e) ==> e.pos >= self.out_frontier(),
            sorted_spans(self.delivered()),
            self.out_frontier() == if self.delivered().len() == 0 {
                0int
            } else {
                diff_end(self.delivered().last())
            },
            self.out_frontier() >= 0,
            (forall|m: int|
                0 <= m < self.delivered().len() ==> (#[trigger] self.delivered()[m]).pos
                    < self.scan_pos()) || all == self.emitted(),
            d.pos < self.scan_pos() || all == self.emitted(),
            forall|m: int|
                0 <= m < self.emitted().len() ==> diff_end(#[trigger] self.emitted()[m])
                    <= self.src_read(),
        ensures
            exists|m: int| 0 <= m < all.len() && #[trigger] all[m] == d,
            self.out_frontier() <= d.pos,
            d.remove >= 1,
            forall|m: int|
                0 <= m < all.len() ==> !(self.out_frontier() <= (#[trigger] all[m]).pos < d.pos),
            self.emitted().to_multiset() == self.delivered().push(d).to_multiset().add(self.ready@),
            sorted_spans(self.delivered().push(d)),
            forall|e: DiffModel| self.ready@.contains(e) ==> e.pos >= d.pos + d.remove,
            (forall|m: int|
                0 <= m < self.delivered().push(d).len() ==> (#[trigger] self.delivered().push(
                    d,
                )[m]).pos < self.scan_pos()) || all == self.emitted(),
            diff_end(self.delivered().push(d).last()) == d.pos + d.remove,
            d.pos + d.remove <= self.src_read(),
    {
        let em = self.emitted();
        let del = self.delivered();
        let cur = self.scan_pos();
        crate::matching::lemma_scan_prefix(input, pv, rv, cur, em);
        crate::matching::lemma_scan_new_elems(input, pv, rv, cur, em);
        assert(diffs_separated(Seq::<DiffModel>::empty()));
        crate::matching::lemma_scan_separated(input, pv, rv, 0, Seq::empty());
        let complete = (all == em);
        lemma_delivery(em, del, self.ready@, d, self.out_frontier(), all, cur, complete);
        assert(ready_pre.contains(d)) by {
            broadcast use vstd::multiset::group_multiset_axioms;

        }
        assert(em.to_multiset().count(d) >= 1) by {
            broadcast use vstd::multiset::group_multiset_axioms;

        }
        lemma_in_seq_of_multiset(em, d);
        let me = choose|m: int| 0 <= m < em.len() && em[m] == d;
        assert(diff_end(em[me]) <= self.src_read());
        if !complete {
            assert forall|m: int|
                0 <= m < self.delivered().push(d).len() implies (#[trigger] self.delivered().push(
                d,
            )[m]).pos < self.scan_pos() by {
                if m < del.len() {
                    assert(self.delivered().push(d)[m] == del[m]);
                }
            }
        }
    }
}

/// Start positions of a batch of diffs.
pub open spec fn dposes(parts: Seq<Diff>) -> Seq<int> {
    parts.map_values(|d: Diff| d@.pos)
}

/// An element of a sequence's multiset occurs at some index.
proof fn lemma_in_seq_of_multiset(s: Seq<DiffModel>, e: DiffModel)
    requires
        s.to_multiset().contains(e),
    ensures
        exists|m: int| 0 <= m < s.len() && s[m] == e,
{
    broadcast use vstd::seq_lib::group_to_multiset_ensures;

    assert(s.contains(e));
    let m = choose|m: int| 0 <= m < s.len() && s[m] == e;
    assert(0 <= m < s.len() && s[m] == e);
}

/// Ends of a sorted, separated span sequence stay at or before the last
/// span's end.
proof fn lemma_sorted_ends(s: Seq<DiffModel>, m: int)
    requires
        sorted_spans(s),
        forall|a: int| 0 <= a < s.len() ==> (#[trigger] s[a]).remove >= 1,
        0 <= m < s.len(),
    ensures
        diff_end(s[m]) <= diff_end(s.last()),
{
    if m < s.len() - 1 {
        assert(diff_end(s[m]) <= s[s.len() - 1].pos);
    }
}

/// What one delivery step guarantees: the handed-out diff is a genuine
/// accepted diff, nothing accepted starts between the delivery frontier
/// and it, and every bookkeeping relation survives with the frontier moved
/// to its end.
#[verifier::rlimit(30)]
proof fn lemma_delivery(
    em: Seq<DiffModel>,
    del: Seq<DiffModel>,
    ready_post: Multiset<DiffModel>,
    d: DiffModel,
    out: int,
    all: Seq<DiffModel>,
    cur: int,
    complete: bool,
)
    requires
        diffs_separated(all),
        all.len() >= em.len(),
        forall|m: int| 0 <= m < em.len() ==> #[trigger] all[m] == em[m],
        forall|m: int| em.len() <= m < all.len() ==> (#[trigger] all[m]).pos >= cur,
        em.to_multiset() == del.to_multiset().add(ready_post.insert(d)),
        forall|e: DiffModel| ready_post.contains(e) ==> e.pos >= d.pos,
        forall|e: DiffModel| ready_post.insert(d).contains(e) ==> e.pos >= out,
        sorted_spans(del),
        out == if del.len() == 0 {
            0int
        } else {
            diff_end(del.last())
        },
        out >= 0,
        forall|m: int| 0 <= m < del.len() ==> (#[trigger] del[m]).pos < cur || complete,
        complete ==> all == em,
        !complete ==> d.pos < cur,
    ensures
        exists|m: int| 0 <= m < all.len() && #[trigger] all[m] == d,
        out <= d.pos,
        d.remove >= 1,
        forall|m: int| 0 <= m < all.len() ==> !(out <= (#[trigger] all[m]).pos < d.pos),
        em.to_multiset() == del.push(d).to_multiset().add(ready_post),
        sorted_spans(del.push(d)),
        forall|e: DiffModel| ready_post.contains(e) ==> e.pos >= d.pos + d.remove,
        forall|m: int|
            0 <= m < del.push(d).len() ==> (#[trigger] del.push(d)[m]).pos < cur || complete,
        diff_end(del.push(d).last()) == d.pos + d.remove,
{
    broadcast use vstd::seq_lib::group_to_multiset_ensures;
    broadcast use vstd::multiset::group_multiset_axioms;

    // d really is an accepted diff.
    assert(ready_post.insert(d).contains(d));
    assert(em.to_multiset().count(d) >= 1);
    lemma_in_seq_of_multiset(em, d);
    let md = choose|m: int| 0 <= m < em.len() && em[m] == d;
    assert(all[md] == d);
    assert(d.remove >= 1);
    // membership helpers for delivered and pending diffs
    assert forall|e: DiffModel| del.to_multiset().contains(e) implies exists|m: int|
        0 <= m < em.len() && #[trigger] em[m] == e by {
        assert(em.to_multiset().count(e) >= del.to_multiset().count(e));
        lemma_in_seq_of_multiset(em, e);
    }
    assert forall|e: DiffModel| ready_post.contains(e) implies exists|m: int|
        0 <= m < em.len() && #[trigger] em[m] == e by {
        assert(ready_post.insert(d).count(e) >= ready_post.count(e));
        assert(em.to_multiset().count(e) >= ready_post.insert(d).count(e));
        lemma_in_seq_of_multiset(em, e);
    }
    // every delivered diff removes at least one byte
    assert forall|m: int| 0 <= m < del.len() implies (#[trigger] del[m]).remove >= 1 by {
        assert(del.contains(del[m]));
        assert(del.to_multiset().contains(del[m]));
        assert(em.to_multiset().count(del[m]) >= del.to_multiset().count(del[m]));
        lemma_in_seq_of_multiset(em, del[m]);
        let me = choose|q: int| 0 <= q < em.len() && em[q] == del[m];
        assert(all[me] == del[m]);
    }
    // delivered spans all end at or before the frontier.
    assert forall|e: DiffModel| del.to_multiset().contains(e) implies diff_end(e) <= out by {
        lemma_in_seq_of_multiset(del, e);
        let m = choose|m: int| 0 <= m < del.len() && del[m] == e;
        lemma_sorted_ends(del, m);
    }
    assert(out <= d.pos);
    // no accepted diff starts in the gap [out, d.pos)
    assert forall|m: int| 0 <= m < all.len() implies !(out <= (#[trigger] all[m]).pos < d.pos) by {
        if m < em.len() {
            let e = em[m];
            assert(em.to_multiset().count(e) >= 1);
            assert(del.to_multiset().count(e) + ready_post.insert(d).count(e) >= 1);
            if del.to_multiset().count(e) >= 1 {
                assert(del.to_multiset().contains(e));
                assert(diff_end(e) <= out);
                lemma_in_seq_of_multiset(del, e);
                let q = choose|q: int| 0 <= q < del.len() && del[q] == e;
                assert(e.remove >= 1);
                assert(e.pos < out);
            } else {
                assert(ready_post.insert(d).contains(e));
                if e == d {
                } else {
                    assert(ready_post.contains(e));
                    assert(e.pos >= d.pos);
                }
            }
        } else {
            assert(all[m].pos >= cur);
            if complete {
                assert(all.len() == em.len());
            } else {
                assert(all[m].pos >= cur > d.pos);
            }
        }
    }
    // multiset bookkeeping
    assert(del.push(d).to_multiset() =~= del.to_multiset().insert(d));
    assert(em.to_multiset() =~= del.push(d).to_multiset().add(ready_post));
    // the new delivered sequence stays sorted
    assert forall|a: int, b: int| 0 <= a < b < del.push(d).len() implies diff_end(
        #[trigger] del.push(d)[a],
    ) <= (#[trigger] del.push(d)[b]).pos by {
        if b == del.len() {
            assert(del.push(d)[a] == del[a]);
            assert(del.to_multiset().contains(del[a])) by {
                assert(del.contains(del[a]));
            }
            assert(diff_end(del[a]) <= out);
        }
    }
    // everything still pending starts past the new frontier
    assert(em.no_duplicates()) by {
        assert forall|a: int, b: int| 0 <= a < em.len() && 0 <= b < em.len() && a != b implies em[a]
            != em[b] by {
            assert(spans_disjoint(all[a], all[b]));
        }
    }
    em.lemma_multiset_has_no_duplicates();
    assert forall|e: DiffModel| ready_post.contains(e) implies e.pos >= d.pos + d.remove by {
        assert(em.to_multiset().count(d) == 1);
        if e == d {
            assert(del.push(d).to_multiset().count(d) >= 1);
            assert(del.push(d).to_multiset().count(d) + ready_post.count(d) == 1);
            assert(false);
        }
        let me = choose|m: int| 0 <= m < em.len() && em[m] == e;
        assert(all[me] == e);
        if me == md {
            assert(false);
        }
        assert(spans_disjoint(all[me], all[md]));
        assert(e.pos >= d.pos);
        assert(e.remove >= 1);
    }
}

/// The spans of `s` are in strictly ascending order and do not overlap.
pub open spec fn sorted_spans(s: Seq<DiffModel>) -> bool {
    forall|a: int, b: int| 0 <= a < b < s.len() ==> diff_end(#[trigger] s[a]) <= (#[trigger] s[b]).pos
}

/// A window equality over `[dh, rh)` restricts to any later start `dh2`.
proof fn lemma_window_slide(buf: Seq<u8>, input: Seq<u8>, dh: int, rh: int, pos: int, dh2: int)
    requires
        0 <= dh <= dh2 <= rh <= buf.len(),
        0 <= pos,
        pos + rh <= input.len(),
        buf.subrange(dh, rh) == input.subrange(pos + dh, pos + rh),
    ensures
        buf.subrange(dh2, rh) == input.subrange(pos + dh2, pos + rh),
{
    assert forall|q: int| 0 <= q < rh - dh2 implies buf.subrange(dh2, rh)[q] == input.subrange(
        pos + dh2,
        pos + rh,
    )[q] by {
        assert(buf.subrange(dh, rh)[dh2 - dh + q] == input.subrange(pos + dh, pos + rh)[dh2 - dh
            + q]);
        assert(buf.subrange(dh, rh)[dh2 - dh + q] == buf[dh2 + q]);
        assert(input.subrange(pos + dh, pos + rh)[dh2 - dh + q] == input[pos + dh2 + q]);
        assert(buf.subrange(dh2, rh)[q] == buf[dh2 + q]);
        assert(input.subrange(pos + dh2, pos + rh)[q] == input[pos + dh2 + q]);
    }
    assert(buf.subrange(dh2, rh) =~= input.subrange(pos + dh2, pos + rh));
}

/// A sequence of patterns each at least one byte long has no more patterns
/// than total bytes.
proof fn lemma_count_le_sum(pats: Seq<Seq<u8>>, k: int)
    requires
        forall|j: int| 0 <= j < pats.len() ==> (#[trigger] pats[j]).len() >= 1,
        0 <= k <= pats.len(),
    ensures
        sum_from(pats, k) >= pats.len() - k,
    decreases pats.len() - k,
{
    if k < pats.len() {
        lemma_count_le_sum(pats, k + 1);
    }
}

} // verus!
