//! The diff-application engine and the byte-level replacement drivers.
//!
//! `Replacer` consumes the scanner's ordered diff sequence together with
//! the trailing tee cursor, copying untouched byte ranges to the output
//! verbatim and emitting replacement text in place of matched spans.
//! `replace_stream` drives one whole replacement over an in-memory byte
//! stream; `replace_single` is the single-pattern convenience entry;
//! `temporary_path` builds the sibling temporary file name used for the
//! atomic rename.
use vstd::prelude::*;

use rand::RngExt;
use vstd::string::StringExecFns;

use crate::bufsearcher::BufSearcher;
use crate::diff::Diff;
use crate::diff::DiffModel;
use crate::diff::diff_end;
use crate::error::Error;
use crate::matching::all_diffs;
use crate::matching::apply_from;
use crate::matching::diffs_separated;
use crate::matching::pats_wf;
use crate::matching::spec_replaced;
use crate::teereader::TeeReader;
use crate::teereader::tee;

verus! {

/// Applies the scanner's diffs to the trailing copy of the stream.
pub struct Replacer {
    searcher: BufSearcher,
    tee: TeeReader,
    out: Vec<u8>,
    /// Offset of the next original byte to be consumed; always equal to
    /// the trailing cursor's position.
    pos: usize,
}

impl Replacer {
    /// The underlying byte stream.
    pub closed spec fn data(&self) -> Seq<u8> {
        self.tee.data()
    }

    /// The pattern sequence being replaced.
    pub closed spec fn pats(&self) -> Seq<Seq<u8>> {
        self.searcher.pats()
    }

    /// The replacement bytes.
    pub closed spec fn repl(&self) -> Seq<u8> {
        self.searcher.repl()
    }

    /// The output produced so far.
    pub closed spec fn output(&self) -> Seq<u8> {
        self.out@
    }

    /// First stream offset whose fate the output does not yet reflect.
    pub closed spec fn out_frontier(&self) -> int {
        self.searcher.out_frontier()
    }

    /// The engine's invariant: scanner and both cursors are consistent,
    /// and the output equals the specified result up to the frontier.
    pub closed spec fn wf(&self) -> bool {
        let input = self.tee.data();
        let all = all_diffs(input, self.searcher.pats(), self.searcher.repl());
        &&& self.searcher.wf(input)
        &&& self.tee.wf()
        &&& self.tee.live(0) && self.tee.live(1)
        &&& self.tee.cursor(0) == self.searcher.src_read()
        &&& self.tee.cursor(1) == self.searcher.out_frontier()
        &&& self.tee.cursor(1) <= self.tee.cursor(0)
        &&& self.pos == self.searcher.out_frontier()
        &&& 0 <= self.searcher.out_frontier() <= input.len()
        &&& apply_from(input, all, 0) == self.out@ + apply_from(
            input,
            all,
            self.searcher.out_frontier(),
        )
    }

    /// Couples a fresh scanner with the two cursors of a fresh tee over
    /// one stream.
    pub fn new(searcher: BufSearcher, t: TeeReader) -> (r: Replacer)
        requires
            searcher.wf(t.data()),
            t.wf(),
            t.live(0),
            t.live(1),
            t.cursor(0) == 0,
            t.cursor(1) == 0,
            searcher.src_read() == 0,
            searcher.out_frontier() == 0,
        ensures
            r.wf(),
            r.data() == t.data(),
            r.pats() == searcher.pats(),
            r.repl() == searcher.repl(),
            r.output() == Seq::<u8>::empty(),
    {
        let r = Replacer { searcher, tee: t, out: Vec::new(), pos: 0 };
        proof {
            let input = r.tee.data();
            let all = all_diffs(input, r.searcher.pats(), r.searcher.repl());
            assert(r.out@ + apply_from(input, all, 0) =~= apply_from(input, all, 0));
        }
        r
    }

    /// Hands the finished output out.
    pub fn into_output(self) -> (r: Vec<u8>)
        ensures
            r@ == self.output(),
    {
        self.out
    }

    /// Copies `nb` untouched bytes from the trailing cursor to the output.
    fn copy_from_original(&mut self, nb: usize)
        requires
            old(self).tee.wf(),
            old(self).tee.live(0),
            old(self).tee.live(1),
            old(self).tee.cursor(1) + nb <= old(self).tee.frontier(),
            old(self).pos == old(self).tee.cursor(1),
        ensures
            final(self).tee.wf(),
            final(self).tee.data() == old(self).tee.data(),
            final(self).tee.live(0) && final(self).tee.live(1),
            final(self).tee.cursor(0) == old(self).tee.cursor(0),
            final(self).tee.cursor(1) == old(self).tee.cursor(1) + nb,
            final(self).out@ == old(self).out@ + old(self).tee.data().subrange(
                old(self).tee.cursor(1),
                old(self).tee.cursor(1) + nb,
            ),
            final(self).searcher == old(self).searcher,
            final(self).pos == final(self).tee.cursor(1),
    {
        proof {
            self.tee.lemma_wf_facts();
        }
        let mut chunk = self.tee.read(1, nb);
        proof {
            assert(chunk@.len() == nb);
        }
        self.out.append(&mut chunk);
        self.pos = self.pos + nb;
    }

    /// Skips the matched span on the trailing cursor and writes the diff's
    /// replacement text in its place.
    fn produce_replacement(&mut self, d: Diff)
        requires
            old(self).tee.wf(),
            old(self).tee.live(0),
            old(self).tee.live(1),
            old(self).tee.cursor(1) + d.remove <= old(self).tee.frontier(),
            old(self).pos == old(self).tee.cursor(1),
        ensures
            final(self).tee.wf(),
            final(self).tee.data() == old(self).tee.data(),
            final(self).tee.live(0) && final(self).tee.live(1),
            final(self).tee.cursor(0) == old(self).tee.cursor(0),
            final(self).tee.cursor(1) == old(self).tee.cursor(1) + d.remove,
            final(self).out@ == old(self).out@ + d.add@,
            final(self).searcher == old(self).searcher,
            final(self).pos == final(self).tee.cursor(1),
    {
        proof {
            self.tee.lemma_wf_facts();
        }
        let Diff { pos: _, remove, add } = d;
        let mut add = add;
        self.tee.seek_forward(1, remove);
        self.out.append(&mut add);
        self.pos = self.pos + remove;
    }

    /// Copies every byte the trailing cursor has left, verbatim.
    fn copy_remaining(&mut self)
        requires
            old(self).tee.wf(),
            old(self).tee.live(0),
            old(self).tee.live(1),
        ensures
            final(self).tee.wf(),
            final(self).tee.data() == old(self).tee.data(),
            final(self).tee.live(0) && final(self).tee.live(1),
            final(self).tee.cursor(0) == old(self).tee.cursor(0),
            final(self).tee.cursor(1) == old(self).tee.data().len(),
            final(self).out@ == old(self).out@ + old(self).tee.data().subrange(
                old(self).tee.cursor(1),
                old(self).tee.data().len() as int,
            ),
            final(self).searcher == old(self).searcher,
            final(self).pos == old(self).pos,
    {
        let mut rest = self.tee.read_to_end(1);
        self.out.append(&mut rest);
    }

    /// One step of the application loop: pulls the next diff, copies the
    /// gap before it verbatim and substitutes its span; with no diff left,
    /// copies the remaining bytes and signals completion through the
    /// `EndOfIteration` sentinel, which the driving loop converts into
    /// plain success.
    pub fn replace_next_diff(&mut self) -> (r: Result<(), Error>)
        requires
            old(self).wf(),
        ensures
            final(self).data() == old(self).data(),
            final(self).pats() == old(self).pats(),
            final(self).repl() == old(self).repl(),
            match r {
                Ok(()) => final(self).wf() && final(self).out_frontier() >= old(
                    self,
                ).out_frontier() + 1,
                Err(e) => e == Error::EndOfIteration && final(self).output() == spec_replaced(
                    old(self).data(),
                    old(self).pats(),
                    old(self).repl(),
                ),
            },
    {
        let ghost input = self.tee.data();
        let ghost pv = self.searcher.pats();
        let ghost rv = self.searcher.repl();
        let ghost all = all_diffs(input, pv, rv);
        let ghost out0 = self.searcher.out_frontier();
        proof {
            self.searcher.lemma_wf_public_facts(input);
            assert(diffs_separated(Seq::<DiffModel>::empty()));
            crate::matching::lemma_scan_separated(input, pv, rv, 0, Seq::empty());
        }
        match self.searcher.next_diff(&mut self.tee) {
            None => {
                proof {
                    self.searcher.lemma_wf_public_facts(input);
                    let del = self.searcher.delivered();
                    assert forall|m: int| 0 <= m < all.len() implies (#[trigger] all[m]).pos
                        < out0 by {
                        broadcast use vstd::seq_lib::group_to_multiset_ensures;
                        broadcast use vstd::multiset::group_multiset_axioms;

                        assert(all.contains(all[m]));
                        assert(all.to_multiset().count(all[m]) >= 1);
                        assert(del.to_multiset().count(all[m]) >= 1);
                        assert(del.to_multiset().contains(all[m]));
                        assert(del.contains(all[m]));
                        let q = choose|q: int| 0 <= q < del.len() && del[q] == all[m];
                        if q < del.len() - 1 {
                            assert(diff_end(del[q]) <= del[del.len() - 1].pos);
                        }
                        assert(all[m].remove >= 1);
                        assert(del[del.len() - 1].remove >= 1) by {
                            assert(del.contains(del[del.len() - 1]));
                            assert(del.to_multiset().contains(del[del.len() - 1]));
                            assert(all.to_multiset().count(del[del.len() - 1]) >= 1);
                            assert(all.contains(del[del.len() - 1]));
                        }
                    }
                    crate::matching::lemma_apply_none(input, all, out0);
                }
                self.copy_remaining();
                proof {
                    assert(self.out@ =~= apply_from(input, all, 0));
                }
                Err(Error::EndOfIteration)
            },
            Some(d) => {
                let ghost dm = d@;
                proof {
                    self.tee.lemma_wf_facts();
                    assert(dm.pos + dm.remove <= self.tee.frontier());
                }
                let gap = d.pos - self.pos;
                let ghost mid0 = *self;
                self.copy_from_original(gap);
                proof {
                    self.tee.lemma_wf_facts();
                }
                let ghost dpos = dm.pos;
                self.produce_replacement(d);
                proof {
                    let n = choose|m: int| 0 <= m < all.len() && #[trigger] all[m] == dm;
                    crate::matching::lemma_apply_copy(input, all, out0, dm.pos);
                    crate::matching::lemma_apply_at(input, all, n, dm.pos);
                    assert(self.out@ =~= mid0.out@ + input.subrange(out0, dm.pos) + dm.add);
                    assert(apply_from(input, all, 0) == mid0.out@ + (input.subrange(out0, dm.pos)
                        + (dm.add + apply_from(input, all, dm.pos + dm.remove))));
                    assert(mid0.out@ + (input.subrange(out0, dm.pos) + (dm.add + apply_from(
                        input,
                        all,
                        dm.pos + dm.remove,
                    ))) =~= self.out@ + apply_from(input, all, dm.pos + dm.remove));
                    assert(self.wf());
                }
                Ok(())
            },
        }
    }
}

/// Performs one whole replacement over an in-memory byte stream: every
/// accepted occurrence of the ordered pattern sequence is replaced by
/// `replacement`, all other bytes pass through unchanged. Fails with
/// `BadPattern` exactly when the pattern sequence is unusable.
pub fn replace_stream(patterns: &Vec<Vec<u8>>, replacement: &Vec<u8>, input: Vec<u8>) -> (r: Result<
    Vec<u8>,
    Error,
>)
    ensures
        match r {
            Ok(out) => pats_wf(patterns@.map_values(|p: Vec<u8>| p@)) && out@ == spec_replaced(
                input@,
                patterns@.map_values(|p: Vec<u8>| p@),
                replacement@,
            ),
            Err(e) => e == Error::BadPattern && !pats_wf(patterns@.map_values(|p: Vec<u8>| p@)),
        },
{
    let ghost iv = input@;
    let ghost pv = patterns@.map_values(|p: Vec<u8>| p@);
    let searcher = match BufSearcher::new(patterns, replacement) {
        Err(e) => {
            return Err(e);
        },
        Ok(s) => s,
    };
    proof {
        let l = input@.len();
        assert(l <= usize::MAX) by {
            assert(input.len() == input@.len());
        }
    }
    let t = tee(input);
    let mut rep = Replacer::new(searcher, t);
    loop
        invariant_except_break
            rep.wf(),
        invariant
            rep.data() == iv,
            rep.pats() == pv,
            rep.repl() == replacement@,
        ensures
            rep.output() == spec_replaced(iv, pv, replacement@),
        decreases iv.len() + 1 - rep.out_frontier(),
    {
        match rep.replace_next_diff() {
            Ok(()) => {
            },
            Err(e) => {
                match e {
                    Error::EndOfIteration => {
                        break ;
                    },
                    _ => {
                        proof {
                            assert(false);
                        }
                        break ;
                    },
                }
            },
        }
    }
    Ok(rep.into_output())
}

/// Ordinary single-pattern substring replacement over one byte stream.
pub fn replace_single(pattern: &Vec<u8>, replacement: &Vec<u8>, input: Vec<u8>) -> (r: Result<
    Vec<u8>,
    Error,
>)
    ensures
        match r {
            Ok(out) => pats_wf(seq![pattern@]) && out@ == spec_replaced(
                input@,
                seq![pattern@],
                replacement@,
            ),
            Err(e) => e == Error::BadPattern && !pats_wf(seq![pattern@]),
        },
{
    let mut patterns: Vec<Vec<u8>> = Vec::new();
    patterns.push(crate::diff::copy_bytes(pattern));
    proof {
        assert(patterns@.map_values(|p: Vec<u8>| p@) =~= seq![pattern@]);
    }
    replace_stream(&patterns, replacement, input)
}

/// Relies on rand's `Alphanumeric` distribution: eight characters drawn
/// from ASCII letters and digits; nothing further is assumed of which
/// characters come out.
#[verifier::external_body]
fn random_suffix() -> (s: String)
    ensures
        s@.len() == 8,
{
    rand::rng().sample_iter(rand::distr::Alphanumeric).take(8).map(
        |c: u8| -> char { c.into() },
    ).collect()
}

/// Builds the sibling temporary path for an atomic rewrite: the original
/// path, a fixed marker, and eight random alphanumeric characters. The
/// temporary file lives in the original's directory, so the final rename
/// stays within one filesystem.
pub fn temporary_path(original: &str) -> (r: String)
    ensures
        exists|sfx: Seq<char>|
            sfx.len() == 8 && r@ == original@ + "._ved_temp_"@ + sfx,
{
    let mut p = original.to_owned();
    p.append("._ved_temp_");
    let sfx = random_suffix();
    p.append(sfx.as_str());
    proof {
        assert(p@ == original@ + "._ved_temp_"@ + sfx@);
    }
    p
}

} // verus!
