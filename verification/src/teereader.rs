//! Splits one forward byte source into two independently paced read
//! cursors backed by one shared, self-trimming buffer.
//!
//! The buffer holds exactly the bytes between the slowest live cursor and
//! the frontier (the bytes consumed from the source so far); after every
//! operation it is trimmed back to the slowest live cursor, so memory is
//! bounded by the byte distance between the two cursors, not by the stream
//! length. Only non-negative relative forward seeking is offered; releasing
//! a cursor early lets the buffer shrink to the surviving cursor alone.
use vstd::prelude::*;

verus! {

/// One byte source read through two independently paced cursors.
pub struct TeeReader {
    source: Vec<u8>,
    /// Bytes of the source consumed so far; reads past this point pull
    /// fresh bytes and append them to the shared buffer.
    frontier: usize,
    /// The not-yet-doubly-consumed bytes: `source[global_offset..frontier]`.
    buffer: Vec<u8>,
    /// Absolute position of the buffer's first byte.
    global_offset: usize,
    pos0: usize,
    pos1: usize,
    active0: bool,
    active1: bool,
}

/// Returns two independently paced cursors over `source`, bundled in one
/// `TeeReader`; cursor 0 and cursor 1 each see the whole byte sequence.
pub fn tee(source: Vec<u8>) -> (t: TeeReader)
    ensures
        t.wf(),
        t.data() == source@,
        t.cursor(0) == 0,
        t.cursor(1) == 0,
        t.live(0),
        t.live(1),
        t.buffered() == 0,
{
    let t = TeeReader {
        source,
        frontier: 0,
        buffer: Vec::new(),
        global_offset: 0,
        pos0: 0,
        pos1: 0,
        active0: true,
        active1: true,
    };
    proof {
        assert(t.buffer@ =~= t.source@.subrange(0, 0));
    }
    t
}

impl TeeReader {
    /// The full byte sequence of the underlying source.
    pub closed spec fn data(&self) -> Seq<u8> {
        self.source@
    }

    /// Absolute read position of cursor `id`.
    pub closed spec fn cursor(&self, id: int) -> int {
        if id == 0 {
            self.pos0 as int
        } else {
            self.pos1 as int
        }
    }

    /// Whether cursor `id` is still live (not yet released).
    pub closed spec fn live(&self, id: int) -> bool {
        if id == 0 {
            self.active0
        } else {
            self.active1
        }
    }

    /// Number of bytes currently held in the shared buffer.
    pub closed spec fn buffered(&self) -> nat {
        self.buffer@.len()
    }

    /// Bytes consumed from the underlying source so far.
    pub closed spec fn frontier(&self) -> int {
        self.frontier as int
    }

    spec fn min_live(&self) -> int {
        if self.active0 && self.active1 {
            if self.pos0 <= self.pos1 {
                self.pos0 as int
            } else {
                self.pos1 as int
            }
        } else if self.active0 {
            self.pos0 as int
        } else if self.active1 {
            self.pos1 as int
        } else {
            self.frontier as int
        }
    }

    spec fn wf_loose(&self) -> bool {
        &&& self.global_offset + self.buffer@.len() == self.frontier
        &&& self.frontier <= self.source@.len()
        &&& self.buffer@ == self.source@.subrange(self.global_offset as int, self.frontier as int)
        &&& (self.active0 ==> self.global_offset <= self.pos0 <= self.frontier)
        &&& (self.active1 ==> self.global_offset <= self.pos1 <= self.frontier)
        &&& self.global_offset <= self.frontier
    }

    /// The structure's invariant: the buffer holds exactly the source bytes
    /// between the slowest live cursor and the frontier, every live cursor
    /// sits between those two points, and with both cursors live the
    /// frontier is the position of the fastest one — so the buffer size is
    /// exactly the distance between the cursors.
    pub closed spec fn wf(&self) -> bool {
        &&& self.wf_loose()
        &&& self.global_offset == self.min_live()
        &&& (self.active0 && self.active1 ==> self.frontier == if self.pos0 >= self.pos1 {
            self.pos0 as int
        } else {
            self.pos1 as int
        })
    }

    /// How many bytes a read of `n` on cursor `id` returns: bytes still in
    /// the buffer if the cursor lags, else bytes left in the source.
    pub open spec fn read_amount(&self, id: int, n: int) -> int {
        if self.cursor(id) < self.frontier() {
            if n <= self.frontier() - self.cursor(id) {
                n
            } else {
                self.frontier() - self.cursor(id)
            }
        } else {
            if n <= self.data().len() - self.cursor(id) {
                n
            } else {
                self.data().len() - self.cursor(id)
            }
        }
    }

    /// Trims the buffer's prefix up to the slowest live cursor (or drops it
    /// whole when none is live).
    fn cleanup(&mut self)
        requires
            old(self).wf_loose(),
        ensures
            final(self).wf_loose(),
            final(self).global_offset == old(self).min_live(),
            final(self).source == old(self).source,
            final(self).frontier == old(self).frontier,
            final(self).pos0 == old(self).pos0,
            final(self).pos1 == old(self).pos1,
            final(self).active0 == old(self).active0,
            final(self).active1 == old(self).active1,
    {
        let keep_from: usize = if self.active0 && self.active1 {
            if self.pos0 <= self.pos1 {
                self.pos0
            } else {
                self.pos1
            }
        } else if self.active0 {
            self.pos0
        } else if self.active1 {
            self.pos1
        } else {
            self.frontier
        };
        let trim = keep_from - self.global_offset;
        let mut kept: Vec<u8> = Vec::new();
        let mut t = trim;
        while t < self.buffer.len()
            invariant
                trim <= t <= self.buffer@.len(),
                kept@ == self.buffer@.subrange(trim as int, t as int),
            decreases self.buffer@.len() - t,
        {
            kept.push(self.buffer[t]);
            t = t + 1;
            proof {
                assert(kept@ =~= self.buffer@.subrange(trim as int, t as int));
            }
        }
        proof {
            assert(kept@ =~= self.buffer@.subrange(trim as int, self.buffer@.len() as int));
        }
        self.buffer = kept;
        self.global_offset = keep_from;
        proof {
            assert(self.buffer@ =~= self.source@.subrange(
                self.global_offset as int,
                self.frontier as int,
            ));
        }
    }

    /// Reads up to `n` bytes through cursor `id`: bytes are served from the
    /// shared buffer while the cursor lags the frontier; once caught up,
    /// fresh bytes are pulled from the source and kept for the sibling. An
    /// empty result means `n == 0` or the cursor reached the end. Both
    /// cursors, read to exhaustion in any interleaving, thus yield exactly
    /// the source's byte sequence.
    pub fn read(&mut self, id: usize, n: usize) -> (r: Vec<u8>)
        requires
            old(self).wf(),
            id < 2,
            old(self).live(id as int),
        ensures
            final(self).wf(),
            final(self).data() == old(self).data(),
            final(self).live(0) == old(self).live(0),
            final(self).live(1) == old(self).live(1),
            final(self).cursor(1 - id) == old(self).cursor(1 - id),
            r@.len() == old(self).read_amount(id as int, n as int),
            r@ == final(self).data().subrange(
                old(self).cursor(id as int),
                old(self).cursor(id as int) + r@.len(),
            ),
            final(self).cursor(id as int) == old(self).cursor(id as int) + r@.len(),
            final(self).frontier() >= old(self).frontier(),
            final(self).buffered() <= final(self).buffered_bound(),
    {
        let pos = if id == 0 {
            self.pos0
        } else {
            self.pos1
        };
        let mut r: Vec<u8> = Vec::new();
        if pos < self.frontier {
            let avail = self.frontier - pos;
            let k = if n <= avail {
                n
            } else {
                avail
            };
            let idx = pos - self.global_offset;
            let mut t: usize = 0;
            while t < k
                invariant
                    t <= k,
                    idx + k <= self.buffer.len(),
                    r@ == self.buffer@.subrange(idx as int, idx + t),
                decreases k - t,
            {
                r.push(self.buffer[idx + t]);
                t = t + 1;
                proof {
                    assert(r@ =~= self.buffer@.subrange(idx as int, idx + t));
                }
            }
            if id == 0 {
                self.pos0 = pos + k;
            } else {
                self.pos1 = pos + k;
            }
            proof {
                assert(r@ =~= self.source@.subrange(pos as int, pos + k));
            }
            self.cleanup();
        } else {
            let remaining = self.source.len() - self.frontier;
            let k = if n <= remaining {
                n
            } else {
                remaining
            };
            let mut t: usize = 0;
            while t < k
                invariant
                    t <= k,
                    self.frontier + k <= self.source.len(),
                    r@ == self.source@.subrange(self.frontier as int, self.frontier + t),
                    self.buffer@ == old(self).buffer@ + r@,
                    self.source == old(self).source,
                    self.frontier == old(self).frontier,
                    self.global_offset == old(self).global_offset,
                    self.pos0 == old(self).pos0,
                    self.pos1 == old(self).pos1,
                    self.active0 == old(self).active0,
                    self.active1 == old(self).active1,
                decreases k - t,
            {
                let b = self.source[self.frontier + t];
                r.push(b);
                self.buffer.push(b);
                t = t + 1;
                proof {
                    assert(r@ =~= self.source@.subrange(self.frontier as int, self.frontier + t));
                }
            }
            self.frontier = self.frontier + k;
            if id == 0 {
                self.pos0 = pos + k;
            } else {
                self.pos1 = pos + k;
            }
            proof {
                assert(self.buffer@ =~= self.source@.subrange(
                    self.global_offset as int,
                    self.frontier as int,
                ));
            }
            self.cleanup();
        }
        r
    }

    /// The invariant bound on the shared buffer: the distance between the
    /// cursors while both are live, the lag of the sole live cursor behind
    /// the frontier otherwise, and zero when none is live.
    pub open spec fn buffered_bound(&self) -> nat {
        if self.live(0) && self.live(1) {
            if self.cursor(0) >= self.cursor(1) {
                (self.cursor(0) - self.cursor(1)) as nat
            } else {
                (self.cursor(1) - self.cursor(0)) as nat
            }
        } else if self.live(0) {
            (self.frontier() - self.cursor(0)) as nat
        } else if self.live(1) {
            (self.frontier() - self.cursor(1)) as nat
        } else {
            0
        }
    }

    /// Bounds that follow from the invariant: cursors lie between the
    /// start of the stream and the frontier, the frontier within the
    /// stream, and with both cursors live the frontier is the fastest one.
    pub proof fn lemma_wf_facts(&self)
        requires
            self.wf(),
        ensures
            0 <= self.frontier() <= self.data().len(),
            self.data().len() <= usize::MAX,
            self.live(0) ==> 0 <= self.cursor(0) <= self.frontier(),
            self.live(1) ==> 0 <= self.cursor(1) <= self.frontier(),
            self.live(0) && self.live(1) ==> self.frontier() == if self.cursor(0) >= self.cursor(1) {
                self.cursor(0)
            } else {
                self.cursor(1)
            },
    {
        broadcast use vstd::std_specs::vec::axiom_spec_len;

        assert(vstd::std_specs::vec::spec_vec_len(&self.source) == self.source@.len());
    }

    /// The shared buffer never outgrows the cursor distance.
    pub proof fn lemma_buffer_bounded(&self)
        requires
            self.wf(),
        ensures
            self.buffered() <= self.buffered_bound(),
    {
    }

    /// Skips `n` bytes forward on cursor `id` without handing them out
    /// (used to pass over a matched span); stops at the end of the source.
    /// Skipped bytes the sibling has not seen yet are still buffered for
    /// it. Returns the new absolute position. Backward or absolute seeking
    /// is not offered.
    pub fn seek_forward(&mut self, id: usize, n: usize) -> (r: usize)
        requires
            old(self).wf(),
            id < 2,
            old(self).live(id as int),
        ensures
            final(self).wf(),
            final(self).data() == old(self).data(),
            final(self).live(0) == old(self).live(0),
            final(self).live(1) == old(self).live(1),
            final(self).cursor(1 - id) == old(self).cursor(1 - id),
            final(self).cursor(id as int) == if old(self).cursor(id as int) + n <= old(
                self,
            ).data().len() {
                old(self).cursor(id as int) + n
            } else {
                old(self).data().len() as int
            },
            r == final(self).cursor(id as int),
            final(self).frontier() >= old(self).frontier(),
    {
        let pos = if id == 0 {
            self.pos0
        } else {
            self.pos1
        };
        let room = self.source.len() - pos;
        let step = if n <= room {
            n
        } else {
            room
        };
        let target = pos + step;
        if target > self.frontier {
            let mut t = self.frontier;
            while t < target
                invariant
                    self.frontier <= t <= target <= self.source@.len(),
                    self.buffer@ == old(self).buffer@ + self.source@.subrange(
                        self.frontier as int,
                        t as int,
                    ),
                    self.source == old(self).source,
                    self.frontier == old(self).frontier,
                    self.global_offset == old(self).global_offset,
                    self.pos0 == old(self).pos0,
                    self.pos1 == old(self).pos1,
                    self.active0 == old(self).active0,
                    self.active1 == old(self).active1,
                decreases target - t,
            {
                self.buffer.push(self.source[t]);
                t = t + 1;
                proof {
                    assert(self.buffer@ =~= old(self).buffer@ + self.source@.subrange(
                        self.frontier as int,
                        t as int,
                    ));
                }
            }
            self.frontier = target;
            proof {
                assert(self.buffer@ =~= self.source@.subrange(
                    self.global_offset as int,
                    self.frontier as int,
                ));
            }
        }
        if id == 0 {
            self.pos0 = target;
        } else {
            self.pos1 = target;
        }
        self.cleanup();
        target
    }

    /// Releases cursor `id`: the shared buffer immediately shrinks as if
    /// this cursor had jumped to its sibling, so an abandoned cursor cannot
    /// hold memory.
    pub fn release(&mut self, id: usize)
        requires
            old(self).wf(),
            id < 2,
        ensures
            final(self).wf(),
            final(self).data() == old(self).data(),
            !final(self).live(id as int),
            final(self).live(1 - id) == old(self).live(1 - id),
            final(self).cursor(1 - id) == old(self).cursor(1 - id),
    {
        if id == 0 {
            self.active0 = false;
        } else {
            self.active1 = false;
        }
        self.cleanup();
    }

    /// Reads cursor `id` to exhaustion and returns everything it had left.
    pub fn read_to_end(&mut self, id: usize) -> (r: Vec<u8>)
        requires
            old(self).wf(),
            id < 2,
            old(self).live(id as int),
        ensures
            final(self).wf(),
            final(self).data() == old(self).data(),
            final(self).live(0) == old(self).live(0),
            final(self).live(1) == old(self).live(1),
            final(self).cursor(1 - id) == old(self).cursor(1 - id),
            r@ == final(self).data().subrange(
                old(self).cursor(id as int),
                final(self).data().len() as int,
            ),
            final(self).cursor(id as int) == final(self).data().len(),
    {
        let mut r: Vec<u8> = Vec::new();
        loop
            invariant
                self.wf(),
                id < 2,
                self.live(id as int),
                self.data() == old(self).data(),
                self.live(0) == old(self).live(0),
                self.live(1) == old(self).live(1),
                self.cursor(1 - id) == old(self).cursor(1 - id),
                old(self).cursor(id as int) <= self.cursor(id as int) <= self.data().len(),
                r@ == self.data().subrange(old(self).cursor(id as int), self.cursor(id as int)),
            ensures
                self.cursor(id as int) == self.data().len(),
            decreases self.data().len() - self.cursor(id as int),
        {
            let ghost before = self.cursor(id as int);
            let mut chunk = self.read(id, 4096);
            if chunk.len() == 0 {
                proof {
                    assert(self.cursor(id as int) == self.data().len());
                }
                break ;
            }
            let ghost rold = r@;
            let ghost clen = chunk@.len();
            r.append(&mut chunk);
            proof {
                assert(r@ =~= self.data().subrange(
                    old(self).cursor(id as int),
                    self.cursor(id as int),
                ));
            }
        }
        r
    }
}

} // verus!
