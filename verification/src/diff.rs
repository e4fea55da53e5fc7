use vstd::prelude::*;

verus! {

/// One substitution: at absolute byte offset `pos` of the original stream,
/// `remove` bytes are deleted and `add` is written in their place.
#[derive(Debug, PartialEq, Eq)]
pub struct Diff {
    /// Absolute byte offset of the replaced span in the original stream.
    pub pos: usize,
    /// Number of original bytes the match consumes.
    pub remove: usize,
    /// Replacement bytes emitted in place of the span.
    pub add: Vec<u8>,
}

/// The mathematical shadow of a `Diff`.
#[verifier::ext_equal]
pub ghost struct DiffModel {
    pub pos: int,
    pub remove: int,
    pub add: Seq<u8>,
}

impl View for Diff {
    type V = DiffModel;

    open spec fn view(&self) -> DiffModel {
        DiffModel { pos: self.pos as int, remove: self.remove as int, add: self.add@ }
    }
}

/// First offset past the span a diff removes.
pub open spec fn diff_end(d: DiffModel) -> int {
    d.pos + d.remove
}

/// The removed spans of two diffs share no byte.
pub open spec fn spans_disjoint(a: DiffModel, b: DiffModel) -> bool {
    diff_end(a) <= b.pos || diff_end(b) <= a.pos
}

/// Copies a byte vector element by element.
pub fn copy_bytes(v: &Vec<u8>) -> (r: Vec<u8>)
    ensures
        r@ == v@,
{
    let mut r: Vec<u8> = Vec::new();
    let mut i: usize = 0;
    while i < v.len()
        invariant
            i <= v.len(),
            r@ == v@.subrange(0, i as int),
        decreases v.len() - i,
    {
        r.push(v[i]);
        i = i + 1;
        proof {
            assert(r@ =~= v@.subrange(0, i as int));
        }
    }
    proof {
        assert(r@ =~= v@);
    }
    r
}

} // verus!
