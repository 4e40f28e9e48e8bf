//! Reversible edit primitives on a sequence of pieces.

use crate::pieces::{all_in_bounds, in_bounds, lens};
use crate::span::Ref;
use crate::weights::total;
use vstd::prelude::*;

verus! {

/// One edit of a piece sequence. Each carries what it takes to undo it.
#[derive(Debug, PartialEq, Eq, Structural)]
pub enum DocOp {
    /// `Remove(pos, piece)`: take out the piece at `pos`, which is `piece`;
    /// later pieces move down by one.
    Remove(usize, Ref),
    /// `Insert(pos, piece)`: put `piece` at `pos`; later pieces move up by
    /// one.
    Insert(usize, Ref),
    /// `Replace(pos, old, new)`: put `new` in the place of the piece at
    /// `pos`, which is `old`; no piece moves.
    Replace(usize, Ref, Ref),
}

impl DocOp {
    /// The edit that undoes this one.
    pub open spec fn inverted(self) -> DocOp {
        match self {
            DocOp::Remove(pos, piece) => DocOp::Insert(pos, piece),
            DocOp::Insert(pos, piece) => DocOp::Remove(pos, piece),
            DocOp::Replace(pos, old, new) => DocOp::Replace(pos, new, old),
        }
    }

    /// Whether the edit can be made on `pieces`: its position exists, and the
    /// piece it expects there is there.
    pub open spec fn fits(self, pieces: Seq<Ref>) -> bool {
        match self {
            DocOp::Remove(pos, piece) => pos < pieces.len() && pieces[pos as int] == piece,
            DocOp::Insert(pos, _) => pos <= pieces.len(),
            DocOp::Replace(pos, old, _) => pos < pieces.len() && pieces[pos as int] == old,
        }
    }

    /// The piece sequence after the edit.
    pub open spec fn apply(self, pieces: Seq<Ref>) -> Seq<Ref> {
        match self {
            DocOp::Remove(pos, _) => pieces.remove(pos as int),
            DocOp::Insert(pos, piece) => pieces.insert(pos as int, piece),
            DocOp::Replace(pos, _, new) => pieces.update(pos as int, new),
        }
    }

    /// The edit that undoes this one.
    pub fn inverse(self) -> (inv: DocOp)
        ensures
            inv == self.inverted(),
    {
        match self {
            DocOp::Remove(idx, x) => DocOp::Insert(idx, x),
            DocOp::Insert(idx, x) => DocOp::Remove(idx, x),
            DocOp::Replace(idx, a, b) => DocOp::Replace(idx, b, a),
        }
    }
}

/// The piece sequence after the edits `ops`, made in order.
pub open spec fn apply_all(pieces: Seq<Ref>, ops: Seq<DocOp>) -> Seq<Ref>
    decreases ops.len(),
{
    if ops.len() == 0 {
        pieces
    } else {
        apply_all(ops[0].apply(pieces), ops.drop_first())
    }
}

/// Whether the edit `op` can be run on a document with these pieces and
/// buffer lengths: it fits the pieces, the piece it brings lies inside its
/// buffer, and the pieces and the characters can afterwards still be
/// counted in a machine word.
pub open spec fn admissible(
    op: DocOp,
    pieces: Seq<Ref>,
    original_len: nat,
    append_len: nat,
) -> bool {
    &&& op.fits(pieces)
    &&& match op {
        DocOp::Remove(_, _) => true,
        DocOp::Insert(_, piece) => in_bounds(piece, original_len, append_len),
        DocOp::Replace(_, _, new) => in_bounds(new, original_len, append_len),
    }
    &&& op.apply(pieces).len() <= usize::MAX
    &&& total(lens(op.apply(pieces))) <= usize::MAX
}

/// Whether the edits `ops` can be run in order, each on the pieces that the
/// ones before it leave.
pub open spec fn all_admissible(
    ops: Seq<DocOp>,
    pieces: Seq<Ref>,
    original_len: nat,
    append_len: nat,
) -> bool
    decreases ops.len(),
{
    ops.len() == 0 || (admissible(ops[0], pieces, original_len, append_len) && all_admissible(
        ops.drop_first(),
        ops[0].apply(pieces),
        original_len,
        append_len,
    ))
}

/// Inverting an edit twice gives the edit back.
pub proof fn lemma_inverse_twice(op: DocOp)
    ensures
        op.inverted().inverted() == op,
{
}

/// The inverse of an edit can be made right after the edit, and restores
/// the pieces as they were.
pub proof fn lemma_inverse_undoes(op: DocOp, pieces: Seq<Ref>)
    requires
        op.fits(pieces),
    ensures
        op.inverted().fits(op.apply(pieces)),
        op.inverted().apply(op.apply(pieces)) == pieces,
{
    assert(op.inverted().apply(op.apply(pieces)) =~= pieces);
}

/// An edit that can be run on the pieces of a document can be undone there:
/// its inverse can be run on what it leaves, and restores the pieces.
pub proof fn lemma_inverse_admissible(
    op: DocOp,
    pieces: Seq<Ref>,
    original_len: nat,
    append_len: nat,
)
    requires
        admissible(op, pieces, original_len, append_len),
        all_in_bounds(pieces, original_len, append_len),
        pieces.len() <= usize::MAX,
        total(lens(pieces)) <= usize::MAX,
    ensures
        admissible(op.inverted(), op.apply(pieces), original_len, append_len),
        op.inverted().apply(op.apply(pieces)) == pieces,
{
    lemma_inverse_undoes(op, pieces);
    match op {
        DocOp::Remove(pos, piece) => {
            assert(in_bounds(pieces[pos as int], original_len, append_len));
        },
        DocOp::Insert(_, _) => {},
        DocOp::Replace(pos, prev, _) => {
            assert(in_bounds(pieces[pos as int], original_len, append_len));
        },
    }
}

/// Making the edits `ops` and then one more is making all of them.
pub proof fn lemma_apply_all_push(pieces: Seq<Ref>, ops: Seq<DocOp>, op: DocOp)
    ensures
        apply_all(pieces, ops.push(op)) == op.apply(apply_all(pieces, ops)),
    decreases ops.len(),
{
    if ops.len() == 0 {
        assert(ops.push(op).drop_first() =~= ops);
        assert(apply_all(op.apply(pieces), ops) == op.apply(pieces));
    } else {
        assert(ops.push(op).drop_first() =~= ops.drop_first().push(op));
        lemma_apply_all_push(ops[0].apply(pieces), ops.drop_first(), op);
    }
}

/// The edits `ops` and then one more can be run exactly if `ops` can be run
/// and the last one can be run on what they leave.
pub proof fn lemma_all_admissible_push(
    ops: Seq<DocOp>,
    op: DocOp,
    pieces: Seq<Ref>,
    original_len: nat,
    append_len: nat,
)
    ensures
        all_admissible(ops.push(op), pieces, original_len, append_len) == (all_admissible(
            ops,
            pieces,
            original_len,
            append_len,
        ) && admissible(op, apply_all(pieces, ops), original_len, append_len)),
    decreases ops.len(),
{
    reveal_with_fuel(all_admissible, 2);
    if ops.len() == 0 {
        assert(ops.push(op).drop_first() =~= Seq::<DocOp>::empty());
    } else {
        assert(ops.push(op).drop_first() =~= ops.drop_first().push(op));
        lemma_all_admissible_push(
            ops.drop_first(),
            op,
            ops[0].apply(pieces),
            original_len,
            append_len,
        );
    }
}

} // verus!
