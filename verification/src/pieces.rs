//! The text that a sequence of pieces denotes.
//!
//! A piece sequence stands for the concatenation, in order, of the runs of
//! characters that its pieces name in the two backing buffers.

use crate::span::Ref;
use crate::weights::{
    lemma_sum_to_insert, lemma_sum_to_remove, lemma_sum_to_update, sum_to, total,
};
use vstd::prelude::*;

verus! {

/// Whether the run `r` lies inside its buffer, given the lengths of the two
/// buffers.
pub open spec fn in_bounds(r: Ref, original_len: nat, append_len: nat) -> bool {
    match r {
        Ref::Original(start, length) => start + length <= original_len,
        Ref::Append(start, length) => start + length <= append_len,
    }
}

/// Whether every piece lies inside its buffer.
pub open spec fn all_in_bounds(pieces: Seq<Ref>, original_len: nat, append_len: nat) -> bool {
    forall|i: int| 0 <= i < pieces.len() ==> in_bounds(#[trigger] pieces[i], original_len, append_len)
}

/// For each piece, one if it is empty and zero if it is not.
pub open spec fn blanks(pieces: Seq<Ref>) -> Seq<nat> {
    Seq::new(
        pieces.len(),
        |i: int|
            if pieces[i].length() == 0 {
                1nat
            } else {
                0nat
            },
    )
}

/// The characters that the run `r` names.
pub open spec fn resolve(r: Ref, original: Seq<char>, append: Seq<char>) -> Seq<char> {
    match r {
        Ref::Original(start, length) => original.subrange(start as int, start + length),
        Ref::Append(start, length) => append.subrange(start as int, start + length),
    }
}

/// The characters of all pieces, in order.
pub open spec fn text_of(pieces: Seq<Ref>, original: Seq<char>, append: Seq<char>) -> Seq<char>
    decreases pieces.len(),
{
    if pieces.len() == 0 {
        Seq::empty()
    } else {
        text_of(pieces.drop_last(), original, append) + resolve(pieces.last(), original, append)
    }
}

/// The lengths of the pieces, in order.
pub open spec fn lens(pieces: Seq<Ref>) -> Seq<nat> {
    Seq::new(pieces.len(), |i: int| pieces[i].length())
}

/// The text of a single piece is the run it names.
pub proof fn lemma_text_single(r: Ref, original: Seq<char>, append: Seq<char>)
    ensures
        text_of(seq![r], original, append) == resolve(r, original, append),
{
    reveal_with_fuel(text_of, 2);
    assert(seq![r].drop_last() =~= Seq::<Ref>::empty());
    assert(seq![r].last() == r);
    assert(text_of(seq![r], original, append) =~= resolve(r, original, append));
}

/// The text of two piece sequences in a row is the text of the first
/// followed by the text of the second.
pub proof fn lemma_text_concat(a: Seq<Ref>, b: Seq<Ref>, original: Seq<char>, append: Seq<char>)
    ensures
        text_of(a + b, original, append) == text_of(a, original, append) + text_of(
            b,
            original,
            append,
        ),
    decreases b.len(),
{
    if b.len() == 0 {
        assert(a + b =~= a);
        assert(text_of(a, original, append) + text_of(b, original, append) =~= text_of(
            a,
            original,
            append,
        ));
    } else {
        assert((a + b).drop_last() =~= a + b.drop_last());
        lemma_text_concat(a, b.drop_last(), original, append);
        assert(text_of(a + b, original, append) =~= text_of(a, original, append) + text_of(
            b,
            original,
            append,
        ));
    }
}

/// The text splits where the piece sequence is split.
pub proof fn lemma_text_split(pieces: Seq<Ref>, k: int, original: Seq<char>, append: Seq<char>)
    requires
        0 <= k <= pieces.len(),
    ensures
        text_of(pieces, original, append) == text_of(pieces.take(k), original, append) + text_of(
            pieces.skip(k),
            original,
            append,
        ),
{
    assert(pieces =~= pieces.take(k) + pieces.skip(k));
    lemma_text_concat(pieces.take(k), pieces.skip(k), original, append);
}

/// The text of the first `k` pieces is as long as their lengths add up to.
pub proof fn lemma_text_prefix_len(
    pieces: Seq<Ref>,
    k: int,
    original: Seq<char>,
    append: Seq<char>,
)
    requires
        0 <= k <= pieces.len(),
        all_in_bounds(pieces, original.len(), append.len()),
    ensures
        text_of(pieces.take(k), original, append).len() == sum_to(lens(pieces), k),
    decreases k,
{
    if k > 0 {
        lemma_text_prefix_len(pieces, k - 1, original, append);
        assert(pieces.take(k).drop_last() =~= pieces.take(k - 1));
        assert(in_bounds(pieces[k - 1], original.len(), append.len()));
    }
}

/// The text is as long as the lengths of the pieces add up to.
pub proof fn lemma_text_len(pieces: Seq<Ref>, original: Seq<char>, append: Seq<char>)
    requires
        all_in_bounds(pieces, original.len(), append.len()),
    ensures
        text_of(pieces, original, append).len() == sum_to(lens(pieces), pieces.len() as int),
{
    lemma_text_prefix_len(pieces, pieces.len() as int, original, append);
    assert(pieces.take(pieces.len() as int) =~= pieces);
}

/// The characters of piece `k` stand in the text right after the text of
/// the pieces before it.
pub proof fn lemma_text_index(
    pieces: Seq<Ref>,
    k: int,
    j: int,
    original: Seq<char>,
    append: Seq<char>,
)
    requires
        0 <= k < pieces.len(),
        0 <= j < pieces[k].length(),
        all_in_bounds(pieces, original.len(), append.len()),
    ensures
        sum_to(lens(pieces), k) + j < text_of(pieces, original, append).len(),
        text_of(pieces, original, append)[sum_to(lens(pieces), k) + j] == resolve(
            pieces[k],
            original,
            append,
        )[j],
{
    lemma_text_prefix_len(pieces, k, original, append);
    lemma_text_split(pieces, k + 1, original, append);
    assert(pieces.take(k + 1).drop_last() =~= pieces.take(k));
    assert(in_bounds(pieces[k], original.len(), append.len()));
}

/// Pieces inside the buffers keep their text when the append buffer grows.
pub proof fn lemma_text_stable(
    pieces: Seq<Ref>,
    original: Seq<char>,
    append: Seq<char>,
    longer: Seq<char>,
)
    requires
        all_in_bounds(pieces, original.len(), append.len()),
        append.len() <= longer.len(),
        longer.take(append.len() as int) == append,
    ensures
        text_of(pieces, original, longer) == text_of(pieces, original, append),
    decreases pieces.len(),
{
    if pieces.len() > 0 {
        lemma_text_stable(pieces.drop_last(), original, append, longer);
        lemma_resolve_stable(pieces.last(), original, append, longer);
    }
}

/// A run inside the buffers names the same characters when the append
/// buffer grows.
pub proof fn lemma_resolve_stable(
    r: Ref,
    original: Seq<char>,
    append: Seq<char>,
    longer: Seq<char>,
)
    requires
        in_bounds(r, original.len(), append.len()),
        append.len() <= longer.len(),
        longer.take(append.len() as int) == append,
    ensures
        resolve(r, original, longer) == resolve(r, original, append),
{
    assert forall|i: int| 0 <= i < append.len() implies longer[i] == append[i] by {
        assert(longer.take(append.len() as int)[i] == longer[i]);
    }
    assert(resolve(r, original, longer) =~= resolve(r, original, append));
}

/// The text of a piece sequence in which the pieces from `i` up to `j` have
/// given way to the pieces `mid`.
pub proof fn lemma_text_splice(
    pieces: Seq<Ref>,
    i: int,
    j: int,
    mid: Seq<Ref>,
    original: Seq<char>,
    append: Seq<char>,
)
    requires
        0 <= i <= j <= pieces.len(),
    ensures
        text_of(pieces.take(i) + mid + pieces.skip(j), original, append) == text_of(
            pieces.take(i),
            original,
            append,
        ) + text_of(mid, original, append) + text_of(pieces.skip(j), original, append),
{
    lemma_text_concat(pieces.take(i), mid, original, append);
    lemma_text_concat(pieces.take(i) + mid, pieces.skip(j), original, append);
}

/// The text of two pieces is the run of the first followed by the run of
/// the second.
pub proof fn lemma_text_pair(a: Ref, b: Ref, original: Seq<char>, append: Seq<char>)
    ensures
        text_of(seq![a, b], original, append) == resolve(a, original, append) + resolve(
            b,
            original,
            append,
        ),
{
    assert(seq![a, b].drop_last() =~= seq![a]);
    lemma_text_single(a, original, append);
}

/// The text of three pieces is their runs in a row.
pub proof fn lemma_text_triple(a: Ref, b: Ref, c: Ref, original: Seq<char>, append: Seq<char>)
    ensures
        text_of(seq![a, b, c], original, append) == resolve(a, original, append) + resolve(
            b,
            original,
            append,
        ) + resolve(c, original, append),
{
    assert(seq![a, b, c].drop_last() =~= seq![a, b]);
    lemma_text_pair(a, b, original, append);
}

/// There are no more pieces in a stretch than it has characters and empty
/// pieces together.
pub proof fn lemma_piece_count(pieces: Seq<Ref>, a: int, b: int)
    requires
        0 <= a <= b <= pieces.len(),
    ensures
        b - a <= (sum_to(lens(pieces), b) - sum_to(lens(pieces), a)) + (sum_to(blanks(pieces), b)
            - sum_to(blanks(pieces), a)),
    decreases b - a,
{
    if a < b {
        lemma_piece_count(pieces, a, b - 1);
    }
}

/// A new piece adds its length to the length of the whole.
pub proof fn lemma_total_insert(pieces: Seq<Ref>, k: int, r: Ref)
    requires
        0 <= k <= pieces.len(),
    ensures
        lens(pieces.insert(k, r)) == lens(pieces).insert(k, r.length()),
        total(lens(pieces.insert(k, r))) == total(lens(pieces)) + r.length(),
        total(blanks(pieces.insert(k, r))) == total(blanks(pieces)) + (if r.length() == 0 {
            1nat
        } else {
            0nat
        }),
{
    assert(lens(pieces.insert(k, r)) =~= lens(pieces).insert(k, r.length()));
    lemma_sum_to_insert(lens(pieces), k, r.length(), pieces.len() as int + 1);
    let blank = if r.length() == 0 {
        1nat
    } else {
        0nat
    };
    assert(blanks(pieces.insert(k, r)) =~= blanks(pieces).insert(k, blank));
    lemma_sum_to_insert(blanks(pieces), k, blank, pieces.len() as int + 1);
}

/// A piece that leaves takes its length from the length of the whole.
pub proof fn lemma_total_remove(pieces: Seq<Ref>, k: int)
    requires
        0 <= k < pieces.len(),
    ensures
        lens(pieces.remove(k)) == lens(pieces).remove(k),
        total(lens(pieces.remove(k))) == total(lens(pieces)) - pieces[k].length(),
        total(blanks(pieces.remove(k))) <= total(blanks(pieces)),
{
    assert(lens(pieces.remove(k)) =~= lens(pieces).remove(k));
    lemma_sum_to_remove(lens(pieces), k, pieces.len() as int - 1);
    assert(blanks(pieces.remove(k)) =~= blanks(pieces).remove(k));
    lemma_sum_to_remove(blanks(pieces), k, pieces.len() as int - 1);
}

/// A piece that gives way to another changes the length of the whole by the
/// difference of their lengths.
pub proof fn lemma_total_update(pieces: Seq<Ref>, k: int, r: Ref)
    requires
        0 <= k < pieces.len(),
    ensures
        lens(pieces.update(k, r)) == lens(pieces).update(k, r.length()),
        total(lens(pieces.update(k, r))) == total(lens(pieces)) - pieces[k].length() + r.length(),
        r.length() > 0 ==> total(blanks(pieces.update(k, r))) <= total(blanks(pieces)),
{
    assert(lens(pieces.update(k, r)) =~= lens(pieces).update(k, r.length()));
    lemma_sum_to_update(lens(pieces), k, r.length(), pieces.len() as int);
    if r.length() > 0 {
        assert(blanks(pieces.update(k, r)) =~= blanks(pieces).update(k, 0nat));
        lemma_sum_to_update(blanks(pieces), k, 0nat, pieces.len() as int);
    }
}

} // verus!
