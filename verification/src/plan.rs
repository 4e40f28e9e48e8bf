//! The edits that it takes to insert or to remove one character.
//!
//! An insertion or a removal at a character offset becomes one to four edits
//! of the piece sequence. Which ones depends on where the offset falls: at
//! the very start, on the boundary between two pieces, or inside a piece.

use crate::ops::{
    admissible, all_admissible, apply_all, lemma_all_admissible_push, lemma_apply_all_push, DocOp,
};
use crate::pieces::{
    all_in_bounds, blanks, in_bounds,
    lemma_text_len, lemma_text_pair, lemma_text_prefix_len, lemma_text_single,
    lemma_text_splice, lemma_text_stable, lemma_text_triple, lemma_total_insert,
    lemma_total_remove, lemma_total_update, lens, resolve, text_of,
};
use crate::span::Ref;
use crate::weights::{lemma_locate, locate, prefix, sum_to, total};
use vstd::prelude::*;

verus! {

/// The edits that put one character at `offset`, once that character stands
/// at the end of the append buffer, at `append_len`.
///
/// At offset zero a new piece of one character goes to the front. On the
/// boundary after a piece, that piece grows by one if it is the run that ends
/// where the append buffer ended; otherwise a new piece of one character
/// follows it. Inside a piece, that piece gives way to its part before the
/// offset, the new piece and its part from the offset on.
pub open spec fn insert_plan(pieces: Seq<Ref>, append_len: nat, offset: nat) -> Seq<DocOp> {
    let fresh = Ref::Append(append_len as usize, 1);
    if offset == 0 {
        seq![DocOp::Insert(0, fresh)]
    } else {
        match locate(lens(pieces), offset) {
            Ok(i) => {
                let piece = pieces[i as int];
                if piece.in_append() && piece.end() == append_len {
                    seq![DocOp::Replace(i, piece, piece.head(piece.length() + 1))]
                } else {
                    seq![DocOp::Insert((i + 1) as usize, fresh)]
                }
            },
            Err(i) => {
                let piece = pieces[i as int];
                let at = (offset - sum_to(lens(pieces), i as int)) as nat;
                seq![
                    DocOp::Remove(i, piece),
                    DocOp::Insert(i, piece.head(at)),
                    DocOp::Insert((i + 1) as usize, fresh),
                    DocOp::Insert((i + 2) as usize, piece.tail(at)),
                ]
            },
        }
    }
}

/// The edits that take the first character out of piece `k`: the piece
/// loses its first character, or leaves if that was its only one.
pub open spec fn behead(pieces: Seq<Ref>, k: int) -> Seq<DocOp> {
    let piece = pieces[k];
    if piece.length() > 1 {
        seq![DocOp::Replace(k as usize, piece, piece.tail(1))]
    } else {
        seq![DocOp::Remove(k as usize, piece)]
    }
}

/// The edits that take the character at `offset` out of the text.
///
/// At offset zero the first piece loses its first character, unless it is
/// empty. On the boundary before a piece, that piece loses its first
/// character. Inside a piece, that piece gives way to its part before the
/// offset and its part after the character, or to the part before alone if
/// the character was its last. A piece that would be left empty leaves.
pub open spec fn remove_plan(pieces: Seq<Ref>, offset: nat) -> Seq<DocOp> {
    if offset == 0 && pieces.len() > 0 && pieces[0].length() > 0 {
        behead(pieces, 0)
    } else {
        match locate(lens(pieces), offset) {
            Ok(i) => behead(pieces, i + 1),
            Err(i) => {
                let piece = pieces[i as int];
                let at = (offset - sum_to(lens(pieces), i as int)) as nat;
                if piece.length() - at > 1 {
                    seq![
                        DocOp::Remove(i, piece),
                        DocOp::Insert(i, piece.head(at)),
                        DocOp::Insert((i + 1) as usize, piece.tail(at + 1)),
                    ]
                } else {
                    seq![DocOp::Replace(i, piece, piece.head(at))]
                }
            },
        }
    }
}

/// Whether `after` has at most `extra` more pieces than `before`, and no
/// more empty ones.
pub open spec fn adds_at_most(before: Seq<Ref>, after: Seq<Ref>, extra: int) -> bool {
    &&& after.len() <= before.len() + extra
    &&& total(blanks(after)) <= total(blanks(before))
}

/// Whether the run `r` lies inside the run `piece`, in the same buffer.
pub open spec fn part_of(r: Ref, piece: Ref) -> bool {
    &&& r.in_append() == piece.in_append()
    &&& piece.start() <= r.start()
    &&& r.end() <= piece.end()
}

/// An insertion never moves what a piece refers to. The one piece that it
/// may put in the place of another is the run that ended where the append
/// buffer ended, with the same start and one character more. Every piece
/// that it brings in is the run of the new character or a part of the piece
/// that it takes out.
pub proof fn lemma_insert_plan_spans(pieces: Seq<Ref>, append_len: nat, offset: nat)
    requires
        append_len < usize::MAX,
        pieces.len() <= usize::MAX,
        forall|i: int| 0 <= i < pieces.len() ==> (#[trigger] pieces[i]).end() <= usize::MAX,
        0 < offset ==> offset <= total(lens(pieces)),
    ensures
        forall|k: int|
            0 <= k < insert_plan(pieces, append_len, offset).len() ==> match #[trigger] insert_plan(
                pieces,
                append_len,
                offset,
            )[k] {
                DocOp::Replace(pos, prev, new) => {
                    &&& prev.in_append()
                    &&& new.in_append()
                    &&& prev.end() == append_len
                    &&& new.start() == prev.start()
                    &&& new.length() == prev.length() + 1
                },
                DocOp::Insert(_, piece) => {
                    ||| piece == Ref::Append(append_len as usize, 1)
                    ||| exists|i: int| 0 <= i < pieces.len() && part_of(piece, pieces[i])
                },
                DocOp::Remove(pos, piece) => pos < pieces.len() && pieces[pos as int] == piece,
            },
{
    let plan = insert_plan(pieces, append_len, offset);
    if offset > 0 {
        lemma_locate(lens(pieces), offset);
        match locate(lens(pieces), offset) {
            Ok(i) => {},
            Err(i) => {
                if i as int >= pieces.len() {
                    assert(prefix(lens(pieces), pieces.len() - 1) == total(lens(pieces)));
                }
                let piece = pieces[i as int];
                let at = (offset - sum_to(lens(pieces), i as int)) as nat;
                assert(piece.end() <= usize::MAX);
                assert(part_of(piece.head(at), pieces[i as int]));
                assert(part_of(piece.tail(at), pieces[i as int]));
            },
        }
    }
}

/// A removal only ever shortens what a piece refers to: every piece that it
/// brings in, in the place of another or beside it, is a part of the piece
/// that held the character.
pub proof fn lemma_remove_plan_spans(pieces: Seq<Ref>, offset: nat)
    requires
        pieces.len() <= usize::MAX,
        forall|i: int| 0 <= i < pieces.len() ==> (#[trigger] pieces[i]).end() <= usize::MAX,
        offset < total(lens(pieces)),
    ensures
        forall|k: int|
            0 <= k < remove_plan(pieces, offset).len() ==> match #[trigger] remove_plan(
                pieces,
                offset,
            )[k] {
                DocOp::Replace(pos, prev, new) => {
                    &&& pos < pieces.len()
                    &&& pieces[pos as int] == prev
                    &&& part_of(new, prev)
                },
                DocOp::Insert(_, piece) => exists|i: int|
                    0 <= i < pieces.len() && part_of(piece, pieces[i]),
                DocOp::Remove(pos, piece) => pos < pieces.len() && pieces[pos as int] == piece,
            },
{
    let w = lens(pieces);
    let n = pieces.len() as int;
    if offset == 0 && n > 0 && pieces[0].length() > 0 {
        assert(part_of(pieces[0].tail(1), pieces[0]));
    } else {
        lemma_locate(w, offset);
        match locate(w, offset) {
            Ok(i) => {
                if i + 1 >= n {
                    assert(prefix(w, n - 1) == total(w));
                }
                assert(w[i + 1] == pieces[i + 1].length());
                assert(part_of(pieces[i + 1].tail(1), pieces[i + 1]));
            },
            Err(i) => {
                if i as int >= n {
                    assert(prefix(w, n - 1) == total(w));
                }
                let piece = pieces[i as int];
                let at = (offset - sum_to(w, i as int)) as nat;
                assert(piece.end() <= usize::MAX);
                assert(part_of(piece.head(at), pieces[i as int]));
                assert(part_of(piece.tail(at + 1), pieces[i as int]));
            },
        }
    }
}

/// A single edit, run alone.
proof fn lemma_one(op: DocOp, pieces: Seq<Ref>, original_len: nat, append_len: nat)
    ensures
        apply_all(pieces, seq![op]) == op.apply(pieces),
        all_admissible(seq![op], pieces, original_len, append_len) == admissible(
            op,
            pieces,
            original_len,
            append_len,
        ),
{
    reveal_with_fuel(apply_all, 2);
    reveal_with_fuel(all_admissible, 2);
    assert(seq![op].drop_first() =~= Seq::<DocOp>::empty());
}

/// A piece cut in two names the characters of its two parts in a row.
proof fn lemma_resolve_cut(r: Ref, at: nat, original: Seq<char>, append: Seq<char>)
    requires
        in_bounds(r, original.len(), append.len()),
        at <= r.length(),
        r.end() <= usize::MAX,
    ensures
        resolve(r, original, append) == resolve(r.head(at), original, append) + resolve(
            r.tail(at),
            original,
            append,
        ),
        resolve(r.head(at), original, append).len() == at,
        in_bounds(r.head(at), original.len(), append.len()),
        in_bounds(r.tail(at), original.len(), append.len()),
        r.head(at).length() == at,
        r.tail(at).length() == r.length() - at,
{
    assert(resolve(r, original, append) =~= resolve(r.head(at), original, append) + resolve(
        r.tail(at),
        original,
        append,
    ));
}

/// The text around piece `i`: the text of the pieces before it, its own
/// run, and the text of the pieces after it.
proof fn lemma_text_around(pieces: Seq<Ref>, i: int, original: Seq<char>, append: Seq<char>)
    requires
        0 <= i < pieces.len(),
        all_in_bounds(pieces, original.len(), append.len()),
    ensures
        text_of(pieces, original, append) == text_of(pieces.take(i), original, append) + resolve(
            pieces[i],
            original,
            append,
        ) + text_of(pieces.skip(i + 1), original, append),
        text_of(pieces.take(i), original, append).len() == sum_to(lens(pieces), i),
        resolve(pieces[i], original, append).len() == pieces[i].length(),
{
    assert(pieces =~= pieces.take(i) + seq![pieces[i]] + pieces.skip(i + 1));
    lemma_text_splice(pieces, i, i + 1, seq![pieces[i]], original, append);
    lemma_text_single(pieces[i], original, append);
    lemma_text_prefix_len(pieces, i, original, append);
    assert(in_bounds(pieces[i], original.len(), append.len()));
}

/// Putting the piece `r` at position `k` puts its run into the text where
/// the text of the first `k` pieces ends.
proof fn lemma_text_insert(
    pieces: Seq<Ref>,
    k: int,
    r: Ref,
    original: Seq<char>,
    append: Seq<char>,
)
    requires
        0 <= k <= pieces.len(),
        all_in_bounds(pieces, original.len(), append.len()),
    ensures
        text_of(pieces.insert(k, r), original, append) == text_of(
            pieces.take(k),
            original,
            append,
        ) + resolve(r, original, append) + text_of(pieces.skip(k), original, append),
        text_of(pieces, original, append) == text_of(pieces.take(k), original, append) + text_of(
            pieces.skip(k),
            original,
            append,
        ),
        text_of(pieces.take(k), original, append).len() == sum_to(lens(pieces), k),
{
    assert(pieces.insert(k, r) =~= pieces.take(k) + seq![r] + pieces.skip(k));
    lemma_text_splice(pieces, k, k, seq![r], original, append);
    lemma_text_single(r, original, append);
    crate::pieces::lemma_text_split(pieces, k, original, append);
    lemma_text_prefix_len(pieces, k, original, append);
}

/// What holds of well-formed pieces once the character `c` stands at the
/// end of the append buffer: the pieces lie inside the buffers and name the
/// text they named before, and the run of one character at the old end of
/// the append buffer names `c`.
proof fn lemma_grown(pieces: Seq<Ref>, original: Seq<char>, append: Seq<char>, c: char)
    requires
        all_in_bounds(pieces, original.len(), append.len()),
        append.len() < usize::MAX,
    ensures
        all_in_bounds(pieces, original.len(), append.len() + 1),
        text_of(pieces, original, append.push(c)) == text_of(pieces, original, append),
        resolve(Ref::Append(append.len() as usize, 1), original, append.push(c)) == seq![c],
        in_bounds(Ref::Append(append.len() as usize, 1), original.len(), append.len() + 1),
        text_of(pieces, original, append).len() == total(lens(pieces)),
{
    let grown = append.push(c);
    assert(grown.take(append.len() as int) =~= append);
    lemma_text_stable(pieces, original, append, grown);
    lemma_text_len(pieces, original, append);
    assert(resolve(Ref::Append(append.len() as usize, 1), original, grown) =~= seq![c]);
    assert forall|i: int| 0 <= i < pieces.len() implies in_bounds(
        #[trigger] pieces[i],
        original.len(),
        append.len() + 1,
    ) by {
        assert(in_bounds(pieces[i], original.len(), append.len()));
    }
}

/// Inserting on a piece boundary: a new piece of one character at position
/// `k` puts `c` into the text where the first `k` pieces end.
proof fn lemma_insert_between(
    pieces: Seq<Ref>,
    original: Seq<char>,
    append: Seq<char>,
    k: int,
    c: char,
)
    requires
        all_in_bounds(pieces, original.len(), append.len()),
        text_of(pieces, original, append).len() < usize::MAX,
        append.len() < usize::MAX,
        0 <= k <= pieces.len() < usize::MAX,
    ensures
        all_admissible(
            seq![DocOp::Insert(k as usize, Ref::Append(append.len() as usize, 1))],
            pieces,
            original.len(),
            append.len() + 1,
        ),
        adds_at_most(
            pieces,
            apply_all(
                pieces,
                seq![DocOp::Insert(k as usize, Ref::Append(append.len() as usize, 1))],
            ),
            1,
        ),
        text_of(
            apply_all(
                pieces,
                seq![DocOp::Insert(k as usize, Ref::Append(append.len() as usize, 1))],
            ),
            original,
            append.push(c),
        ) == text_of(pieces, original, append).insert(sum_to(lens(pieces), k) as int, c),
{
    let grown = append.push(c);
    let fresh = Ref::Append(append.len() as usize, 1);
    let t = text_of(pieces, original, append);
    lemma_grown(pieces, original, append, c);
    let op = DocOp::Insert(k as usize, fresh);
    lemma_one(op, pieces, original.len(), grown.len());
    lemma_total_insert(pieces, k, fresh);
    lemma_text_insert(pieces, k, fresh, original, grown);
    assert(text_of(pieces.insert(k, fresh), original, grown) =~= t.insert(
        sum_to(lens(pieces), k) as int,
        c,
    ));
}

/// Inserting at the end of the piece that ends where the append buffer
/// ended: that piece, grown by one, puts `c` into the text right after it.
proof fn lemma_insert_extend(
    pieces: Seq<Ref>,
    original: Seq<char>,
    append: Seq<char>,
    i: int,
    c: char,
)
    requires
        all_in_bounds(pieces, original.len(), append.len()),
        text_of(pieces, original, append).len() < usize::MAX,
        append.len() < usize::MAX,
        0 <= i < pieces.len() <= usize::MAX,
        pieces[i].in_append(),
        pieces[i].end() == append.len(),
    ensures
        all_admissible(
            seq![DocOp::Replace(i as usize, pieces[i], pieces[i].head(pieces[i].length() + 1))],
            pieces,
            original.len(),
            append.len() + 1,
        ),
        adds_at_most(
            pieces,
            apply_all(
                pieces,
                seq![
                    DocOp::Replace(i as usize, pieces[i], pieces[i].head(pieces[i].length() + 1)),
                ],
            ),
            0,
        ),
        text_of(
            apply_all(
                pieces,
                seq![
                    DocOp::Replace(i as usize, pieces[i], pieces[i].head(pieces[i].length() + 1)),
                ],
            ),
            original,
            append.push(c),
        ) == text_of(pieces, original, append).insert(sum_to(lens(pieces), i + 1) as int, c),
{
    let grown = append.push(c);
    let t = text_of(pieces, original, append);
    let piece = pieces[i];
    let longer = piece.head(piece.length() + 1);
    lemma_grown(pieces, original, append, c);
    lemma_text_around(pieces, i, original, grown);
    let op = DocOp::Replace(i as usize, piece, longer);
    lemma_one(op, pieces, original.len(), grown.len());
    lemma_total_update(pieces, i, longer);
    assert(pieces.update(i, longer) =~= pieces.take(i) + seq![longer] + pieces.skip(i + 1));
    lemma_text_splice(pieces, i, i + 1, seq![longer], original, grown);
    lemma_text_single(longer, original, grown);
    assert(resolve(longer, original, grown) =~= resolve(piece, original, grown) + seq![c]);
    assert(text_of(pieces.update(i, longer), original, grown) =~= t.insert(
        sum_to(lens(pieces), i + 1) as int,
        c,
    ));
}

/// Three pieces in the place of piece `i`, as four edits: the piece leaves,
/// and the three come in one after the other.
proof fn lemma_three_for_one(
    pieces: Seq<Ref>,
    i: int,
    a: Ref,
    b: Ref,
    c: Ref,
    original_len: nat,
    append_len: nat,
)
    requires
        0 <= i < pieces.len() <= usize::MAX - 2,
        in_bounds(a, original_len, append_len),
        in_bounds(b, original_len, append_len),
        in_bounds(c, original_len, append_len),
        a.length() > 0,
        b.length() > 0,
        c.length() > 0,
        total(lens(pieces)) - pieces[i].length() + a.length() + b.length() + c.length()
            <= usize::MAX,
    ensures
        all_admissible(
            seq![
                DocOp::Remove(i as usize, pieces[i]),
                DocOp::Insert(i as usize, a),
                DocOp::Insert((i + 1) as usize, b),
                DocOp::Insert((i + 2) as usize, c),
            ],
            pieces,
            original_len,
            append_len,
        ),
        apply_all(
            pieces,
            seq![
                DocOp::Remove(i as usize, pieces[i]),
                DocOp::Insert(i as usize, a),
                DocOp::Insert((i + 1) as usize, b),
                DocOp::Insert((i + 2) as usize, c),
            ],
        ) == pieces.take(i) + seq![a, b, c] + pieces.skip(i + 1),
        adds_at_most(pieces, pieces.take(i) + seq![a, b, c] + pieces.skip(i + 1), 2),
{
    let op1 = DocOp::Remove(i as usize, pieces[i]);
    let op2 = DocOp::Insert(i as usize, a);
    let op3 = DocOp::Insert((i + 1) as usize, b);
    let op4 = DocOp::Insert((i + 2) as usize, c);
    let ops = seq![op1, op2, op3, op4];
    let q1 = pieces.remove(i);
    let q2 = q1.insert(i, a);
    let q3 = q2.insert(i + 1, b);
    let q4 = q3.insert(i + 2, c);
    assert(ops =~= seq![op1].push(op2).push(op3).push(op4));
    lemma_one(op1, pieces, original_len, append_len);
    lemma_apply_all_push(pieces, seq![op1], op2);
    lemma_apply_all_push(pieces, seq![op1].push(op2), op3);
    lemma_apply_all_push(pieces, seq![op1].push(op2).push(op3), op4);
    lemma_total_remove(pieces, i);
    lemma_total_insert(q1, i, a);
    lemma_total_insert(q2, i + 1, b);
    lemma_total_insert(q3, i + 2, c);
    lemma_all_admissible_push(seq![op1], op2, pieces, original_len, append_len);
    lemma_all_admissible_push(seq![op1].push(op2), op3, pieces, original_len, append_len);
    lemma_all_admissible_push(
        seq![op1].push(op2).push(op3),
        op4,
        pieces,
        original_len,
        append_len,
    );
    assert(q4 =~= pieces.take(i) + seq![a, b, c] + pieces.skip(i + 1));
}

/// Inserting inside piece `i`, `at` characters into it: the part before,
/// a new piece of one character and the part after, in the place of the
/// piece, put `c` into the text at that point.
proof fn lemma_insert_split(
    pieces: Seq<Ref>,
    original: Seq<char>,
    append: Seq<char>,
    i: int,
    at: nat,
    c: char,
)
    requires
        all_in_bounds(pieces, original.len(), append.len()),
        text_of(pieces, original, append).len() < usize::MAX,
        original.len() <= usize::MAX,
        append.len() < usize::MAX,
        0 <= i < pieces.len() <= usize::MAX - 2,
        0 < at < pieces[i].length(),
    ensures
        all_admissible(
            seq![
                DocOp::Remove(i as usize, pieces[i]),
                DocOp::Insert(i as usize, pieces[i].head(at)),
                DocOp::Insert((i + 1) as usize, Ref::Append(append.len() as usize, 1)),
                DocOp::Insert((i + 2) as usize, pieces[i].tail(at)),
            ],
            pieces,
            original.len(),
            append.len() + 1,
        ),
        adds_at_most(
            pieces,
            apply_all(
                pieces,
                seq![
                    DocOp::Remove(i as usize, pieces[i]),
                    DocOp::Insert(i as usize, pieces[i].head(at)),
                    DocOp::Insert((i + 1) as usize, Ref::Append(append.len() as usize, 1)),
                    DocOp::Insert((i + 2) as usize, pieces[i].tail(at)),
                ],
            ),
            2,
        ),
        text_of(
            apply_all(
                pieces,
                seq![
                    DocOp::Remove(i as usize, pieces[i]),
                    DocOp::Insert(i as usize, pieces[i].head(at)),
                    DocOp::Insert((i + 1) as usize, Ref::Append(append.len() as usize, 1)),
                    DocOp::Insert((i + 2) as usize, pieces[i].tail(at)),
                ],
            ),
            original,
            append.push(c),
        ) == text_of(pieces, original, append).insert((sum_to(lens(pieces), i) + at) as int, c),
{
    let grown = append.push(c);
    let t = text_of(pieces, original, append);
    let fresh = Ref::Append(append.len() as usize, 1);
    let piece = pieces[i];
    let before = piece.head(at);
    let after = piece.tail(at);
    lemma_grown(pieces, original, append, c);
    assert(in_bounds(piece, original.len(), grown.len()));
    lemma_resolve_cut(piece, at, original, grown);
    lemma_three_for_one(pieces, i, before, fresh, after, original.len(), grown.len());
    let q = pieces.take(i) + seq![before, fresh, after] + pieces.skip(i + 1);
    assert(text_of(q, original, grown) == t.insert((sum_to(lens(pieces), i) + at) as int, c)) by {
        lemma_text_around(pieces, i, original, grown);
        lemma_text_splice(pieces, i, i + 1, seq![before, fresh, after], original, grown);
        lemma_text_triple(before, fresh, after, original, grown);
        let head = text_of(pieces.take(i), original, grown);
        let rest = text_of(pieces.skip(i + 1), original, grown);
        let left = resolve(before, original, grown);
        let right = resolve(after, original, grown);
        assert(t == head + (left + right) + rest);
        assert(text_of(q, original, grown) == head + (left + seq![c] + right) + rest);
        assert(head + (left + seq![c] + right) + rest =~= (head + (left + right) + rest).insert(
            (head.len() + left.len()) as int,
            c,
        ));
    }
}

/// The edits of `insert_plan` can be run on well-formed pieces once the new
/// character stands at the end of the append buffer, and they put that
/// character into the text at `offset`.
pub proof fn lemma_insert_plan(
    pieces: Seq<Ref>,
    original: Seq<char>,
    append: Seq<char>,
    offset: nat,
    c: char,
)
    requires
        all_in_bounds(pieces, original.len(), append.len()),
        offset <= text_of(pieces, original, append).len() < usize::MAX,
        pieces.len() + 2 <= usize::MAX,
        original.len() <= usize::MAX,
        append.len() < usize::MAX,
    ensures
        all_admissible(
            insert_plan(pieces, append.len(), offset),
            pieces,
            original.len(),
            append.len() + 1,
        ),
        adds_at_most(pieces, apply_all(pieces, insert_plan(pieces, append.len(), offset)), 2),
        text_of(
            apply_all(pieces, insert_plan(pieces, append.len(), offset)),
            original,
            append.push(c),
        ) == text_of(pieces, original, append).insert(offset as int, c),
{
    let w = lens(pieces);
    let n = pieces.len() as int;
    lemma_text_len(pieces, original, append);
    if offset == 0 {
        lemma_insert_between(pieces, original, append, 0, c);
    } else {
        lemma_locate(w, offset);
        match locate(w, offset) {
            Ok(i) => {
                let piece = pieces[i as int];
                if piece.in_append() && piece.end() == append.len() {
                    lemma_insert_extend(pieces, original, append, i as int, c);
                } else {
                    lemma_insert_between(pieces, original, append, i + 1, c);
                }
            },
            Err(i) => {
                if i as int >= n {
                    assert(prefix(w, n - 1) == total(w));
                }
                let at = (offset - sum_to(w, i as int)) as nat;
                assert(w[i as int] == pieces[i as int].length());
                assert(pieces[i as int].length() >= 2);
                lemma_insert_split(pieces, original, append, i as int, at, c);
            },
        }
    }
}

/// Two pieces in the place of piece `i`, as three edits: the piece leaves,
/// and the two come in one after the other.
proof fn lemma_two_for_one(
    pieces: Seq<Ref>,
    i: int,
    a: Ref,
    b: Ref,
    original_len: nat,
    append_len: nat,
)
    requires
        0 <= i < pieces.len() <= usize::MAX - 1,
        in_bounds(a, original_len, append_len),
        in_bounds(b, original_len, append_len),
        a.length() > 0,
        b.length() > 0,
        total(lens(pieces)) - pieces[i].length() + a.length() + b.length() <= usize::MAX,
    ensures
        all_admissible(
            seq![
                DocOp::Remove(i as usize, pieces[i]),
                DocOp::Insert(i as usize, a),
                DocOp::Insert((i + 1) as usize, b),
            ],
            pieces,
            original_len,
            append_len,
        ),
        apply_all(
            pieces,
            seq![
                DocOp::Remove(i as usize, pieces[i]),
                DocOp::Insert(i as usize, a),
                DocOp::Insert((i + 1) as usize, b),
            ],
        ) == pieces.take(i) + seq![a, b] + pieces.skip(i + 1),
        adds_at_most(pieces, pieces.take(i) + seq![a, b] + pieces.skip(i + 1), 1),
{
    let op1 = DocOp::Remove(i as usize, pieces[i]);
    let op2 = DocOp::Insert(i as usize, a);
    let op3 = DocOp::Insert((i + 1) as usize, b);
    let ops = seq![op1, op2, op3];
    let q1 = pieces.remove(i);
    let q2 = q1.insert(i, a);
    let q3 = q2.insert(i + 1, b);
    assert(ops =~= seq![op1].push(op2).push(op3));
    lemma_one(op1, pieces, original_len, append_len);
    lemma_apply_all_push(pieces, seq![op1], op2);
    lemma_apply_all_push(pieces, seq![op1].push(op2), op3);
    lemma_total_remove(pieces, i);
    lemma_total_insert(q1, i, a);
    lemma_total_insert(q2, i + 1, b);
    lemma_all_admissible_push(seq![op1], op2, pieces, original_len, append_len);
    lemma_all_admissible_push(seq![op1].push(op2), op3, pieces, original_len, append_len);
    assert(q3 =~= pieces.take(i) + seq![a, b] + pieces.skip(i + 1));
}

/// Taking the first character out of piece `k` takes out of the text the
/// character at which that piece starts.
proof fn lemma_behead(pieces: Seq<Ref>, original: Seq<char>, append: Seq<char>, k: int)
    requires
        all_in_bounds(pieces, original.len(), append.len()),
        text_of(pieces, original, append).len() <= usize::MAX,
        original.len() <= usize::MAX,
        append.len() <= usize::MAX,
        0 <= k < pieces.len() <= usize::MAX,
        pieces[k].length() > 0,
    ensures
        all_admissible(behead(pieces, k), pieces, original.len(), append.len()),
        adds_at_most(pieces, apply_all(pieces, behead(pieces, k)), 0),
        text_of(apply_all(pieces, behead(pieces, k)), original, append) == text_of(
            pieces,
            original,
            append,
        ).remove(sum_to(lens(pieces), k) as int),
{
    let t = text_of(pieces, original, append);
    let piece = pieces[k];
    lemma_text_len(pieces, original, append);
    lemma_text_around(pieces, k, original, append);
    let head = text_of(pieces.take(k), original, append);
    let rest = text_of(pieces.skip(k + 1), original, append);
    let run = resolve(piece, original, append);
    if piece.length() > 1 {
        let shorter = piece.tail(1);
        let op = DocOp::Replace(k as usize, piece, shorter);
        lemma_resolve_cut(piece, 1, original, append);
        lemma_one(op, pieces, original.len(), append.len());
        lemma_total_update(pieces, k, shorter);
        assert(pieces.update(k, shorter) =~= pieces.take(k) + seq![shorter] + pieces.skip(k + 1));
        lemma_text_splice(pieces, k, k + 1, seq![shorter], original, append);
        lemma_text_single(shorter, original, append);
        let left = resolve(piece.head(1), original, append);
        let right = resolve(shorter, original, append);
        assert(head + right + rest =~= (head + (left + right) + rest).remove(head.len() as int));
    } else {
        let op = DocOp::Remove(k as usize, piece);
        lemma_one(op, pieces, original.len(), append.len());
        lemma_total_remove(pieces, k);
        assert(pieces.remove(k) =~= pieces.take(k) + Seq::<Ref>::empty() + pieces.skip(k + 1));
        lemma_text_splice(pieces, k, k + 1, Seq::<Ref>::empty(), original, append);
        assert(head + Seq::<char>::empty() + rest =~= (head + run + rest).remove(
            head.len() as int,
        ));
    }
}

/// Taking out the character that stands `at` characters into piece `i`:
/// the part before it and the part after it, in the place of the piece,
/// leave the text without that character.
proof fn lemma_remove_inside(
    pieces: Seq<Ref>,
    original: Seq<char>,
    append: Seq<char>,
    i: int,
    at: nat,
)
    requires
        all_in_bounds(pieces, original.len(), append.len()),
        text_of(pieces, original, append).len() <= usize::MAX,
        original.len() <= usize::MAX,
        append.len() <= usize::MAX,
        0 <= i < pieces.len() <= usize::MAX,
        pieces[i].length() - at > 1 ==> pieces.len() <= usize::MAX - 1,
        0 < at < pieces[i].length(),
    ensures
        pieces[i].length() - at > 1 ==> {
            let ops = seq![
                DocOp::Remove(i as usize, pieces[i]),
                DocOp::Insert(i as usize, pieces[i].head(at)),
                DocOp::Insert((i + 1) as usize, pieces[i].tail(at + 1)),
            ];
            &&& all_admissible(ops, pieces, original.len(), append.len())
            &&& adds_at_most(pieces, apply_all(pieces, ops), 1)
            &&& text_of(apply_all(pieces, ops), original, append) == text_of(
                pieces,
                original,
                append,
            ).remove((sum_to(lens(pieces), i) + at) as int)
        },
        pieces[i].length() - at <= 1 ==> {
            let ops = seq![DocOp::Replace(i as usize, pieces[i], pieces[i].head(at))];
            &&& all_admissible(ops, pieces, original.len(), append.len())
            &&& adds_at_most(pieces, apply_all(pieces, ops), 1)
            &&& text_of(apply_all(pieces, ops), original, append) == text_of(
                pieces,
                original,
                append,
            ).remove((sum_to(lens(pieces), i) + at) as int)
        },
{
    let t = text_of(pieces, original, append);
    let piece = pieces[i];
    let before = piece.head(at);
    lemma_text_len(pieces, original, append);
    lemma_text_around(pieces, i, original, append);
    assert(in_bounds(piece, original.len(), append.len()));
    lemma_resolve_cut(piece, at, original, append);
    lemma_resolve_cut(piece, at + 1, original, append);
    let head = text_of(pieces.take(i), original, append);
    let rest = text_of(pieces.skip(i + 1), original, append);
    let run = resolve(piece, original, append);
    let left = resolve(before, original, append);
    if piece.length() - at > 1 {
        let after = piece.tail(at + 1);
        let right = resolve(after, original, append);
        lemma_two_for_one(pieces, i, before, after, original.len(), append.len());
        lemma_text_splice(pieces, i, i + 1, seq![before, after], original, append);
        lemma_text_pair(before, after, original, append);
        assert(left =~= run.take(at as int));
        assert(right =~= run.skip(at as int + 1));
        assert(head + (left + right) + rest =~= (head + run + rest).remove((head.len() + at) as int));
    } else {
        let op = DocOp::Replace(i as usize, piece, before);
        lemma_one(op, pieces, original.len(), append.len());
        lemma_total_update(pieces, i, before);
        assert(pieces.update(i, before) =~= pieces.take(i) + seq![before] + pieces.skip(i + 1));
        lemma_text_splice(pieces, i, i + 1, seq![before], original, append);
        lemma_text_single(before, original, append);
        assert(left =~= run.take(at as int));
        assert(head + left + rest =~= (head + run + rest).remove((head.len() + at) as int));
    }
}

/// The edits of `remove_plan` can be run on well-formed pieces, and they
/// take the character at `offset` out of the text.
pub proof fn lemma_remove_plan(
    pieces: Seq<Ref>,
    original: Seq<char>,
    append: Seq<char>,
    offset: nat,
)
    requires
        all_in_bounds(pieces, original.len(), append.len()),
        offset < text_of(pieces, original, append).len() <= usize::MAX,
        original.len() <= usize::MAX,
        append.len() <= usize::MAX,
        pieces.len() + 1 <= usize::MAX,
    ensures
        all_admissible(remove_plan(pieces, offset), pieces, original.len(), append.len()),
        adds_at_most(pieces, apply_all(pieces, remove_plan(pieces, offset)), 1),
        text_of(apply_all(pieces, remove_plan(pieces, offset)), original, append) == text_of(
            pieces,
            original,
            append,
        ).remove(offset as int),
{
    let w = lens(pieces);
    let n = pieces.len() as int;
    lemma_text_len(pieces, original, append);
    if offset == 0 && n > 0 && pieces[0].length() > 0 {
        lemma_behead(pieces, original, append, 0);
    } else {
        lemma_locate(w, offset);
        match locate(w, offset) {
            Ok(i) => {
                if i + 1 >= n {
                    assert(prefix(w, n - 1) == total(w));
                }
                assert(w[i + 1] == pieces[i + 1].length());
                lemma_behead(pieces, original, append, i + 1);
            },
            Err(i) => {
                if i as int >= n {
                    assert(prefix(w, n - 1) == total(w));
                }
                assert(w[i as int] == pieces[i as int].length());
                if offset == 0 {
                    assert(w[0] == pieces[0].length());
                }
                let at = (offset - sum_to(w, i as int)) as nat;
                lemma_remove_inside(pieces, original, append, i as int, at);
            },
        }
    }
}

} // verus!
