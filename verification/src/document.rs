//! The editable document: a piece table over two backing buffers, with an
//! index from character offsets to pieces.

use crate::chars::{chars_of, string_of};
use crate::fenwick::Fenwick;
use crate::lines::{
    first_break, last_break, lemma_first_break, lemma_last_break, lemma_last_break_beyond,
    next_break, prev_break,
};
use crate::ops::{admissible, all_admissible, apply_all, DocOp};
use crate::pieces::{
    all_in_bounds, in_bounds, lemma_text_index, lemma_text_len, lemma_text_single, lens, resolve,
    text_of,
};
use crate::plan::{
    adds_at_most, behead, insert_plan, lemma_insert_plan, lemma_remove_plan, remove_plan,
};
use crate::span::Ref;
use crate::weights::{
    adjusted, lemma_count_within, lemma_locate_prefix, lemma_sum_to_beyond, lemma_sum_to_update,
    lemma_total_adjusted, locate, padded, prefix, slots_within, sum_to, total,
};
use vstd::prelude::*;

verus! {

/// A backing buffer of characters.
pub struct Buffer {
    text: Vec<char>,
}

impl View for Buffer {
    type V = Seq<char>;

    closed spec fn view(&self) -> Seq<char> {
        self.text@
    }
}

/// The offset that `get` was asked for lies at or beyond the end of the
/// document.
#[derive(Copy, Clone, Debug, PartialEq, Eq, Structural)]
pub struct RangeError {
    /// The offset asked for.
    pub offset: usize,
    /// The length of the document.
    pub len: usize,
}

/// A text under edit. Its characters are those of its pieces, in order; each
/// piece is a run in the original buffer, which never changes, or in the
/// append buffer, which only grows at its end.
pub struct Document {
    original: Buffer,
    append: Buffer,
    pieces: Vec<Ref>,
    length_sum: Fenwick,
}

impl View for Document {
    type V = Seq<char>;

    /// The text of the document.
    open spec fn view(&self) -> Seq<char> {
        text_of(self.pieces(), self.original(), self.append())
    }
}

/// The weights of an index on its way from `l` to `l` with a zero weight put
/// in at `idx`, when the weights before `i` have been moved up by one slot.
spec fn moved_up(l: Seq<nat>, idx: int, i: int) -> Seq<nat> {
    Seq::new(
        if i < l.len() || i == idx {
            l.len()
        } else {
            l.len() + 1
        },
        |j: int|
            if i == idx || j < idx {
                l[j]
            } else if j == idx {
                0
            } else if j < i {
                l[j - 1]
            } else if j == i {
                l[i - 1] + (if i < l.len() {
                    l[i]
                } else {
                    0
                })
            } else {
                l[j]
            },
    )
}

/// The weights of an index on its way from `l` to `l` without the weight at
/// `idx`, when the weights between `idx` and `i` have been moved down by one
/// slot. The weight at `idx` itself stays in its slot until the end.
spec fn moved_down(l: Seq<nat>, idx: int, i: int) -> Seq<nat> {
    Seq::new(
        l.len(),
        |j: int|
            (if j < idx {
                l[j]
            } else if j < i - 1 {
                l[j + 1]
            } else if j == i - 1 {
                0
            } else {
                l[j]
            }) + (if j == idx {
                l[idx]
            } else {
                0
            }),
    )
}

/// One step of moving weights up: the weight of piece `i` leaves slot `i`
/// and joins slot `i + 1`.
proof fn lemma_moved_up_step(l: Seq<nat>, idx: int, i: int)
    requires
        0 <= idx <= i < l.len(),
    ensures
        moved_up(l, idx, i)[i] >= l[i],
        adjusted(adjusted(moved_up(l, idx, i), i, -(l[i] as int)), i + 1, l[i] as int) == moved_up(
            l,
            idx,
            i + 1,
        ),
{
    let w0 = moved_up(l, idx, i);
    let w1 = adjusted(w0, i, -(l[i] as int));
    let w2 = adjusted(w1, i + 1, l[i] as int);
    assert(padded(w0, i + 1) == w0);
    assert(w1 =~= w0.update(i, (w0[i] - l[i]) as nat));
    if i + 1 < l.len() {
        assert(padded(w1, i + 2) == w1);
    } else {
        assert(padded(w1, i + 2) =~= w1.push(0));
    }
    assert(w2 =~= moved_up(l, idx, i + 1));
}

/// The end of moving weights up: the new weight goes to slot `idx`, which
/// the move has left at zero or which is one past the last.
proof fn lemma_moved_up_end(l: Seq<nat>, idx: int, x: nat)
    requires
        0 <= idx <= l.len(),
    ensures
        adjusted(moved_up(l, idx, l.len() as int), idx, x as int) == l.insert(idx, x),
{
    let w = moved_up(l, idx, l.len() as int);
    if idx < l.len() {
        assert(padded(w, idx + 1) == w);
    } else {
        assert(padded(w, idx + 1) =~= w.push(0));
    }
    assert(adjusted(w, idx, x as int) =~= l.insert(idx, x));
}

/// One step of moving weights down: the weight of piece `i` leaves slot
/// `i` and joins slot `i - 1`.
proof fn lemma_moved_down_step(l: Seq<nat>, idx: int, i: int)
    requires
        0 <= idx < i < l.len(),
    ensures
        moved_down(l, idx, i)[i] >= l[i],
        adjusted(adjusted(moved_down(l, idx, i), i, -(l[i] as int)), i - 1, l[i] as int)
            == moved_down(l, idx, i + 1),
{
    let w0 = moved_down(l, idx, i);
    let w1 = adjusted(w0, i, -(l[i] as int));
    let w2 = adjusted(w1, i - 1, l[i] as int);
    assert(padded(w0, i + 1) == w0);
    assert(w1 =~= w0.update(i, (w0[i] - l[i]) as nat));
    assert(padded(w1, i) == w1);
    assert(w2 =~= moved_down(l, idx, i + 1));
}

/// The end of moving weights down: the weight at `idx` leaves, and what is
/// left but for a last slot of zero are the weights without that one.
proof fn lemma_moved_down_end(l: Seq<nat>, idx: int)
    requires
        0 <= idx < l.len(),
    ensures
        moved_down(l, idx, l.len() as int)[idx] >= l[idx],
        adjusted(moved_down(l, idx, l.len() as int), idx, -(l[idx] as int)).len() == l.len(),
        adjusted(moved_down(l, idx, l.len() as int), idx, -(l[idx] as int))[l.len() - 1] == 0,
        adjusted(moved_down(l, idx, l.len() as int), idx, -(l[idx] as int)).take(l.len() - 1)
            == l.remove(idx),
{
    let w = moved_down(l, idx, l.len() as int);
    assert(padded(w, idx + 1) == w);
    let v = adjusted(w, idx, -(l[idx] as int));
    assert(v =~= w.update(idx, (w[idx] - l[idx]) as nat));
    assert(v.take(l.len() - 1) =~= l.remove(idx));
}

impl Document {
    /// The content of the original buffer.
    pub closed spec fn original(&self) -> Seq<char> {
        self.original@
    }

    /// The content of the append buffer.
    pub closed spec fn append(&self) -> Seq<char> {
        self.append@
    }

    /// The pieces, in order.
    pub closed spec fn pieces(&self) -> Seq<Ref> {
        self.pieces@
    }

    /// The index from offsets to pieces.
    pub closed spec fn index(&self) -> Fenwick {
        self.length_sum
    }

    /// The index has one slot per piece, whose weight is the length of that
    /// piece, and every piece lies inside its buffer.
    pub open spec fn wf(&self) -> bool {
        &&& self.index().wf()
        &&& self.index()@ == lens(self.pieces())
        &&& all_in_bounds(self.pieces(), self.original().len(), self.append().len())
    }

    /// The characters that the run `r` names in the buffers of this document.
    pub open spec fn run_of(&self, r: Ref) -> Seq<char> {
        resolve(r, self.original(), self.append())
    }

    /// The buffers and the piece sequence are no longer than a machine word
    /// counts.
    pub proof fn lemma_bounded(&self)
        ensures
            self.original().len() <= usize::MAX,
            self.append().len() <= usize::MAX,
            self.pieces().len() <= usize::MAX,
    {
        assert(self.original.text.len() == self.original.text@.len());
        assert(self.append.text.len() == self.append.text@.len());
        assert(self.pieces.len() == self.pieces@.len());
    }

    /// The index and the pieces agree: there is one slot per piece, and the
    /// cumulative weight through the last slot is the length of the text.
    pub proof fn lemma_index_consistent(&self)
        requires
            self.wf(),
        ensures
            self.index()@.len() == self.pieces().len(),
            total(self.index()@) == self@.len(),
            prefix(self.index()@, self.pieces().len() - 1) == self@.len(),
    {
        lemma_text_len(self.pieces(), self.original(), self.append());
        lemma_sum_to_beyond(self.index()@, self.pieces().len() as int);
    }

    /// Looking a character up through the index finds it where the text has
    /// it: the offset `i` falls into the piece whose position is the number
    /// of cumulative weights that do not exceed `i`, as far into that piece
    /// as `i` lies beyond the pieces before it.
    pub proof fn lemma_lookup(&self, i: int)
        requires
            self.wf(),
            0 <= i < self@.len(),
        ensures
            slots_within(self.index()@, i as nat) < self.pieces().len(),
            ({
                let k = slots_within(self.index()@, i as nat) as int;
                let at = i - sum_to(self.index()@, k);
                &&& 0 <= at < self.pieces()[k].length()
                &&& self@[i] == self.run_of(self.pieces()[k])[at]
            }),
    {
        let w = self.index()@;
        let k = slots_within(w, i as nat) as int;
        lemma_text_len(self.pieces(), self.original(), self.append());
        lemma_count_within(w, i as nat, w.len() as int);
        lemma_sum_to_beyond(w, w.len() as int);
        if k >= w.len() {
            assert(prefix(w, w.len() - 1) <= i);
        }
        if k > 0 {
            assert(prefix(w, k - 1) <= i);
        }
        assert(!(prefix(w, k) <= i));
        lemma_text_index(self.pieces(), k, i - sum_to(w, k), self.original(), self.append());
    }

    /// Looking up the cumulative length through a piece leads to that piece
    /// exactly, provided that the piece after it, if there is one, is not
    /// empty.
    pub proof fn lemma_resolution(&self, i: int)
        requires
            self.wf(),
            0 <= i < self.pieces().len(),
            i + 1 < self.pieces().len() ==> self.pieces()[i + 1].length() > 0,
        ensures
            locate(self.index()@, prefix(self.index()@, i)) == Ok::<usize, usize>(i as usize),
    {
        self.lemma_bounded();
        lemma_locate_prefix(self.index()@, i);
    }

    /// A document without text and without pieces.
    pub fn empty() -> (doc: Document)
        ensures
            doc.wf(),
            doc.pieces() == Seq::<Ref>::empty(),
            doc.original() == Seq::<char>::empty(),
            doc.append() == Seq::<char>::empty(),
            doc@ == Seq::<char>::empty(),
    {
        let doc = Document {
            original: Buffer { text: Vec::new() },
            append: Buffer { text: Vec::new() },
            pieces: Vec::new(),
            length_sum: Fenwick::new(),
        };
        proof {
            assert(doc.index()@ =~= lens(doc.pieces()));
        }
        doc
    }

    /// A document that holds `text`, as one piece that spans the original
    /// buffer.
    pub fn new(text: String) -> (doc: Document)
        ensures
            doc.wf(),
            doc.original() == text@,
            doc.append() == Seq::<char>::empty(),
            doc.pieces() == seq![Ref::Original(0, text@.len() as usize)],
            doc@ == text@,
    {
        let chars = chars_of(text.as_str());
        let length = chars.len();
        let mut length_sum = Fenwick::new();
        length_sum.add(0, length);
        let mut pieces: Vec<Ref> = Vec::new();
        pieces.push(Ref::Original(0, length));
        proof {
            let piece = Ref::Original(0, length);
            assert(pieces@ =~= seq![piece]);
            assert(length_sum@ =~= lens(pieces@));
            lemma_text_single(piece, chars@, Seq::empty());
            assert(resolve(piece, chars@, Seq::empty()) =~= chars@);
        }
        Document {
            original: Buffer { text: chars },
            append: Buffer { text: Vec::new() },
            pieces,
            length_sum,
        }
    }

    /// The characters of the run `r`.
    fn get_ref(&self, r: &Ref) -> (run: &[char])
        requires
            in_bounds(*r, self.original().len(), self.append().len()),
        ensures
            run@ == self.run_of(*r),
    {
        match r {
            Ref::Original(idx, len) => {
                assert(self.original.text.len() == self.original.text@.len());
                vstd::slice::slice_subrange(self.original.text.as_slice(), *idx, *idx + *len)
            },
            Ref::Append(idx, len) => {
                assert(self.append.text.len() == self.append.text@.len());
                vstd::slice::slice_subrange(self.append.text.as_slice(), *idx, *idx + *len)
            },
        }
    }

    /// The number of characters in the document.
    pub fn len(&self) -> (n: usize)
        requires
            self.wf(),
        ensures
            n == self@.len(),
    {
        proof {
            lemma_text_len(self.pieces(), self.original(), self.append());
        }
        self.length_sum.suffix_sum(0)
    }

    /// The text of the document, as a vector of characters.
    fn materialize(&self) -> (text: Vec<char>)
        requires
            self.wf(),
        ensures
            text@ == self@,
    {
        let mut text: Vec<char> = Vec::new();
        let mut i: usize = 0;
        while i < self.pieces.len()
            invariant
                self.wf(),
                i <= self.pieces.len(),
                text@ == text_of(self.pieces().take(i as int), self.original(), self.append()),
            decreases self.pieces.len() - i,
        {
            let run = self.get_ref(&self.pieces[i]);
            let ghost before = text@;
            let mut j: usize = 0;
            while j < run.len()
                invariant
                    j <= run.len(),
                    text@ == before + run@.take(j as int),
                decreases run.len() - j,
            {
                text.push(run[j]);
                j += 1;
                assert(run@.take(j as int) =~= run@.take(j - 1).push(run@[j - 1]));
                assert(text@ =~= before + run@.take(j as int));
            }
            i += 1;
            proof {
                assert(run@.take(run.len() as int) =~= run@);
                assert(self.pieces().take(i as int).drop_last() =~= self.pieces().take(i - 1));
            }
        }
        proof {
            assert(self.pieces().take(i as int) =~= self.pieces());
        }
        text
    }

    /// The text of the document.
    pub fn to_string(&self) -> (text: String)
        requires
            self.wf(),
        ensures
            text@ == self@,
    {
        let chars = self.materialize();
        let text = string_of(&chars, 0, chars.len());
        assert(chars@.subrange(0, chars.len() as int) =~= chars@);
        text
    }

    /// The offset of the last line break at or before `i`. Offsets beyond
    /// the text count as its last offset.
    pub fn prev_linebreak(&self, i: usize) -> (found: Option<usize>)
        requires
            self.wf(),
        ensures
            found == prev_break(self@, i as int),
            match found {
                Some(j) => {
                    &&& j <= i
                    &&& j < self@.len()
                    &&& self@[j as int] == '\n'
                    &&& forall|k: int| j < k <= i && k < self@.len() ==> self@[k] != '\n'
                },
                None => forall|k: int| 0 <= k <= i && k < self@.len() ==> self@[k] != '\n',
            },
    {
        let s = self.materialize();
        proof {
            lemma_last_break(s@, i as int);
        }
        if s.len() == 0 {
            return None;
        }
        let mut pos = if i < s.len() - 1 { i } else { s.len() - 1 };
        proof {
            if i >= s.len() - 1 {
                lemma_last_break_beyond(s@, i as int);
            }
        }
        while pos > 0
            invariant
                s@ == self@,
                pos < s.len(),
                last_break(s@, pos as int) == last_break(s@, i as int),
            decreases pos,
        {
            if s[pos] == '\n' {
                proof {
                    lemma_last_break(s@, i as int);
                }
                return Some(pos);
            }
            pos -= 1;
        }
        proof {
            lemma_last_break(s@, i as int);
            reveal_with_fuel(last_break, 2);
        }
        if s[0] == '\n' {
            Some(0)
        } else {
            None
        }
    }

    /// The offset of the first line break at or after `i`.
    pub fn next_linebreak(&self, i: usize) -> (found: Option<usize>)
        requires
            self.wf(),
        ensures
            found == next_break(self@, i as int),
            match found {
                Some(j) => {
                    &&& i <= j < self@.len()
                    &&& self@[j as int] == '\n'
                    &&& forall|k: int| i <= k < j ==> self@[k] != '\n'
                },
                None => forall|k: int| i <= k < self@.len() ==> self@[k] != '\n',
            },
    {
        let s = self.materialize();
        let mut pos = i;
        while pos < s.len()
            invariant
                s@ == self@,
                first_break(s@, pos as int) == first_break(s@, i as int),
            decreases s.len() - pos,
        {
            if s[pos] == '\n' {
                proof {
                    lemma_first_break(s@, i as int);
                }
                return Some(pos);
            }
            pos += 1;
        }
        proof {
            lemma_first_break(s@, i as int);
        }
        None
    }

    /// The character at `idx`, or an error that reports `idx` and the length
    /// of the document if there is no such character.
    pub fn get(&mut self, idx: usize) -> (found: Result<char, RangeError>)
        requires
            old(self).wf(),
        ensures
            *final(self) == *old(self),
            idx < old(self)@.len() ==> found == Ok::<char, RangeError>(old(self)@[idx as int]),
            idx >= old(self)@.len() ==> found == Err::<char, RangeError>(
                RangeError { offset: idx, len: old(self)@.len() as usize },
            ),
    {
        let len = self.len();
        if idx >= len {
            return Err(RangeError { offset: idx, len });
        }
        proof {
            self.lemma_lookup(idx as int);
        }
        let left = self.length_sum.find_prefix_left(idx);
        let prefix = if left > 0 { self.length_sum.prefix_sum(left - 1) } else { 0 };
        let offset = idx - prefix;
        let run = self.get_ref(&self.pieces[left]);
        Ok(run[offset])
    }

    /// Puts the piece `x` at position `idx`. The weights of the pieces from
    /// `idx` on first move up by one slot in the index, one piece at a time.
    fn run_insert(&mut self, idx: usize, x: Ref)
        requires
            old(self).wf(),
            admissible(
                DocOp::Insert(idx, x),
                old(self).pieces(),
                old(self).original().len(),
                old(self).append().len(),
            ),
        ensures
            final(self).wf(),
            final(self).pieces() == old(self).pieces().insert(idx as int, x),
            final(self).original() == old(self).original(),
            final(self).append() == old(self).append(),
    {
        let ghost l = lens(self.pieces@);
        let n = self.pieces.len();
        let mut i = idx;
        proof {
            assert(l =~= moved_up(l, idx as int, idx as int));
            crate::pieces::lemma_total_insert(self.pieces@, idx as int, x);
        }
        while i < n
            invariant
                idx <= i <= n,
                n == self.pieces.len(),
                n < usize::MAX,
                n == l.len(),
                l == lens(self.pieces@),
                self.pieces == old(self).pieces,
                self.original == old(self).original,
                self.append == old(self).append,
                self.length_sum.wf(),
                total(l) <= usize::MAX,
                total(self.length_sum@) == total(l),
                self.length_sum@ == moved_up(l, idx as int, i as int),
            decreases n - i,
        {
            let len = self.pieces[i].len();
            let ghost w0 = self.length_sum@;
            proof {
                lemma_moved_up_step(l, idx as int, i as int);
                lemma_total_adjusted(w0, i as int, -(len as int));
                lemma_total_adjusted(adjusted(w0, i as int, -(len as int)), i + 1, len as int);
            }
            self.length_sum.sub(i, len);
            self.length_sum.add(i + 1, len);
            i += 1;
        }
        self.pieces.insert(idx, x);
        proof {
            lemma_moved_up_end(l, idx as int, x.length());
            lemma_total_adjusted(self.length_sum@, idx as int, x.length() as int);
        }
        self.length_sum.add(idx, x.len());
    }

    /// Takes out the piece at position `idx`, which is `x`. The weights of
    /// the pieces after `idx` first move down by one slot in the index, one
    /// piece at a time, and the index loses its last slot.
    fn run_remove(&mut self, idx: usize, x: Ref)
        requires
            old(self).wf(),
            admissible(
                DocOp::Remove(idx, x),
                old(self).pieces(),
                old(self).original().len(),
                old(self).append().len(),
            ),
        ensures
            final(self).wf(),
            final(self).pieces() == old(self).pieces().remove(idx as int),
            final(self).original() == old(self).original(),
            final(self).append() == old(self).append(),
    {
        let ghost l = lens(self.pieces@);
        let n = self.pieces.len();
        let mut i = idx + 1;
        proof {
            self.length_sum.lemma_bounded();
            assert(l =~= moved_down(l, idx as int, idx + 1));
            crate::pieces::lemma_total_remove(self.pieces@, idx as int);
        }
        while i < n
            invariant
                idx < i <= n,
                n == self.pieces.len(),
                n == l.len(),
                l == lens(self.pieces@),
                self.pieces == old(self).pieces,
                self.original == old(self).original,
                self.append == old(self).append,
                self.length_sum.wf(),
                total(l) <= usize::MAX,
                total(self.length_sum@) == total(l),
                self.length_sum@ == moved_down(l, idx as int, i as int),
            decreases n - i,
        {
            let len = self.pieces[i].len();
            let ghost w0 = self.length_sum@;
            proof {
                lemma_moved_down_step(l, idx as int, i as int);
                lemma_total_adjusted(w0, i as int, -(len as int));
                lemma_total_adjusted(adjusted(w0, i as int, -(len as int)), i - 1, len as int);
            }
            self.length_sum.sub(i, len);
            self.length_sum.add(i - 1, len);
            i += 1;
        }
        let removed = self.pieces.remove(idx);
        assert(removed == x);
        proof {
            lemma_moved_down_end(l, idx as int);
        }
        self.length_sum.sub(idx, x.len());
        self.length_sum.truncate(n - 1);
    }

    /// Puts `new` in the place of the piece at position `idx`, which is
    /// `prev`.
    fn run_replace(&mut self, idx: usize, prev: Ref, new: Ref)
        requires
            old(self).wf(),
            admissible(
                DocOp::Replace(idx, prev, new),
                old(self).pieces(),
                old(self).original().len(),
                old(self).append().len(),
            ),
        ensures
            final(self).wf(),
            final(self).pieces() == old(self).pieces().update(idx as int, new),
            final(self).original() == old(self).original(),
            final(self).append() == old(self).append(),
    {
        let ghost l = lens(self.pieces@);
        let ghost w0 = self.length_sum@;
        assert(idx < self.pieces.len());
        self.length_sum.sub(idx, prev.len());
        let ghost w1 = self.length_sum@;
        proof {
            assert(padded(w0, idx + 1) == w0);
            assert(padded(w1, idx + 1) == w1);
            lemma_total_adjusted(w0, idx as int, -(prev.length() as int));
            assert(lens(self.pieces@.update(idx as int, new)) =~= l.update(
                idx as int,
                new.length(),
            ));
            lemma_sum_to_update(l, idx as int, new.length(), l.len() as int);
        }
        self.length_sum.add(idx, new.len());
        self.pieces.set(idx, new);
        proof {
            assert(self.length_sum@ =~= lens(self.pieces@));
        }
    }

    /// Makes the edits `ops` in order, on the pieces and on the index.
    pub fn run(&mut self, ops: &[DocOp])
        requires
            old(self).wf(),
            all_admissible(
                ops@,
                old(self).pieces(),
                old(self).original().len(),
                old(self).append().len(),
            ),
        ensures
            final(self).wf(),
            final(self).pieces() == apply_all(old(self).pieces(), ops@),
            final(self).original() == old(self).original(),
            final(self).append() == old(self).append(),
    {
        let mut k: usize = 0;
        proof {
            assert(ops@.skip(0) =~= ops@);
        }
        while k < ops.len()
            invariant
                k <= ops.len(),
                self.wf(),
                self.original() == old(self).original(),
                self.append() == old(self).append(),
                all_admissible(
                    ops@.skip(k as int),
                    self.pieces(),
                    self.original().len(),
                    self.append().len(),
                ),
                apply_all(self.pieces(), ops@.skip(k as int)) == apply_all(
                    old(self).pieces(),
                    ops@,
                ),
            decreases ops.len() - k,
        {
            proof {
                assert(ops@.skip(k as int)[0] == ops@[k as int]);
                assert(ops@.skip(k as int).drop_first() =~= ops@.skip(k + 1));
            }
            match &ops[k] {
                DocOp::Insert(idx, x) => {
                    self.run_insert(*idx, *x);
                },
                DocOp::Remove(idx, x) => {
                    self.run_remove(*idx, *x);
                },
                DocOp::Replace(idx, prev, new) => {
                    self.run_replace(*idx, *prev, *new);
                },
            }
            k += 1;
        }
    }

    /// Appends `c` to the append buffer and gives the edits that put it into
    /// the text at offset `idx`. The pieces stay as they are until the edits
    /// are run.
    pub fn insert_actions(&mut self, idx: usize, c: char) -> (ops: Vec<DocOp>)
        requires
            old(self).wf(),
            idx <= old(self)@.len(),
            old(self).pieces().len() + 2 <= usize::MAX,
        ensures
            final(self).wf(),
            final(self).pieces() == old(self).pieces(),
            final(self).index() == old(self).index(),
            final(self).original() == old(self).original(),
            final(self).append() == old(self).append().push(c),
            ops@ == insert_plan(old(self).pieces(), old(self).append().len(), idx as nat),
    {
        let ghost w = self.length_sum@;
        let append_idx = self.append.text.len();
        self.append.text.push(c);
        let grown = self.append.text.len();
        let fresh = Ref::Append(append_idx, 1);
        let count = self.pieces.len();
        proof {
            lemma_text_len(old(self).pieces(), old(self).original(), old(self).append());
            self.length_sum.lemma_bounded();
            self.lemma_bounded();
            assert forall|i: int| 0 <= i < count implies in_bounds(
                #[trigger] self.pieces@[i],
                self.original().len(),
                self.append().len(),
            ) by {
                assert(in_bounds(
                    old(self).pieces()[i],
                    old(self).original().len(),
                    old(self).append().len(),
                ));
            }
        }
        if idx == 0 {
            let ops = vec![DocOp::Insert(0, fresh)];
            proof {
                assert(ops@ =~= seq![DocOp::Insert(0, fresh)]);
            }
            ops
        } else {
            match self.length_sum.find_prefix(idx) {
                Ok(piece_idx) => {
                    let piece = self.pieces[piece_idx];
                    proof {
                        assert(in_bounds(
                            old(self).pieces()[piece_idx as int],
                            old(self).original().len(),
                            old(self).append().len(),
                        ));
                    }
                    let extended = match piece {
                        Ref::Original(_, _) => None,
                        Ref::Append(x, l) => if x + l == append_idx {
                            Some(Ref::Append(x, l + 1))
                        } else {
                            None
                        },
                    };
                    match extended {
                        Some(longer) => {
                            let ops = vec![DocOp::Replace(piece_idx, piece, longer)];
                            proof {
                                assert(ops@ =~= seq![DocOp::Replace(piece_idx, piece, longer)]);
                            }
                            ops
                        },
                        None => {
                            let ops = vec![DocOp::Insert(piece_idx + 1, fresh)];
                            proof {
                                assert(ops@ =~= seq![
                                    DocOp::Insert((piece_idx + 1) as usize, fresh),
                                ]);
                            }
                            ops
                        },
                    }
                },
                Err(piece_idx) => {
                    proof {
                        if piece_idx >= count {
                            assert(prefix(w, count - 1) == total(w));
                        }
                        assert(in_bounds(
                            old(self).pieces()[piece_idx as int],
                            old(self).original().len(),
                            old(self).append().len(),
                        ));
                    }
                    let length_before_piece = if piece_idx == 0 {
                        0
                    } else {
                        self.length_sum.prefix_sum(piece_idx - 1)
                    };
                    let piece = self.pieces[piece_idx];
                    let (before, after) = piece.split(idx - length_before_piece);
                    let ops = vec![
                        DocOp::Remove(piece_idx, piece),
                        DocOp::Insert(piece_idx, before),
                        DocOp::Insert(piece_idx + 1, fresh),
                        DocOp::Insert(piece_idx + 2, after),
                    ];
                    proof {
                        assert(ops@ =~= seq![
                            DocOp::Remove(piece_idx, piece),
                            DocOp::Insert(piece_idx, before),
                            DocOp::Insert((piece_idx + 1) as usize, fresh),
                            DocOp::Insert((piece_idx + 2) as usize, after),
                        ]);
                    }
                    ops
                },
            }
        }
    }

    /// Puts the character `c` into the text at offset `idx`. The text must
    /// have room in a machine word for one more character, and the piece
    /// list for two more pieces. No empty piece comes of it.
    pub fn insert(&mut self, idx: usize, c: char)
        requires
            old(self).wf(),
            idx <= old(self)@.len(),
            old(self)@.len() < usize::MAX,
            old(self).pieces().len() + 2 <= usize::MAX,
        ensures
            final(self).wf(),
            final(self)@ == old(self)@.insert(idx as int, c),
            final(self)@.len() == old(self)@.len() + 1,
            final(self).original() == old(self).original(),
            final(self).append() == old(self).append().push(c),
            final(self).pieces() == apply_all(
                old(self).pieces(),
                insert_plan(old(self).pieces(), old(self).append().len(), idx as nat),
            ),
            adds_at_most(old(self).pieces(), final(self).pieces(), 2),
    {
        let actions = self.insert_actions(idx, c);
        proof {
            self.lemma_bounded();
            lemma_insert_plan(
                old(self).pieces(),
                old(self).original(),
                old(self).append(),
                idx as nat,
                c,
            );
        }
        self.run(actions.as_slice());
    }

    /// The edits that take the first character out of the piece at
    /// position `k`.
    fn behead_actions(&self, k: usize) -> (ops: Vec<DocOp>)
        requires
            self.wf(),
            k < self.pieces().len(),
            self.pieces()[k as int].length() > 0,
        ensures
            ops@ == behead(self.pieces(), k as int),
    {
        let piece = self.pieces[k];
        proof {
            self.lemma_bounded();
            assert(in_bounds(self.pieces()[k as int], self.original().len(), self.append().len()));
        }
        if piece.len() > 1 {
            let ops = vec![DocOp::Replace(k, piece, piece.skip(1))];
            proof {
                assert(ops@ =~= seq![DocOp::Replace(k, piece, piece.tail(1))]);
            }
            ops
        } else {
            let ops = vec![DocOp::Remove(k, piece)];
            proof {
                assert(ops@ =~= seq![DocOp::Remove(k, piece)]);
            }
            ops
        }
    }

    /// The edits that take the character at offset `idx` out of the text.
    pub fn remove_actions(&mut self, idx: usize) -> (ops: Vec<DocOp>)
        requires
            old(self).wf(),
            idx < old(self)@.len(),
            old(self).pieces().len() + 1 <= usize::MAX,
        ensures
            *final(self) == *old(self),
            ops@ == remove_plan(old(self).pieces(), idx as nat),
    {
        let count = self.pieces.len();
        let ghost w = self.length_sum@;
        proof {
            lemma_text_len(self.pieces(), self.original(), self.append());
            self.length_sum.lemma_bounded();
            self.lemma_bounded();
            if count == 0 {
                assert(w =~= Seq::<nat>::empty());
            }
        }
        if idx == 0 && self.pieces[0].len() > 0 {
            self.behead_actions(0)
        } else {
            match self.length_sum.find_prefix(idx) {
                Ok(piece_idx) => {
                    proof {
                        if piece_idx + 1 >= count {
                            assert(prefix(w, count - 1) == total(w));
                        }
                        assert(w[piece_idx + 1] == self.pieces@[piece_idx + 1].length());
                    }
                    self.behead_actions(piece_idx + 1)
                },
                Err(piece_idx) => {
                    proof {
                        if piece_idx >= count {
                            assert(prefix(w, count - 1) == total(w));
                        }
                        assert(w[piece_idx as int] == self.pieces@[piece_idx as int].length());
                        if idx == 0 {
                            assert(w[0] == self.pieces@[0].length());
                        }
                        assert(in_bounds(
                            self.pieces()[piece_idx as int],
                            self.original().len(),
                            self.append().len(),
                        ));
                    }
                    let length_before_piece = if piece_idx == 0 {
                        0
                    } else {
                        self.length_sum.prefix_sum(piece_idx - 1)
                    };
                    let piece = self.pieces[piece_idx];
                    let (before, after) = piece.split(idx - length_before_piece);
                    if after.len() > 1 {
                        let ops = vec![
                            DocOp::Remove(piece_idx, piece),
                            DocOp::Insert(piece_idx, before),
                            DocOp::Insert(piece_idx + 1, after.skip(1)),
                        ];
                        proof {
                            let at = (idx - length_before_piece) as nat;
                            assert(after.tail(1) == piece.tail(at + 1));
                            assert(ops@ =~= seq![
                                DocOp::Remove(piece_idx, piece),
                                DocOp::Insert(piece_idx, before),
                                DocOp::Insert((piece_idx + 1) as usize, piece.tail(at + 1)),
                            ]);
                        }
                        ops
                    } else {
                        let ops = vec![DocOp::Replace(piece_idx, piece, before)];
                        proof {
                            assert(ops@ =~= seq![DocOp::Replace(piece_idx, piece, before)]);
                        }
                        ops
                    }
                },
            }
        }
    }

    /// Takes the character at offset `idx` out of the text. The piece list
    /// must have room in a machine word for one more piece. No empty piece
    /// comes of it.
    pub fn remove(&mut self, idx: usize)
        requires
            old(self).wf(),
            idx < old(self)@.len(),
            old(self).pieces().len() + 1 <= usize::MAX,
        ensures
            final(self).wf(),
            final(self)@ == old(self)@.remove(idx as int),
            final(self)@.len() == old(self)@.len() - 1,
            final(self).original() == old(self).original(),
            final(self).append() == old(self).append(),
            final(self).pieces() == apply_all(
                old(self).pieces(),
                remove_plan(old(self).pieces(), idx as nat),
            ),
            adds_at_most(old(self).pieces(), final(self).pieces(), 1),
    {
        let actions = self.remove_actions(idx);
        proof {
            self.lemma_bounded();
            self.length_sum.lemma_bounded();
            lemma_text_len(self.pieces(), self.original(), self.append());
            lemma_remove_plan(self.pieces(), self.original(), self.append(), idx as nat);
        }
        self.run(actions.as_slice());
    }
}

} // verus!
