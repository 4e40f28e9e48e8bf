//! Line breaks in a text.

use vstd::prelude::*;

verus! {

/// The offset of the first line break of `text` at or after `i`, or the
/// length of `text` if there is none.
pub open spec fn first_break(text: Seq<char>, i: int) -> int
    decreases text.len() - i,
{
    if i >= text.len() {
        text.len() as int
    } else if text[i] == '\n' {
        i
    } else {
        first_break(text, i + 1)
    }
}

/// The offset of the last line break of `text` at or before `i`, or `-1`
/// if there is none.
pub open spec fn last_break(text: Seq<char>, i: int) -> int
    decreases i + 1,
{
    if i < 0 {
        -1
    } else if i < text.len() && text[i] == '\n' {
        i
    } else {
        last_break(text, i - 1)
    }
}

/// The offset of the first line break at or after `i`, if there is one.
pub open spec fn next_break(text: Seq<char>, i: int) -> Option<usize> {
    if first_break(text, i) < text.len() {
        Some(first_break(text, i) as usize)
    } else {
        None
    }
}

/// The offset of the last line break at or before `i`, if there is one.
pub open spec fn prev_break(text: Seq<char>, i: int) -> Option<usize> {
    if last_break(text, i) >= 0 {
        Some(last_break(text, i) as usize)
    } else {
        None
    }
}

/// What `first_break` finds: a line break with none between `i` and it, or
/// the end of a text without line breaks from `i` on.
pub proof fn lemma_first_break(text: Seq<char>, i: int)
    requires
        0 <= i,
    ensures
        i <= first_break(text, i) || first_break(text, i) == text.len(),
        first_break(text, i) <= text.len(),
        first_break(text, i) < text.len() ==> text[first_break(text, i)] == '\n',
        forall|k: int| i <= k < first_break(text, i) ==> text[k] != '\n',
    decreases text.len() - i,
{
    if i < text.len() && text[i] != '\n' {
        lemma_first_break(text, i + 1);
    }
}

/// What `last_break` finds: a line break with none between it and `i`, or
/// `-1` where there is no line break up to `i`.
pub proof fn lemma_last_break(text: Seq<char>, i: int)
    ensures
        -1 <= last_break(text, i),
        last_break(text, i) <= i || last_break(text, i) == -1,
        last_break(text, i) >= 0 ==> last_break(text, i) < text.len() && text[last_break(text, i)]
            == '\n',
        forall|k: int|
            last_break(text, i) < k <= i && 0 <= k < text.len() ==> text[k] != '\n',
    decreases i + 1,
{
    if i >= 0 && !(i < text.len() && text[i] == '\n') {
        lemma_last_break(text, i - 1);
    }
}

/// Looking back from beyond the text is looking back from its last offset.
pub proof fn lemma_last_break_beyond(text: Seq<char>, i: int)
    requires
        text.len() > 0,
        i >= text.len() - 1,
    ensures
        last_break(text, i) == last_break(text, text.len() - 1),
    decreases i,
{
    if i > text.len() - 1 {
        lemma_last_break_beyond(text, i - 1);
    }
}

} // verus!
