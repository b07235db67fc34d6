//! Small tools for reading text character by character.

use vstd::prelude::*;
use vstd::std_specs::iter::IteratorSpec;

verus! {

/// The characters of `text`.
pub fn chars_of(text: &str) -> (chars: Vec<char>)
    ensures
        chars@ == text@,
{
    let mut rest = text.chars();
    let mut chars: Vec<char> = Vec::new();
    loop
        invariant
            rest.decrease() is Some,
            chars@ + rest.remaining() == text@,
        ensures
            chars@ == text@,
        decreases rest.decrease()->0,
    {
        let ghost before = rest.remaining();
        match rest.next() {
            Some(c) => {
                chars.push(c);
                assert(chars@ + rest.remaining() =~= (chars@.drop_last() + before));
            },
            None => {
                assert(chars@ + rest.remaining() =~= chars@);
                break ;
            },
        }
    }
    chars
}

/// Whether `text`, read from `at`, goes on with `word`.
pub open spec fn reads_at(text: Seq<char>, at: int, word: Seq<char>) -> bool {
    0 <= at && at + word.len() <= text.len() && text.subrange(at, at + word.len()) == word
}

/// Decides [`reads_at`].
pub fn matches_at(text: &Vec<char>, at: usize, word: &Vec<char>) -> (found: bool)
    ensures
        found == reads_at(text@, at as int, word@),
{
    if at > text.len() || word.len() > text.len() - at {
        return false;
    }
    let mut k: usize = 0;
    while k < word.len()
        invariant
            k <= word.len(),
            at + word.len() <= text.len(),
            forall|j: int| 0 <= j < k ==> text@[at + j] == word@[j],
        decreases word.len() - k,
    {
        if text[at + k] != word[k] {
            assert(text@.subrange(at as int, at + word.len())[k as int] != word@[k as int]);
            return false;
        }
        k += 1;
    }
    assert(text@.subrange(at as int, at + word.len()) =~= word@);
    true
}

/// Whether the two texts are the same.
pub fn same_text(a: &str, b: &str) -> (same: bool)
    ensures
        same == (a@ == b@),
{
    let left = chars_of(a);
    let right = chars_of(b);
    if left.len() != right.len() {
        return false;
    }
    let same = matches_at(&left, 0, &right);
    assert(left@.subrange(0, left@.len() as int) =~= left@);
    same
}

/// Whether `word` occurs somewhere in `text`.
pub open spec fn occurs_in(text: Seq<char>, word: Seq<char>) -> bool {
    exists|at: int| reads_at(text, at, word)
}

/// Decides [`occurs_in`].
pub fn contains_text(text: &Vec<char>, word: &Vec<char>) -> (found: bool)
    ensures
        found == occurs_in(text@, word@),
{
    if word.len() > text.len() {
        return false;
    }
    let last = text.len() - word.len();
    let mut at: usize = 0;
    loop
        invariant
            at <= last,
            last == text.len() - word.len(),
            forall|j: int| 0 <= j < at ==> !reads_at(text@, j, word@),
        decreases last - at,
    {
        if matches_at(text, at, word) {
            return true;
        }
        if at == last {
            return false;
        }
        at += 1;
    }
}

/// Whether `text` ends with `word`.
pub open spec fn ends_with(text: Seq<char>, word: Seq<char>) -> bool {
    reads_at(text, text.len() - word.len(), word)
}

/// Decides [`ends_with`].
pub fn has_suffix(text: &Vec<char>, word: &Vec<char>) -> (found: bool)
    ensures
        found == ends_with(text@, word@),
{
    if word.len() > text.len() {
        return false;
    }
    matches_at(text, text.len() - word.len(), word)
}

/// Where the line that begins at `from` stops: at the next line feed, or at
/// the end of the text.
pub open spec fn line_break(text: Seq<char>, from: int) -> int
    decreases text.len() - from,
{
    if from >= text.len() {
        text.len() as int
    } else if text[from] == '\n' {
        from
    } else {
        line_break(text, from + 1)
    }
}

/// The line break lies between `from` and the end of the text, and no line
/// feed lies before it.
pub proof fn lemma_line_break(text: Seq<char>, from: int)
    requires
        0 <= from <= text.len(),
    ensures
        from <= line_break(text, from) <= text.len(),
        line_break(text, from) < text.len() ==> text[line_break(text, from)] == '\n',
        forall|k: int| from <= k < line_break(text, from) ==> text[k] != '\n',
    decreases text.len() - from,
{
    if from < text.len() && text[from] != '\n' {
        lemma_line_break(text, from + 1);
    }
}

/// The span of the line that begins at `from`, without its ending: a line
/// feed, or a carriage return and a line feed. A carriage return before the
/// end of the text is part of the line.
pub open spec fn line_span(text: Seq<char>, from: int) -> (int, int) {
    let stop = line_break(text, from);
    if stop < text.len() && from < stop && text[stop - 1] == '\r' {
        (from, stop - 1)
    } else {
        (from, stop)
    }
}

/// Where the line after the one that begins at `from` begins.
pub open spec fn after_line(text: Seq<char>, from: int) -> int {
    let stop = line_break(text, from);
    if stop < text.len() {
        stop + 1
    } else {
        stop
    }
}

/// The spans of the lines of `text` from position `from` on. A line feed at
/// the end of the text ends the last line and begins no new one.
pub open spec fn line_spans(text: Seq<char>, from: int) -> Seq<(int, int)>
    decreases text.len() - from,
    via line_spans_ends
{
    if from < 0 || from >= text.len() {
        Seq::empty()
    } else {
        seq![line_span(text, from)] + line_spans(text, after_line(text, from))
    }
}

#[via_fn]
proof fn line_spans_ends(text: Seq<char>, from: int) {
    if 0 <= from < text.len() {
        lemma_line_break(text, from);
    }
}

/// The lines of `text`.
pub open spec fn lines_of(text: Seq<char>) -> Seq<Seq<char>> {
    line_spans(text, 0).map_values(|span: (int, int)| text.subrange(span.0, span.1))
}

/// Splits `text` into lines and returns the span of each.
pub fn split_lines(text: &Vec<char>) -> (spans: Vec<(usize, usize)>)
    ensures
        spans@.len() == line_spans(text@, 0).len(),
        forall|k: int|
            0 <= k < spans@.len() ==> (#[trigger] spans@[k]).0 == line_spans(text@, 0)[k].0
                && spans@[k].1 == line_spans(text@, 0)[k].1 && spans@[k].0 <= spans@[k].1
                <= text@.len(),
{
    let mut spans: Vec<(usize, usize)> = Vec::new();
    let mut from: usize = 0;
    while from < text.len()
        invariant
            from <= text@.len(),
            spans@.len() + line_spans(text@, from as int).len() == line_spans(text@, 0).len(),
            forall|k: int|
                0 <= k < spans@.len() ==> (#[trigger] spans@[k]).0 == line_spans(text@, 0)[k].0
                    && spans@[k].1 == line_spans(text@, 0)[k].1 && spans@[k].0 <= spans@[k].1
                    <= text@.len(),
            forall|k: int|
                0 <= k < line_spans(text@, from as int).len() ==> line_spans(
                    text@,
                    from as int,
                )[k] == line_spans(text@, 0)[spans@.len() + k],
        decreases text@.len() - from,
    {
        let mut stop = from;
        while stop < text.len() && text[stop] != '\n'
            invariant
                from <= stop <= text@.len(),
                line_break(text@, stop as int) == line_break(text@, from as int),
            decreases text@.len() - stop,
        {
            stop += 1;
        }
        let ghost rest = line_spans(text@, from as int);
        let ghost next = after_line(text@, from as int);
        proof {
            lemma_line_break(text@, from as int);
            assert(rest =~= seq![line_span(text@, from as int)] + line_spans(text@, next));
            assert forall|k: int| 0 <= k < line_spans(text@, next).len() implies line_spans(
                text@,
                next,
            )[k] == line_spans(text@, 0)[spans@.len() + 1 + k] by {
                assert(rest[k + 1] == line_spans(text@, next)[k]);
            }
            assert(rest[0] == line_span(text@, from as int));
        }
        if stop < text.len() {
            if from < stop && text[stop - 1] == '\r' {
                spans.push((from, stop - 1));
            } else {
                spans.push((from, stop));
            }
            from = stop + 1;
        } else {
            spans.push((from, stop));
            from = stop;
        }
    }
    spans
}

} // verus!
