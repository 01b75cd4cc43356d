//! Searching in text.

use vstd::prelude::*;

verus! {

/// The characters of a text.
pub fn chars_of(text: &str) -> (chars: Vec<char>)
    ensures
        chars@ == text@,
{
    let mut chars: Vec<char> = Vec::new();
    for c in iter: text.chars()
        invariant
            iter.seq() == text@,
            chars@ == text@.take(iter.index()),
    {
        chars.push(c);
        assert(chars@ =~= text@.take(iter.index() + 1));
    }
    assert(chars@ =~= text@);
    chars
}

/// Whether a piece of text stands at a place.
pub open spec fn occurs_at(text: Seq<char>, piece: Seq<char>, at: int) -> bool {
    0 <= at && at + piece.len() <= text.len() && text.subrange(at, at + piece.len()) == piece
}

/// Whether a place is the first one from `from` on where a piece of text stands.
pub open spec fn is_first(text: Seq<char>, piece: Seq<char>, from: int, at: int) -> bool {
    &&& from <= at
    &&& occurs_at(text, piece, at)
    &&& forall|k: int| from <= k < at ==> !#[trigger] occurs_at(text, piece, k)
}

/// Whether a piece of text stands nowhere from `from` on.
pub open spec fn is_absent(text: Seq<char>, piece: Seq<char>, from: int) -> bool {
    forall|k: int| from <= k ==> !#[trigger] occurs_at(text, piece, k)
}

/// Whether a piece of text stands at a place.
pub fn stands_at(text: &Vec<char>, piece: &Vec<char>, at: usize) -> (result: bool)
    requires
        at <= text.len(),
    ensures
        result == occurs_at(text@, piece@, at as int),
{
    if text.len() - at < piece.len() {
        return false;
    }
    let mut i: usize = 0;
    while i < piece.len()
        invariant
            i <= piece.len(),
            at + piece.len() <= text.len(),
            forall|k: int| 0 <= k < i ==> #[trigger] piece@[k] == text@[at + k],
        decreases piece.len() - i,
    {
        if text[at + i] != piece[i] {
            assert(text@.subrange(at as int, at + piece.len())[i as int] != piece@[i as int]);
            return false;
        }
        i = i + 1;
    }
    assert(text@.subrange(at as int, at + piece.len()) =~= piece@);
    true
}

/// The first place from `from` on where a piece of text stands.
pub fn find(text: &Vec<char>, piece: &Vec<char>, from: usize) -> (place: Option<usize>)
    requires
        from <= text.len(),
    ensures
        match place {
            Some(at) => is_first(text@, piece@, from as int, at as int),
            None => is_absent(text@, piece@, from as int),
        },
{
    let mut at: usize = from;
    while at < text.len()
        invariant
            from <= at <= text.len(),
            forall|k: int| from <= k < at ==> !#[trigger] occurs_at(text@, piece@, k),
        decreases text.len() - at,
    {
        if stands_at(text, piece, at) {
            return Some(at);
        }
        at = at + 1;
    }
    if stands_at(text, piece, at) {
        return Some(at);
    }
    assert forall|k: int| from <= k implies !#[trigger] occurs_at(text@, piece@, k) by {
        if k == at {
        } else if k > at {
            assert(k + piece.len() > text.len());
        }
    }
    None
}

/// There is one first place.
pub proof fn lemma_first_is_unique(text: Seq<char>, piece: Seq<char>, from: int, a: int, b: int)
    requires
        is_first(text, piece, from, a),
    ensures
        is_first(text, piece, from, b) ==> a == b,
        !is_absent(text, piece, from),
{
    if is_first(text, piece, from, b) {
        if a < b {
            assert(!occurs_at(text, piece, a));
        } else if b < a {
            assert(!occurs_at(text, piece, b));
        }
    }
}

/// The end of the line that a place lies in: its line feed, or the end.
pub open spec fn line_end(text: Seq<char>, from: int) -> int
    decreases text.len() - from,
{
    if from >= text.len() {
        text.len() as int
    } else if text[from] == '\n' {
        from
    } else {
        line_end(text, from + 1)
    }
}

proof fn lemma_line_end(text: Seq<char>, from: int)
    requires
        0 <= from <= text.len(),
    ensures
        from <= line_end(text, from) <= text.len(),
    decreases text.len() - from,
{
    if from < text.len() && text[from] != '\n' {
        lemma_line_end(text, from + 1);
    }
}

/// The end of the line that a place lies in.
pub fn end_of_line(text: &Vec<char>, from: usize) -> (end: usize)
    requires
        from <= text.len(),
    ensures
        end == line_end(text@, from as int),
        from <= end <= text.len(),
{
    let mut at: usize = from;
    while at < text.len() && text[at] != '\n'
        invariant
            from <= at <= text.len(),
            line_end(text@, at as int) == line_end(text@, from as int),
        decreases text.len() - at,
    {
        at = at + 1;
    }
    at
}

/// Whether a character is white space.
pub open spec fn is_space(c: char) -> bool {
    ||| '\u{9}' <= c <= '\u{d}'
    ||| c == ' '
    ||| c == '\u{85}'
    ||| c == '\u{a0}'
    ||| c == '\u{1680}'
    ||| '\u{2000}' <= c <= '\u{200a}'
    ||| c == '\u{2028}'
    ||| c == '\u{2029}'
    ||| c == '\u{202f}'
    ||| c == '\u{205f}'
    ||| c == '\u{3000}'
}

fn space(c: char) -> (result: bool)
    ensures
        result == is_space(c),
{
    ('\u{9}' <= c && c <= '\u{d}') || c == ' ' || c == '\u{85}' || c == '\u{a0}' || c
        == '\u{1680}' || ('\u{2000}' <= c && c <= '\u{200a}') || c == '\u{2028}' || c == '\u{2029}'
        || c == '\u{202f}' || c == '\u{205f}' || c == '\u{3000}'
}

/// A run of characters: where it begins, and where it ends.
#[derive(Debug, Clone, Copy, PartialEq, Eq, Structural)]
pub struct Span {
    pub start: usize,
    pub end: usize,
}

impl Span {
    /// The characters of the run.
    pub open spec fn of(self, text: Seq<char>) -> Seq<char> {
        text.subrange(self.start as int, self.end as int)
    }
}

/// The first place in a run that is not white space.
pub open spec fn after_spaces(text: Seq<char>, from: int, end: int) -> int
    decreases end - from,
{
    if from >= end || !is_space(text[from]) {
        from
    } else {
        after_spaces(text, from + 1, end)
    }
}

/// The first place in a run that is white space, or its end.
pub open spec fn word_end(text: Seq<char>, from: int, end: int) -> int
    decreases end - from,
{
    if from >= end || is_space(text[from]) {
        from
    } else {
        word_end(text, from + 1, end)
    }
}

/// The first word of a run.
pub open spec fn first_word_of(text: Seq<char>, from: int, end: int) -> Option<Seq<char>> {
    let start = after_spaces(text, from, end);
    if start >= end {
        None
    } else {
        Some(text.subrange(start, word_end(text, start, end)))
    }
}

/// The first word of a run.
pub fn first_word(text: &Vec<char>, from: usize, end: usize) -> (word: Option<Span>)
    requires
        from <= end <= text.len(),
    ensures
        match word {
            Some(word) => word.start <= word.end <= end && first_word_of(
                text@,
                from as int,
                end as int,
            ) == Some(word.of(text@)),
            None => first_word_of(text@, from as int, end as int) is None,
        },
{
    let mut start: usize = from;
    while start < end && space(text[start])
        invariant
            from <= start <= end <= text.len(),
            after_spaces(text@, start as int, end as int) == after_spaces(
                text@,
                from as int,
                end as int,
            ),
        decreases end - start,
    {
        start = start + 1;
    }
    if start >= end {
        return None;
    }
    let mut stop: usize = start;
    while stop < end && !space(text[stop])
        invariant
            start <= stop <= end <= text.len(),
            word_end(text@, stop as int, end as int) == word_end(
                text@,
                start as int,
                end as int,
            ),
        decreases end - stop,
    {
        stop = stop + 1;
    }
    Some(Span { start, end: stop })
}

/// The end of a run without the white space there.
pub open spec fn before_spaces(text: Seq<char>, from: int, end: int) -> int
    decreases end - from,
{
    if end <= from || !is_space(text[end - 1]) {
        end
    } else {
        before_spaces(text, from, end - 1)
    }
}

/// The end of a run without the full stops there.
pub open spec fn before_stops(text: Seq<char>, from: int, end: int) -> int
    decreases end - from,
{
    if end <= from || text[end - 1] != '.' {
        end
    } else {
        before_stops(text, from, end - 1)
    }
}

/// A run without the white space on both ends, and without the full stops that
/// it ends with then.
pub open spec fn trimmed_value(text: Seq<char>, from: int, end: int) -> Seq<char> {
    let start = after_spaces(text, from, end);
    text.subrange(start, before_stops(text, start, before_spaces(text, start, end)))
}

/// A run without the white space on both ends, and without the full stops that
/// it ends with then.
pub fn trim_value(text: &Vec<char>, from: usize, end: usize) -> (value: Span)
    requires
        from <= end <= text.len(),
    ensures
        value.start <= value.end <= end,
        value.of(text@) == trimmed_value(text@, from as int, end as int),
{
    let mut start: usize = from;
    while start < end && space(text[start])
        invariant
            from <= start <= end <= text.len(),
            after_spaces(text@, start as int, end as int) == after_spaces(
                text@,
                from as int,
                end as int,
            ),
        decreases end - start,
    {
        start = start + 1;
    }
    let mut stop: usize = end;
    while stop > start && space(text[stop - 1])
        invariant
            start <= stop <= end <= text.len(),
            before_spaces(text@, start as int, stop as int) == before_spaces(
                text@,
                start as int,
                end as int,
            ),
        decreases stop - start,
    {
        stop = stop - 1;
    }
    let ghost spaced = stop as int;
    while stop > start && text[stop - 1] == '.'
        invariant
            start <= stop <= end <= text.len(),
            before_stops(text@, start as int, stop as int) == before_stops(
                text@,
                start as int,
                spaced,
            ),
        decreases stop - start,
    {
        stop = stop - 1;
    }
    Span { start, end: stop }
}

/// Whether a line that a place lies in ends at another place: at a line feed or
/// the end of the text, with no line feed before it.
pub open spec fn ends_line(text: Seq<char>, from: int, end: int) -> bool {
    &&& 0 <= from <= end <= text.len()
    &&& end == text.len() || text[end] == '\n'
    &&& forall|i: int| from <= i < end ==> #[trigger] text[i] != '\n'
}

/// A line ends at its first line feed.
pub proof fn lemma_lines_end_at_the_first_feed(text: Seq<char>, from: int, end: int)
    requires
        0 <= from <= text.len(),
    ensures
        end == line_end(text, from) <==> ends_line(text, from, end),
    decreases text.len() - from,
{
    if from < text.len() && text[from] != '\n' {
        lemma_lines_end_at_the_first_feed(text, from + 1, end);
        if ends_line(text, from, end) {
            assert(end != from);
        }
    } else if ends_line(text, from, end) && from < end {
        assert(text[from] != '\n');
    }
}

proof fn spaces_end(text: Seq<char>, from: int, end: int, at: int)
    requires
        0 <= from <= at <= end <= text.len(),
        forall|i: int| from <= i < at ==> is_space(#[trigger] text[i]),
        at == end || !is_space(text[at]),
    ensures
        after_spaces(text, from, end) == at,
    decreases at - from,
{
    if from < at {
        assert(is_space(text[from]));
        spaces_end(text, from + 1, end, at);
    }
}

proof fn words_end(text: Seq<char>, from: int, end: int, at: int)
    requires
        0 <= from <= at <= end <= text.len(),
        forall|i: int| from <= i < at ==> !is_space(#[trigger] text[i]),
        at == end || is_space(text[at]),
    ensures
        word_end(text, from, end) == at,
    decreases at - from,
{
    if from < at {
        assert(!is_space(text[from]));
        words_end(text, from + 1, end, at);
    }
}

proof fn spaces_begin(text: Seq<char>, from: int, end: int, at: int)
    requires
        0 <= from <= at <= end <= text.len(),
        forall|i: int| at <= i < end ==> is_space(#[trigger] text[i]),
        at == from || !is_space(text[at - 1]),
    ensures
        before_spaces(text, from, end) == at,
    decreases end - at,
{
    if at < end {
        assert(is_space(text[end - 1]));
        spaces_begin(text, from, end - 1, at);
    }
}

proof fn stops_begin(text: Seq<char>, from: int, end: int, at: int)
    requires
        0 <= from <= at <= end <= text.len(),
        forall|i: int| at <= i < end ==> #[trigger] text[i] == '.',
        at == from || text[at - 1] != '.',
    ensures
        before_stops(text, from, end) == at,
    decreases end - at,
{
    if at < end {
        assert(text[end - 1] == '.');
        stops_begin(text, from, end - 1, at);
    }
}

/// The first word of a run begins behind the white space it begins with, and goes
/// on to the next white space or the end.
pub proof fn lemma_first_word_stands_between_spaces(
    text: Seq<char>,
    from: int,
    end: int,
    start: int,
    stop: int,
)
    requires
        0 <= from <= start <= stop <= end <= text.len(),
        forall|i: int| from <= i < start ==> is_space(#[trigger] text[i]),
        forall|i: int| start <= i < stop ==> !is_space(#[trigger] text[i]),
        stop == end || is_space(text[stop]),
        start < stop || start == end,
    ensures
        start < stop ==> first_word_of(text, from, end) == Some(text.subrange(start, stop)),
        start == end ==> first_word_of(text, from, end) is None,
{
    if start < stop {
        assert(!is_space(text[start]));
    }
    spaces_end(text, from, end, start);
    words_end(text, start, end, stop);
}

/// A value is a run without the white space around it and the full stops behind
/// it.
pub proof fn lemma_values_lose_spaces_and_stops(
    text: Seq<char>,
    from: int,
    end: int,
    start: int,
    stop: int,
    dotted: int,
)
    requires
        0 <= from <= start < stop <= dotted <= end <= text.len(),
        forall|i: int| from <= i < start ==> is_space(#[trigger] text[i]),
        !is_space(text[start]),
        !is_space(text[stop - 1]),
        text[stop - 1] != '.',
        forall|i: int| stop <= i < dotted ==> #[trigger] text[i] == '.',
        forall|i: int| dotted <= i < end ==> is_space(#[trigger] text[i]),
    ensures
        trimmed_value(text, from, end) == text.subrange(start, stop),
{
    spaces_end(text, from, end, start);
    if dotted > stop {
        assert(text[dotted - 1] == '.');
    }
    spaces_begin(text, start, end, dotted);
    stops_begin(text, start, dotted, stop);
}

/// White space are the 25 characters with that property in Unicode.
pub proof fn lemma_white_space(c: char)
    ensures
        is_space(c) <==> {
            let code = c as int;
            ||| 9 <= code <= 13
            ||| code == 32
            ||| code == 133
            ||| code == 160
            ||| code == 5760
            ||| 8192 <= code <= 8202
            ||| 8232 <= code <= 8233
            ||| code == 8239
            ||| code == 8287
            ||| code == 12288
        },
{
}

} // verus!
