//! Text held in byte buffers: UTF-8 decoding and splitting into lines.

use vstd::prelude::*;
use vstd::utf8::{decode_utf8, valid_utf8};

verus! {

/// Calls `std::str::from_utf8` and collects the characters of the result.
/// Trusted: the standard library documents that `from_utf8` fails exactly when
/// `bytes` is not valid UTF-8, and otherwise gives the text whose encoding the
/// bytes are; `decode_utf8` is that text.
#[verifier::external_body]
pub(crate) fn utf8_chars(bytes: &[u8]) -> (res: Option<Vec<char>>)
    ensures
        res is Some <==> valid_utf8(bytes@),
        res matches Some(cs) ==> cs@ == decode_utf8(bytes@),
{
    match std::str::from_utf8(bytes) {
        Ok(s) => Some(s.chars().collect()),
        Err(_) => None,
    }
}

/// Whether `bytes` is valid UTF-8.
pub fn is_utf8(bytes: &[u8]) -> (ok: bool)
    ensures
        ok == valid_utf8(bytes@),
{
    utf8_chars(bytes).is_some()
}

/// The line of `text` that starts at `from`: the characters up to the next
/// line feed, or to the end, without a carriage return just before the feed.
pub open spec fn line_at(text: Seq<char>, from: int) -> Seq<char> {
    let end = line_end(text, from);
    if end < text.len() && end > from && text[end - 1] == '\r' {
        text.subrange(from, end - 1)
    } else {
        text.subrange(from, end)
    }
}

/// The position of the first line feed of `text` at or after `from`, or the
/// length of `text` when there is none.
pub open spec fn line_end(text: Seq<char>, from: int) -> int
    decreases text.len() - from,
{
    if from >= text.len() || from < 0 {
        text.len() as int
    } else if text[from] == '\n' {
        from
    } else {
        line_end(text, from + 1)
    }
}

/// Where the line after the one that starts at `from` starts.
pub open spec fn next_line_start(text: Seq<char>, from: int) -> int {
    let end = line_end(text, from);
    if end < text.len() {
        end + 1
    } else {
        text.len() as int
    }
}

/// The lines of `text` from position `from` on, as `str::lines` gives them:
/// split at line feeds, a carriage return before a feed dropped, and no empty
/// line after a final feed.
pub open spec fn lines_from(text: Seq<char>, from: int) -> Seq<Seq<char>>
    decreases text.len() - from,
{
    if from < 0 || from >= text.len() {
        Seq::empty()
    } else {
        proof {
            lemma_line_end_bounds(text, from);
        }
        seq![line_at(text, from)] + lines_from(text, next_line_start(text, from))
    }
}

/// The lines of `text`.
pub open spec fn text_lines(text: Seq<char>) -> Seq<Seq<char>> {
    lines_from(text, 0)
}

/// A line ends at the first line feed from `from` on, or at the end of the text.
pub proof fn lemma_line_end_bounds(text: Seq<char>, from: int)
    requires
        0 <= from <= text.len(),
    ensures
        from <= line_end(text, from) <= text.len(),
        line_end(text, from) < text.len() ==> text[line_end(text, from)] == '\n',
        forall|k: int| from <= k < line_end(text, from) ==> text[k] != '\n',
    decreases text.len() - from,
{
    if from < text.len() && text[from] != '\n' {
        lemma_line_end_bounds(text, from + 1);
    }
}

/// Splits `text` into lines, as `str::lines` does.
pub fn split_lines(text: &Vec<char>) -> (lines: Vec<Vec<char>>)
    ensures
        lines@.len() == text_lines(text@).len(),
        forall|i: int| 0 <= i < lines@.len() ==> #[trigger] lines@[i]@ == text_lines(text@)[i],
{
    let n = text.len();
    let mut lines: Vec<Vec<char>> = Vec::new();
    let mut from: usize = 0;
    while from < n
        invariant
            n == text@.len(),
            from <= n,
            text_lines(text@) == lines@.map_values(|l: Vec<char>| l@) + lines_from(text@, from as int),
        decreases n - from,
    {
        let mut end: usize = from;
        while end < n && text[end] != '\n'
            invariant
                n == text@.len(),
                from <= end <= n,
                line_end(text@, from as int) == line_end(text@, end as int),
            decreases n - end,
        {
            end += 1;
        }
        let stop: usize = if end < n && end > from && text[end - 1] == '\r' { end - 1 } else { end };
        let mut line: Vec<char> = Vec::new();
        let mut k: usize = from;
        while k < stop
            invariant
                n == text@.len(),
                from <= k <= stop <= n,
                line@ == text@.subrange(from as int, k as int),
            decreases stop - k,
        {
            line.push(text[k]);
            k += 1;
            assert(line@ =~= text@.subrange(from as int, k as int));
        }
        proof {
            assert(line@ =~= line_at(text@, from as int));
            let before = lines@.map_values(|l: Vec<char>| l@);
            assert(lines@.push(line).map_values(|l: Vec<char>| l@) =~= before.push(line@));
            let next = next_line_start(text@, from as int);
            assert(lines_from(text@, from as int) == seq![line_at(text@, from as int)] + lines_from(text@, next));
            assert(before + lines_from(text@, from as int) =~= before.push(line@) + lines_from(text@, next));
        }
        lines.push(line);
        from = if end < n { end + 1 } else { n };
    }
    proof {
        assert(lines_from(text@, from as int) =~= Seq::<Seq<char>>::empty());
        assert(text_lines(text@) =~= lines@.map_values(|l: Vec<char>| l@));
    }
    lines
}

} // verus!
