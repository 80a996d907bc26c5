//! From a text to its summary: the lines of the text, their table, its
//! rendering.

use crate::aggregate::aggregate;
use crate::aggregate::all_fit;
use crate::aggregate::lines_fit;
use crate::aggregate::fold_lines;
use crate::aggregate::lines_view;
use crate::line::find_byte;
use crate::line::lemma_first_index;
use crate::render::render_view;
use vstd::prelude::*;
use vstd::slice::slice_subrange;

verus! {

/// Ends a line: the line feed.
pub const NEWLINE: u8 = 10;

/// May stand before the line feed and is then no part of the line: the
/// carriage return.
pub const RETURN: u8 = 13;

/// A line without the carriage return at its end, if it has one.
pub open spec fn strip_return(line: Seq<u8>) -> Seq<u8> {
    if line.len() > 0 && line.last() == RETURN {
        line.drop_last()
    } else {
        line
    }
}

/// Where the first line of `text` ends: at its first line feed, or at the
/// end of the text.
pub open spec fn line_end(text: Seq<u8>) -> int {
    match text.index_of_first(NEWLINE) {
        Some(i) => i,
        None => text.len() as int,
    }
}

/// The lines of a text. Each line feed ends a line; what follows the last
/// line feed is a line too unless it is empty. Neither the line feed nor a
/// carriage return before it belongs to the line.
pub open spec fn split_lines_spec(text: Seq<u8>) -> Seq<Seq<u8>>
    decreases text.len(),
{
    let end = line_end(text);
    if text.len() == 0 {
        Seq::empty()
    } else if 0 <= end < text.len() {
        seq![strip_return(text.subrange(0, end))] + split_lines_spec(
            text.subrange(end + 1, text.len() as int),
        )
    } else {
        seq![strip_return(text)]
    }
}

/// The summary of a text: that of the table of its lines.
pub open spec fn summarize_spec(text: Seq<u8>) -> Seq<u8> {
    render_view(fold_lines(split_lines_spec(text)))
}

/// Splits a text into its lines.
pub fn split_lines<'a>(text: &'a [u8]) -> (lines: Vec<&'a [u8]>)
    ensures
        lines_view(lines@) == split_lines_spec(text@),
{
    let len = text.len();
    let mut lines: Vec<&'a [u8]> = Vec::new();
    let mut start: usize = 0;
    proof {
        assert(text@.subrange(0, len as int) == text@);
    }
    while start < len
        invariant
            start <= len == text.len(),
            lines_view(lines@) + split_lines_spec(text@.subrange(start as int, len as int))
                == split_lines_spec(text@),
        decreases len - start,
    {
        let ghost rest = text@.subrange(start as int, len as int);
        let ghost done = lines_view(lines@);
        let end = find_byte(text, start, NEWLINE);
        let stripped: usize = if end > start && text[end - 1] == RETURN { end - 1 } else { end };
        let line = slice_subrange(text, start, stripped);
        proof {
            lemma_first_index(rest, NEWLINE, end - start);
            assert(rest.subrange(0, end - start) == text@.subrange(start as int, end as int));
            assert(line@ == strip_return(text@.subrange(start as int, end as int)));
            if end < len {
                assert(rest.subrange(end - start + 1, rest.len() as int) == text@.subrange(
                    end + 1,
                    len as int,
                ));
            } else {
                assert(split_lines_spec(text@.subrange(len as int, len as int))
                    == Seq::<Seq<u8>>::empty());
            }
        }
        lines.push(line);
        start = if end < len { end + 1 } else { len };
        proof {
            assert(split_lines_spec(rest) == seq![line@] + split_lines_spec(
                text@.subrange(start as int, len as int),
            ));
            assert(done + (seq![line@] + split_lines_spec(
                text@.subrange(start as int, len as int),
            )) =~= done + seq![line@] + split_lines_spec(
                text@.subrange(start as int, len as int),
            ));
        }
    }
    proof {
        assert(split_lines_spec(text@.subrange(len as int, len as int)) == Seq::<
            Seq<u8>,
        >::empty());
    }
    lines
}

/// Every line of the text fits.
pub open spec fn text_fits(text: Seq<u8>) -> bool {
    all_fit(split_lines_spec(text))
}

/// Summarizes a text of measurement lines, the lines shared out among
/// `workers` workers. The summary does not depend on `workers`.
pub fn summarize(text: &[u8], workers: usize) -> (out: Vec<u8>)
    requires
        text_fits(text@),
    ensures
        out@ == summarize_spec(text@),
{
    let lines = split_lines(text);
    let table = aggregate(lines.as_slice(), workers);
    table.summary()
}

/// Summarizes a text if every line of it fits; `None` if one writes a value
/// whose magnitude is beyond what a measurement holds.
pub fn try_summarize(text: &[u8], workers: usize) -> (r: Option<Vec<u8>>)
    ensures
        r is Some <==> text_fits(text@),
        match r {
            Some(out) => out@ == summarize_spec(text@),
            None => true,
        },
{
    let lines = split_lines(text);
    if lines_fit(lines.as_slice()) {
        let table = aggregate(lines.as_slice(), workers);
        Some(table.summary())
    } else {
        None
    }
}

} // verus!
