//! Byte ranges into the source text.
use vstd::prelude::*;
use vstd::string::StringExecFns;
use crate::lexer::TokenVec;
use crate::render::{print_line, render_lines};
use crate::source::Source;
use crate::text::{decimal, push_decimal, push_str, string_of};

verus! {

/// A half-open byte range `[start, end)` into a source text.
#[derive(Clone, Copy, Debug, PartialEq, Eq, Structural)]
pub struct Span {
    pub start: usize,
    pub end: usize,
}

impl Span {
    /// The span `[start, end)`; the text is the one it indexes into.
    pub fn new(_source: &str, start: usize, end: usize) -> (r: Span)
        ensures
            r.start == start,
            r.end == end,
    {
        Span { start, end }
    }

    /// Whether both ends are character boundaries of the source, in order.
    pub open spec fn valid_in(&self, source: &Source) -> bool {
        &&& self.start <= self.end
        &&& source.is_boundary(self.start as int)
        &&& source.is_boundary(self.end as int)
    }

    /// Index of the first character of the span and one past its last.
    pub open spec fn char_range(&self, source: &Source) -> (int, int) {
        (source.char_index(self.start as int), source.char_index(self.end as int))
    }

    /// Whether the span is well formed in a source.
    pub fn is_valid_in(&self, source: &Source) -> (r: bool)
        requires
            source.wf(),
        ensures
            r == self.valid_in(source),
    {
        self.start <= self.end && source.is_char_boundary(self.start) && source.is_char_boundary(self.end)
    }

    /// `file:line:column:` of the span's start, counting from 1; the column
    /// counts characters.
    pub open spec fn location(&self, source: &Source) -> Seq<char> {
        let line = source.line_of(self.start as int);
        let column = source.char_index(self.start as int) - source.char_index(source.lines@[line] as int);
        source.label() + ":"@ + decimal((line + 1) as nat) + ":"@ + decimal((column + 1) as nat) + ":"@
    }

    /// The location of the span's start.
    pub fn get_location_str(&self, source: &Source) -> (r: String)
        requires
            source.wf(),
            source.is_boundary(self.start as int),
        ensures
            r@ == self.location(source),
    {
        let (line, column) = source.get_line_column(self.start);
        let mut r = match &source.file_name {
            Some(name) => name.clone(),
            None => String::from_str("<input>"),
        };
        let line_count = source.lines.len();
        assert(line + 1 <= line_count);
        proof {
            crate::source::lemma_char_index_of_offset(source, self.char_range(source).0);
        }
        let char_count = source.offsets.len();
        push_str(&mut r, ":");
        push_decimal(&mut r, (line + 1) as u64);
        push_str(&mut r, ":");
        push_decimal(&mut r, (column + 1) as u64);
        push_str(&mut r, ":");
        assert(r@ =~= self.location(source));
        r
    }

    /// The source lines that the span touches, rendered with the span
    /// highlighted and underlined.
    pub fn print(&self, tokens: &TokenVec) -> (r: String)
        requires
            tokens.source.wf(),
            self.start <= self.end,
        ensures
            r@ == render_lines(
                tokens.source,
                tokens.model(),
                tokens.source.line_of(self.start as int),
                tokens.source.line_of(self.end as int),
                self.start as int,
                self.end as int,
            ),
    {
        let source = tokens.source;
        let line_start = source.get_line(self.start);
        let line_end = source.get_line(self.end);
        if line_end < line_start {
            proof {
                assert(source.lines@[line_end + 1] <= source.lines@[line_start as int]);
            }
        }
        let ghost toks = tokens.model();
        let mut out = String::new();
        let line_count = source.lines.len();
        let mut i = line_start;
        while i <= line_end
            invariant
                tokens.source.wf(),
                source == tokens.source,
                toks == tokens.model(),
                line_start <= i <= line_end + 1,
                line_end < source.lines@.len(),
                line_count == source.lines@.len(),
                self.start <= self.end,
                render_lines(source, toks, line_start as int, line_end as int, self.start as int, self.end as int)
                    == out@ + render_lines(source, toks, i as int, line_end as int, self.start as int, self.end as int),
            decreases line_end + 1 - i,
        {
            let piece = print_line(tokens, i, self.start, self.end);
            let ghost before = out@;
            push_str(&mut out, piece.as_str());
            proof {
                assert(before + render_lines(source, toks, i as int, line_end as int, self.start as int, self.end as int)
                    =~= out@ + render_lines(source, toks, i + 1, line_end as int, self.start as int, self.end as int));
            }
            i = i + 1;
        }
        proof {
            assert(out@ + render_lines(source, toks, i as int, line_end as int, self.start as int, self.end as int) =~= out@);
        }
        out
    }

    /// The text that the span covers.
    pub fn get_text(&self, source: &Source) -> (r: String)
        requires
            source.wf(),
            self.valid_in(source),
        ensures
            r@ == source.text@.subrange(self.char_range(source).0, self.char_range(source).1),
    {
        let a = source.find_char(self.start);
        let b = source.find_char(self.end);
        if b < a {
            proof {
                assert(source.offsets@[b as int] < source.offsets@[a as int]);
            }
        }
        string_of(&source.chars, a, b)
    }
}

} // verus!
