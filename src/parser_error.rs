//! Syntax errors and the sets of them that a parse reports.
use vstd::prelude::*;
use crate::grammar::SyntaxError;
use crate::lexer::TokenVec;
use crate::render::{print_report, print_reports, report_all, span_report};
use crate::span::Span;

verus! {

#[derive(Debug)]
pub struct ParserError {
    pub message: String,
    pub span: Span,
}

impl View for ParserError {
    type V = SyntaxError;

    open spec fn view(&self) -> SyntaxError {
        (self.message@, self.span)
    }
}

impl ParserError {
    /// An error at the end of the input.
    pub fn new_end(message: String, tokens: &TokenVec) -> (r: ParserError)
        requires
            tokens.source.wf(),
        ensures
            r.message == message,
            r.span == (Span { start: tokens.end(), end: tokens.end() }),
    {
        let end = tokens.source.offsets[tokens.source.offsets.len() - 1];
        proof {
            assert(tokens.source.text@.take(tokens.source.text@.len() as int) =~= tokens.source.text@);
        }
        let span = Span::new(tokens.source.text.as_str(), end, end);
        ParserError { message, span }
    }

    /// The rendered diagnostic.
    pub fn print(&self, tokens: &TokenVec) -> (r: String)
        requires
            tokens.source.wf(),
            self.span.valid_in(tokens.source),
        ensures
            r@ == span_report(tokens, "Parser error"@, self.message@, self.span),
    {
        print_report(tokens, "Parser error", self.message.as_str(), self.span)
    }

    /// An error at the span `[start, end)`.
    pub fn new(message: String, tokens: &TokenVec, start: usize, end: usize) -> (r: ParserError)
        ensures
            r.message == message,
            r.span == (Span { start, end }),
    {
        let span = Span::new(tokens.source.text.as_str(), start, end);
        ParserError { message, span }
    }
}

pub open spec fn errors_model(v: Seq<ParserError>) -> Seq<SyntaxError> {
    v.map_values(|e: ParserError| e@)
}

/// Syntax errors in the order they were found, with the tokens they refer to.
#[derive(Debug)]
pub struct ParserErrorVec<'src> {
    pub tokens: &'src TokenVec<'src>,
    pub errors: Vec<ParserError>,
}

impl<'src> ParserErrorVec<'src> {
    pub open spec fn model(&self) -> Seq<SyntaxError> {
        errors_model(self.errors@)
    }

    /// Whether `other` is the more informative of two error sets: it has
    /// more errors, or as many, with a first one that starts later.
    pub open spec fn is_longer(this: Seq<SyntaxError>, other: Seq<SyntaxError>) -> bool {
        other.len() > this.len() || (other.len() == this.len() && this.len() > 0
            && other[0].1.start > this[0].1.start)
    }

    /// No errors yet.
    pub fn new(tokens: &'src TokenVec<'src>) -> (r: ParserErrorVec<'src>)
        ensures
            r.tokens == tokens,
            r.model() == Seq::<SyntaxError>::empty(),
    {
        let r = ParserErrorVec { tokens, errors: Vec::new() };
        assert(r.model() =~= Seq::<SyntaxError>::empty());
        r
    }

    /// One error at the span `[start, end)`.
    pub fn single(message: String, tokens: &'src TokenVec<'src>, start: usize, end: usize) -> (r: ParserErrorVec<'src>)
        ensures
            r.tokens == tokens,
            r.model() == seq![(message@, Span { start, end })],
    {
        let mut errors = Vec::new();
        errors.push(ParserError::new(message, tokens, start, end));
        let r = ParserErrorVec { tokens, errors };
        assert(r.model() =~= seq![(message@, Span { start, end })]);
        r
    }

    /// One error at the end of the input.
    pub fn single_end(message: String, tokens: &'src TokenVec<'src>) -> (r: ParserErrorVec<'src>)
        requires
            tokens.source.wf(),
        ensures
            r.tokens == tokens,
            r.model() == seq![(message@, Span { start: tokens.end(), end: tokens.end() })],
    {
        let mut errors = Vec::new();
        errors.push(ParserError::new_end(message, tokens));
        let r = ParserErrorVec { tokens, errors };
        assert(r.model() =~= seq![(message@, Span { start: tokens.end(), end: tokens.end() })]);
        r
    }

    /// The more informative of two error sets; `self` on a tie.
    pub fn get_longer_of(self, other: Self) -> (r: Self)
        ensures
            r == if Self::is_longer(self.model(), other.model()) {
                other
            } else {
                self
            },
    {
        let other_is_longer = other.errors.len() > self.errors.len() || (other.errors.len()
            == self.errors.len() && self.errors.len() > 0 && other.errors[0].span.start
            > self.errors[0].span.start);
        if other_is_longer {
            other
        } else {
            self
        }
    }

    /// The diagnostics of every error, in order.
    pub fn render(&self) -> (r: String)
        requires
            self.tokens.source.wf(),
        ensures
            r@ == report_all(self.tokens, "Parser error"@, self.model()),
    {
        let mut pairs: Vec<(String, Span)> = Vec::new();
        let mut k: usize = 0;
        while k < self.errors.len()
            invariant
                k <= self.errors@.len(),
                pairs@.len() == k,
                forall|i: int| 0 <= i < k ==> pairs@[i].0@ == #[trigger] self.errors@[i].message@ && pairs@[i].1 == self.errors@[i].span,
            decreases self.errors@.len() - k,
        {
            let error = &self.errors[k];
            pairs.push((error.message.clone(), error.span));
            k = k + 1;
        }
        proof {
            assert(pairs@.map_values(|e: (String, Span)| (e.0@, e.1)) =~= self.errors@.map_values(|e: ParserError| e@));
        }
        print_reports(self.tokens, "Parser error", &pairs)
    }

    /// Appends the errors of `other`.
    pub fn combine(&mut self, other: Self)
        ensures
            final(self).tokens == old(self).tokens,
            final(self).model() == old(self).model() + other.model(),
    {
        let ghost added = other.model();
        let mut rest = other;
        self.errors.append(&mut rest.errors);
        assert(self.model() =~= old(self).model() + added);
    }
}

} // verus!
