//! A general diagnostic collector over a token sequence.
use vstd::prelude::*;
use crate::lexer::TokenVec;
use crate::lexer_error::{invalid_number_message, invalid_token_message, LexerError};
use crate::render::{print_report, print_reports, report_all, span_report};
use crate::span::Span;

verus! {

pub struct Error {
    pub message: String,
    pub span: Span,
}

impl Error {
    /// The rendered diagnostic.
    pub fn print(&self, tokens: &TokenVec) -> (r: String)
        requires
            tokens.source.wf(),
            self.span.valid_in(tokens.source),
        ensures
            r@ == span_report(tokens, "Error"@, self.message@, self.span),
    {
        print_report(tokens, "Error", self.message.as_str(), self.span)
    }
}

/// Diagnostics collected over one token sequence, in the order they were
/// added.
pub struct Errors<'src> {
    pub tokens: TokenVec<'src>,
    pub errors: Vec<Error>,
}

impl<'src> Errors<'src> {
    pub open spec fn model(&self) -> Seq<(Seq<char>, Span)> {
        self.errors@.map_values(|e: Error| (e.message@, e.span))
    }

    /// An empty collector over `tokens`.
    pub fn new(tokens: TokenVec<'src>) -> (r: Errors<'src>)
        ensures
            r.tokens == tokens,
            r.model() == Seq::<(Seq<char>, Span)>::empty(),
    {
        let r = Errors { tokens, errors: Vec::new() };
        assert(r.model() =~= Seq::<(Seq<char>, Span)>::empty());
        r
    }

    fn push(&mut self, error: LexerError)
        ensures
            final(self).tokens == old(self).tokens,
            final(self).model() == old(self).model().push((error.message@, error.span)),
    {
        self.errors.push(Error { message: error.message, span: error.span });
        assert(self.model() =~= old(self).model().push((error.message@, error.span)));
    }

    /// Adds an invalid number literal error at `span`.
    pub fn invalid_number(&mut self, span: Span, details: &str)
        requires
            old(self).tokens.source.wf(),
            span.valid_in(old(self).tokens.source),
        ensures
            final(self).tokens == old(self).tokens,
            final(self).model() == old(self).model().push(
                (
                    invalid_number_message(
                        old(self).tokens.source.text@.subrange(
                            span.char_range(old(self).tokens.source).0,
                            span.char_range(old(self).tokens.source).1,
                        ),
                        details@,
                    ),
                    span,
                ),
            ),
    {
        let error = LexerError::invalid_number(self.tokens.source, span, details);
        self.push(error);
    }

    /// Adds an invalid token error at `span`.
    pub fn invalid_token(&mut self, span: Span)
        requires
            old(self).tokens.source.wf(),
            span.valid_in(old(self).tokens.source),
        ensures
            final(self).tokens == old(self).tokens,
            final(self).model() == old(self).model().push(
                (
                    invalid_token_message(
                        old(self).tokens.source.text@.subrange(
                            span.char_range(old(self).tokens.source).0,
                            span.char_range(old(self).tokens.source).1,
                        ),
                    ),
                    span,
                ),
            ),
    {
        let error = LexerError::invalid_token(self.tokens.source, span);
        self.push(error);
    }

    /// The diagnostics of every error, in order.
    pub fn render(&self) -> (r: String)
        requires
            self.tokens.source.wf(),
        ensures
            r@ == report_all(&self.tokens, "Error"@, self.model()),
    {
        let mut pairs: Vec<(String, Span)> = Vec::new();
        let mut k: usize = 0;
        while k < self.errors.len()
            invariant
                k <= self.errors@.len(),
                pairs@.len() == k,
                forall|i: int| 0 <= i < k ==> pairs@[i].0@ == #[trigger] self.errors@[i].message@ && pairs@[i].1 == self.errors@[i].span,
            decreases self.errors@.len() - k,
        {
            let error = &self.errors[k];
            pairs.push((error.message.clone(), error.span));
            k = k + 1;
        }
        proof {
            assert(pairs@.map_values(|e: (String, Span)| (e.0@, e.1)) =~= self.model());
        }
        print_reports(&self.tokens, "Error", &pairs)
    }
}

} // verus!
