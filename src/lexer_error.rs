//! Lexical errors: an invalid token or an invalid number literal, each with
//! the span it covers.
use vstd::prelude::*;
use vstd::string::StringExecFns;
use crate::lexer::TokenVec;
use crate::render::{print_report, print_reports, report_all, span_report};
use crate::source::Source;
use crate::span::Span;
use crate::text::push_str;

verus! {

/// Message of an invalid token error.
pub open spec fn invalid_token_message(text: Seq<char>) -> Seq<char> {
    "invalid token `"@ + text + "`"@
}

/// Message of an invalid number literal error.
pub open spec fn invalid_number_message(text: Seq<char>, details: Seq<char>) -> Seq<char> {
    "invalid number literal `"@ + text + "` ("@ + details + ")"@
}

#[derive(Debug)]
pub struct LexerError {
    pub span: Span,
    pub message: String,
}

impl View for LexerError {
    type V = (Span, Seq<char>);

    open spec fn view(&self) -> (Span, Seq<char>) {
        (self.span, self.message@)
    }
}

impl LexerError {
    /// The error for the number literal at `span`, with why it does not parse.
    pub fn invalid_number(source: &Source, span: Span, details: &str) -> (r: LexerError)
        requires
            source.wf(),
            span.valid_in(source),
        ensures
            r.span == span,
            r.message@ == invalid_number_message(
                source.text@.subrange(span.char_range(source).0, span.char_range(source).1),
                details@,
            ),
    {
        let literal = span.get_text(source);
        let mut message = String::from_str("invalid number literal `");
        push_str(&mut message, literal.as_str());
        push_str(&mut message, "` (");
        push_str(&mut message, details);
        push_str(&mut message, ")");
        proof {
            assert(message@ =~= invalid_number_message(literal@, details@));
        }
        LexerError { span, message }
    }

    /// The error for the characters at `span`, which form no token.
    pub fn invalid_token(source: &Source, span: Span) -> (r: LexerError)
        requires
            source.wf(),
            span.valid_in(source),
        ensures
            r.span == span,
            r.message@ == invalid_token_message(
                source.text@.subrange(span.char_range(source).0, span.char_range(source).1),
            ),
    {
        let literal = span.get_text(source);
        let mut message = String::from_str("invalid token `");
        push_str(&mut message, literal.as_str());
        push_str(&mut message, "`");
        LexerError { span, message }
    }

    /// The rendered diagnostic.
    pub fn print(&self, tokens: &TokenVec) -> (r: String)
        requires
            tokens.source.wf(),
            self.span.valid_in(tokens.source),
        ensures
            r@ == span_report(tokens, "Lexer error"@, self.message@, self.span),
    {
        print_report(tokens, "Lexer error", self.message.as_str(), self.span)
    }
}

/// The result of a tokenization that found lexical errors: the tokens that
/// were scanned, and every error, in source order.
#[derive(Debug)]
pub struct LexerErrorVec<'src> {
    pub tokens: TokenVec<'src>,
    pub errors: Vec<LexerError>,
}

impl<'src> LexerErrorVec<'src> {
    /// The diagnostics of every error, in order.
    pub fn render(&self) -> (r: String)
        requires
            self.tokens.source.wf(),
        ensures
            r@ == report_all(
                &self.tokens,
                "Lexer error"@,
                self.errors@.map_values(|e: LexerError| (e.message@, e.span)),
            ),
    {
        let mut pairs: Vec<(String, Span)> = Vec::new();
        let mut k: usize = 0;
        while k < self.errors.len()
            invariant
                k <= self.errors@.len(),
                pairs@.len() == k,
                forall|i: int| 0 <= i < k ==> pairs@[i].0@ == #[trigger] self.errors@[i].message@ && pairs@[i].1 == self.errors@[i].span,
            decreases self.errors@.len() - k,
        {
            let error = &self.errors[k];
            pairs.push((error.message.clone(), error.span));
            k = k + 1;
        }
        proof {
            assert(pairs@.map_values(|e: (String, Span)| (e.0@, e.1)) =~= self.errors@.map_values(|e: LexerError| (e.message@, e.span)));
        }
        print_reports(&self.tokens, "Lexer error", &pairs)
    }
}

} // verus!
