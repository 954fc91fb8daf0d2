//! The recursive-descent parser: a cursor into the token sequence, one
//! method per grammar rule, and the statement- and file-level entry points.
use vstd::prelude::*;
use vstd::string::StringExecFns;
use crate::ast::{Ast, Node, Tree};
use crate::grammar::{
    abstraction, application, application_rest, assignment, expect_ident, expect_number,
    expect_token, file, file_from, is_operator, binary_node, lemma_application_advances,
    lemma_assignment_advances, lemma_level_advances, lemma_next_pos, lemma_sync_advances,
    lemma_unary_advances, lemma_file_errors_located, lemma_line_error_located, located,
    lemma_next_pos_at_token, lemma_skip_comments, level, level_rest, line, mismatch, next_pos,
    skip_comments, skip_newlines, starts_unary, sync_to_newline, unary, SyntaxError,
};
use crate::lexer::TokenVec;
use crate::parser_error::ParserErrorVec;
use crate::source::lemma_end_is_boundary;
use crate::span::Span;
use crate::text::push_str;
use crate::token::{describe, Token, TokenKind, TokenType};

verus! {

pub type ParserResult<'src> = Result<Node, ParserErrorVec<'src>>;

/// `r` is what a rule returns where the grammar gives `o`.
pub open spec fn yields<'src>(r: ParserResult<'src>, o: Result<Tree, SyntaxError>) -> bool {
    match o {
        Ok(t) => r is Ok && r->Ok_0.tree() == t,
        Err(e) => r is Err && r->Err_0.model() == seq![e],
    }
}

pub open spec fn trees(v: Seq<Ast>) -> Seq<Tree> {
    v.map_values(|a: Ast| a.tree())
}

#[derive(Clone, Copy)]
struct Flags {
    ignore_newline: bool,
}

pub struct ParserState<'src> {
    token_vec: &'src TokenVec<'src>,
    errors: ParserErrorVec<'src>,
    pos: usize,
    stack: Vec<usize>,
}

proof fn lemma_operand_advances(ts: Seq<(TokenKind, Span)>, end: usize, lv: nat, p: int, nl: bool)
    requires
        0 <= p <= ts.len(),
    ensures
        ({
            let o = if lv <= 1 {
                application(ts, end, p, nl)
            } else {
                level(ts, end, (lv - 1) as nat, p, nl)
            };
            o.0 is Ok ==> p < o.1 <= ts.len()
        }),
{
    if lv <= 1 {
        lemma_application_advances(ts, end, p, nl);
    } else {
        lemma_level_advances(ts, end, (lv - 1) as nat, p, nl);
    }
}

/// The node that operator `kind` of level `lv` builds from two operands.
fn make_binary(lv: u8, kind: &TokenType, l: Node, r: Node) -> (n: Node)
    requires
        is_operator(lv as nat, kind@),
    ensures
        binary_node(lv as nat, kind@, l.tree(), r.tree()) == Some(n.tree()),
{
    match kind {
        TokenType::Eq => Box::new(Ast::Eq(l, r)),
        TokenType::Neq => Box::new(Ast::Neq(l, r)),
        TokenType::Or => Box::new(Ast::Or(l, r)),
        TokenType::And => Box::new(Ast::And(l, r)),
        TokenType::Add => Box::new(Ast::Add(l, r)),
        TokenType::Sub => Box::new(Ast::Sub(l, r)),
        TokenType::Mul => Box::new(Ast::Mul(l, r)),
        _ => Box::new(Ast::Div(l, r)),
    }
}

fn is_comment(token: &Token) -> (b: bool)
    ensures
        b == token@.0 is Comment,
{
    match token.token_type {
        TokenType::Comment(_) => true,
        _ => false,
    }
}

fn is_operator_of(lv: u8, kind: &TokenType) -> (b: bool)
    ensures
        b == is_operator(lv as nat, kind@),
{
    match kind {
        TokenType::Eq | TokenType::Neq => lv == 5,
        TokenType::Or => lv == 4,
        TokenType::And => lv == 3,
        TokenType::Add | TokenType::Sub => lv == 2,
        TokenType::Mul | TokenType::Div => lv == 1,
        _ => false,
    }
}

impl<'src> ParserState<'src> {
    pub closed spec fn tokens(&self) -> &'src TokenVec<'src> {
        self.token_vec
    }

    pub closed spec fn ts(&self) -> Seq<(TokenKind, Span)> {
        self.token_vec.model()
    }

    pub closed spec fn end(&self) -> usize {
        self.token_vec.end()
    }

    pub closed spec fn cursor(&self) -> int {
        self.pos as int
    }

    pub closed spec fn errors_so_far(&self) -> Seq<SyntaxError> {
        self.errors.model()
    }

    pub closed spec fn inv(&self) -> bool {
        &&& self.token_vec.source.wf()
        &&& self.pos <= self.token_vec.tokens@.len()
        &&& self.errors.tokens == self.token_vec
        &&& forall|i: int| 0 <= i < self.stack@.len() ==> self.stack@[i] <= self.token_vec.tokens@.len()
    }

    /// Only the cursor has changed.
    pub closed spec fn kept(&self, old: &Self) -> bool {
        &&& self.token_vec == old.token_vec
        &&& self.errors == old.errors
        &&& self.stack == old.stack
        &&& self.inv()
    }

    /// A parser at the first token, with no error yet.
    pub fn new(token_vec: &'src TokenVec<'src>) -> (r: ParserState<'src>)
        requires
            token_vec.source.wf(),
        ensures
            r.inv(),
            r.tokens() == token_vec,
            r.ts() == token_vec.model(),
            r.end() == token_vec.end(),
            r.cursor() == 0,
            r.errors_so_far() == Seq::<SyntaxError>::empty(),
    {
        ParserState { token_vec, errors: ParserErrorVec::new(token_vec), pos: 0, stack: Vec::new() }
    }

    /// Moves the cursor past comments and returns the token there.
    fn peek(&mut self) -> (r: Option<&'src Token>)
        requires
            old(self).inv(),
        ensures
            final(self).kept(old(self)),
            final(self).cursor() == skip_comments(old(self).ts(), old(self).cursor()),
            final(self).ts().len() == final(self).token_vec.tokens@.len(),
            match r {
                Some(t) => final(self).cursor() < final(self).ts().len() && *t
                    == final(self).token_vec.tokens@[final(self).cursor()] && !(t@.0 is Comment),
                None => final(self).cursor() >= final(self).ts().len(),
            },
    {
        let tv: &'src TokenVec<'src> = self.token_vec;
        while self.pos < tv.tokens.len() && is_comment(&tv.tokens[self.pos])
            invariant
                self.kept(old(self)),
                tv == self.token_vec,
                skip_comments(self.ts(), self.cursor()) == skip_comments(old(self).ts(), old(self).cursor()),
            decreases tv.tokens@.len() - self.pos,
        {
            self.pos = self.pos + 1;
        }
        if self.pos < tv.tokens.len() {
            Some(&tv.tokens[self.pos])
        } else {
            None
        }
    }

    /// Moves the cursor past comments and past the token there, and returns
    /// that token.
    fn next(&mut self) -> (r: Option<&'src Token>)
        requires
            old(self).inv(),
        ensures
            final(self).kept(old(self)),
            ({
                let q = skip_comments(old(self).ts(), old(self).cursor());
                &&& final(self).cursor() == if q < old(self).ts().len() { q + 1 } else { q }
                &&& match r {
                    Some(t) => q < old(self).ts().len() && *t == old(self).token_vec.tokens@[q],
                    None => q >= old(self).ts().len(),
                }
            }),
    {
        match self.peek() {
            Some(token) => {
                if self.pos < self.token_vec.tokens.len() {
                    self.pos = self.pos + 1;
                }
                Some(token)
            },
            None => None,
        }
    }

    /// Saves the cursor.
    fn push(&mut self)
        requires
            old(self).inv(),
        ensures
            final(self).inv(),
            final(self).token_vec == old(self).token_vec,
            final(self).errors == old(self).errors,
            final(self).pos == old(self).pos,
            final(self).stack@ == old(self).stack@.push(old(self).pos),
    {
        self.stack.push(self.pos);
    }

    /// Restores the last saved cursor.
    fn pop(&mut self)
        requires
            old(self).inv(),
            old(self).stack@.len() > 0,
        ensures
            final(self).inv(),
            final(self).token_vec == old(self).token_vec,
            final(self).errors == old(self).errors,
            final(self).pos == old(self).stack@.last(),
            final(self).stack@ == old(self).stack@.drop_last(),
    {
        match self.stack.pop() {
            Some(p) => self.pos = p,
            None => {},
        }
    }

    /// The error of a rule that expected `what` and met the cursor.
    fn error_here(&self, what: &str) -> (r: ParserErrorVec<'src>)
        requires
            self.inv(),
        ensures
            r.tokens == self.token_vec,
            r.model() == seq![mismatch(self.ts(), self.end(), self.cursor(), what@)],
    {
        let tv = self.token_vec;
        let mut message = String::from_str("expected ");
        push_str(&mut message, what);
        if self.pos < tv.tokens.len() {
            let token = &tv.tokens[self.pos];
            push_str(&mut message, ", found ");
            let found = token.token_type.describe();
            push_str(&mut message, found.as_str());
            proof {
                assert(message@ =~= "expected "@ + what@ + ", found "@ + describe(self.ts()[self.cursor()].0));
            }
            ParserErrorVec::single(message, tv, token.span.start, token.span.end)
        } else {
            push_str(&mut message, ", found end of input");
            proof {
                assert(message@ =~= "expected "@ + what@ + ", found end of input"@);
            }
            ParserErrorVec::single_end(message, tv)
        }
    }

    fn parse_token(&mut self, token_type: TokenType, flags: Flags) -> (r: Result<(), ParserErrorVec<'src>>)
        requires
            old(self).inv(),
        ensures
            final(self).kept(old(self)),
            ({
                let o = expect_token(old(self).ts(), old(self).end(), token_type@, old(self).cursor(), flags.ignore_newline);
                &&& final(self).cursor() == o.1
                &&& match o.0 {
                    Ok(_) => r is Ok,
                    Err(e) => r is Err && r->Err_0.model() == seq![e],
                }
            }),
    {
        let mut what = String::from_str("token ");
        let name = token_type.describe();
        push_str(&mut what, name.as_str());
        self.skip_newlines(flags);
        match self.peek() {
            Some(token) => {
                if token.token_type.same_as(&token_type) {
                    self.next();
                    Ok(())
                } else {
                    Err(self.error_here(what.as_str()))
                }
            },
            None => Err(self.error_here(what.as_str())),
        }
    }

    fn parse_ident(&mut self, flags: Flags) -> (r: Result<String, ParserErrorVec<'src>>)
        requires
            old(self).inv(),
        ensures
            final(self).kept(old(self)),
            ({
                let o = expect_ident(old(self).ts(), old(self).end(), old(self).cursor(), flags.ignore_newline);
                &&& final(self).cursor() == o.1
                &&& match o.0 {
                    Ok(name) => r is Ok && r->Ok_0@ == name,
                    Err(e) => r is Err && r->Err_0.model() == seq![e],
                }
            }),
    {
        self.skip_newlines(flags);
        match self.peek() {
            Some(token) => match &token.token_type {
                TokenType::Ident(name) => {
                    let name = name.clone();
                    self.next();
                    Ok(name)
                },
                _ => Err(self.error_here("identifier")),
            },
            None => Err(self.error_here("identifier")),
        }
    }

    fn parse_number(&mut self, flags: Flags) -> (r: Result<u64, ParserErrorVec<'src>>)
        requires
            old(self).inv(),
        ensures
            final(self).kept(old(self)),
            ({
                let o = expect_number(old(self).ts(), old(self).end(), old(self).cursor(), flags.ignore_newline);
                &&& final(self).cursor() == o.1
                &&& match o.0 {
                    Ok(n) => r == Ok::<u64, ParserErrorVec<'src>>(n),
                    Err(e) => r is Err && r->Err_0.model() == seq![e],
                }
            }),
    {
        self.skip_newlines(flags);
        match self.peek() {
            Some(token) => match &token.token_type {
                TokenType::Num(num) => {
                    let num = *num;
                    self.next();
                    Ok(num)
                },
                _ => Err(self.error_here("number")),
            },
            None => Err(self.error_here("number")),
        }
    }

    /// Skips line breaks (and comments) where the flags say so.
    fn skip_newlines(&mut self, flags: Flags)
        requires
            old(self).inv(),
        ensures
            final(self).kept(old(self)),
            final(self).cursor() == skip_newlines(old(self).ts(), old(self).cursor(), flags.ignore_newline),
    {
        if !flags.ignore_newline {
            return;
        }
        loop
            invariant
                self.kept(old(self)),
                skip_newlines(self.ts(), self.cursor(), true) == skip_newlines(old(self).ts(), old(self).cursor(), true),
            ensures
                self.kept(old(self)),
                self.cursor() == skip_newlines(old(self).ts(), old(self).cursor(), true),
            decreases self.ts().len() - self.cursor(),
        {
            let ghost p = self.cursor();
            proof {
                lemma_skip_comments(self.ts(), p);
            }
            match self.peek() {
                Some(token) => {
                    if token.token_type.is_kind(&TokenType::Eol) {
                        self.next();
                    } else {
                        break;
                    }
                },
                None => break,
            }
        }
    }

    /// Skips past the next line break.
    fn sync_to_newline(&mut self)
        requires
            old(self).inv(),
        ensures
            final(self).kept(old(self)),
            final(self).cursor() == sync_to_newline(old(self).ts(), old(self).cursor()),
    {
        loop
            invariant_except_break
                sync_to_newline(self.ts(), self.cursor()) == sync_to_newline(old(self).ts(), old(self).cursor()),
            invariant
                self.kept(old(self)),
            ensures
                self.kept(old(self)),
                self.cursor() == sync_to_newline(old(self).ts(), old(self).cursor()),
            decreases self.ts().len() - self.cursor(),
        {
            let ghost p = self.cursor();
            proof {
                lemma_skip_comments(self.ts(), p);
            }
            match self.next() {
                Some(token) => {
                    if token.token_type.is_kind(&TokenType::Eol) {
                        break;
                    }
                },
                None => break,
            }
        }
    }

    fn parse_assignment(&mut self, flags: Flags) -> (r: ParserResult<'src>)
        requires
            old(self).inv(),
        ensures
            final(self).kept(old(self)),
            ({
                let o = assignment(old(self).ts(), old(self).end(), old(self).cursor(), flags.ignore_newline);
                final(self).cursor() == o.1 && yields(r, o.0)
            }),
    {
        let name = match self.parse_ident(flags) {
            Ok(name) => name,
            Err(e) => return Err(e),
        };
        match self.parse_token(TokenType::Assign, flags) {
            Ok(()) => {},
            Err(e) => return Err(e),
        }
        let expr = match self.parse_abstraction(flags) {
            Ok(expr) => expr,
            Err(e) => return Err(e),
        };
        Ok(Box::new(Ast::Assign(name, expr)))
    }

    fn parse_abstraction(&mut self, flags: Flags) -> (r: ParserResult<'src>)
        requires
            old(self).inv(),
        ensures
            final(self).kept(old(self)),
            ({
                let o = abstraction(old(self).ts(), old(self).end(), old(self).cursor(), flags.ignore_newline);
                final(self).cursor() == o.1 && yields(r, o.0)
            }),
        decreases old(self).ts().len() - old(self).cursor(), 19nat,
    {
        let ghost ts = self.ts();
        let ghost nl = flags.ignore_newline;
        let ghost p = self.cursor();
        proof {
            lemma_next_pos(ts, p, nl);
        }
        if self.parse_token(TokenType::Lambda, flags).is_ok() {
            let ghost c1 = self.cursor();
            proof {
                lemma_next_pos(ts, c1, nl);
            }
            let arg = match self.parse_ident(flags) {
                Ok(arg) => arg,
                Err(e) => return Err(e),
            };
            let ghost c2 = self.cursor();
            proof {
                lemma_next_pos(ts, c2, nl);
            }
            match self.parse_token(TokenType::Dot, flags) {
                Ok(()) => {},
                Err(e) => return Err(e),
            }
            let body = match self.parse_abstraction(flags) {
                Ok(body) => body,
                Err(e) => return Err(e),
            };
            Ok(Box::new(Ast::Abs(arg, body)))
        } else {
            self.parse_comparison(flags)
        }
    }

    fn parse_comparison(&mut self, flags: Flags) -> (r: ParserResult<'src>)
        requires
            old(self).inv(),
        ensures
            final(self).kept(old(self)),
            ({
                let o = level(old(self).ts(), old(self).end(), 5, old(self).cursor(), flags.ignore_newline);
                final(self).cursor() == o.1 && yields(r, o.0)
            }),
        decreases old(self).ts().len() - old(self).cursor(), 18nat,
    {
        self.parse_level(5, flags)
    }

    fn parse_disjunction(&mut self, flags: Flags) -> (r: ParserResult<'src>)
        requires
            old(self).inv(),
        ensures
            final(self).kept(old(self)),
            ({
                let o = level(old(self).ts(), old(self).end(), 4, old(self).cursor(), flags.ignore_newline);
                final(self).cursor() == o.1 && yields(r, o.0)
            }),
        decreases old(self).ts().len() - old(self).cursor(), 15nat,
    {
        self.parse_level(4, flags)
    }

    fn parse_conjunction(&mut self, flags: Flags) -> (r: ParserResult<'src>)
        requires
            old(self).inv(),
        ensures
            final(self).kept(old(self)),
            ({
                let o = level(old(self).ts(), old(self).end(), 3, old(self).cursor(), flags.ignore_newline);
                final(self).cursor() == o.1 && yields(r, o.0)
            }),
        decreases old(self).ts().len() - old(self).cursor(), 12nat,
    {
        self.parse_level(3, flags)
    }

    fn parse_sum(&mut self, flags: Flags) -> (r: ParserResult<'src>)
        requires
            old(self).inv(),
        ensures
            final(self).kept(old(self)),
            ({
                let o = level(old(self).ts(), old(self).end(), 2, old(self).cursor(), flags.ignore_newline);
                final(self).cursor() == o.1 && yields(r, o.0)
            }),
        decreases old(self).ts().len() - old(self).cursor(), 9nat,
    {
        self.parse_level(2, flags)
    }

    fn parse_product(&mut self, flags: Flags) -> (r: ParserResult<'src>)
        requires
            old(self).inv(),
        ensures
            final(self).kept(old(self)),
            ({
                let o = level(old(self).ts(), old(self).end(), 1, old(self).cursor(), flags.ignore_newline);
                final(self).cursor() == o.1 && yields(r, o.0)
            }),
        decreases old(self).ts().len() - old(self).cursor(), 6nat,
    {
        self.parse_level(1, flags)
    }

    /// The operand of an operator of level `lv`: the next tighter level.
    fn parse_operand(&mut self, lv: u8, flags: Flags) -> (r: ParserResult<'src>)
        requires
            old(self).inv(),
            1 <= lv <= 5,
        ensures
            final(self).kept(old(self)),
            ({
                let o = if lv <= 1 {
                    application(old(self).ts(), old(self).end(), old(self).cursor(), flags.ignore_newline)
                } else {
                    level(old(self).ts(), old(self).end(), (lv - 1) as nat, old(self).cursor(), flags.ignore_newline)
                };
                final(self).cursor() == o.1 && yields(r, o.0)
            }),
        decreases old(self).ts().len() - old(self).cursor(), 3 * lv + 1,
    {
        if lv == 5 {
            self.parse_disjunction(flags)
        } else if lv == 4 {
            self.parse_conjunction(flags)
        } else if lv == 3 {
            self.parse_sum(flags)
        } else if lv == 2 {
            self.parse_product(flags)
        } else {
            self.parse_application(flags)
        }
    }

    /// A left-associative chain of operators of level `lv`.
    fn parse_level(&mut self, lv: u8, flags: Flags) -> (r: ParserResult<'src>)
        requires
            old(self).inv(),
            1 <= lv <= 5,
        ensures
            final(self).kept(old(self)),
            ({
                let o = level(old(self).ts(), old(self).end(), lv as nat, old(self).cursor(), flags.ignore_newline);
                final(self).cursor() == o.1 && yields(r, o.0)
            }),
        decreases old(self).ts().len() - old(self).cursor(), 3 * lv + 2,
    {
        let ghost ts = self.ts();
        let ghost end = self.end();
        let ghost nl = flags.ignore_newline;
        let ghost p = self.cursor();
        proof {
            lemma_operand_advances(ts, end, lv as nat, p, nl);
        }
        let mut expr = match self.parse_operand(lv, flags) {
            Ok(expr) => expr,
            Err(e) => return Err(e),
        };
        loop
            invariant
                self.kept(old(self)),
                ts == self.ts(),
                end == self.end(),
                1 <= lv <= 5,
                p == old(self).cursor(),
                nl == flags.ignore_newline,
                p < self.cursor(),
                level(ts, end, lv as nat, p, nl) == level_rest(ts, end, lv as nat, self.cursor(), nl, expr.tree()),
            decreases ts.len() - self.cursor(),
        {
            let before = self.pos;
            proof {
                lemma_next_pos(ts, before as int, nl);
            }
            self.skip_newlines(flags);
            match self.peek() {
                Some(token) => {
                    if is_operator_of(lv, &token.token_type) {
                        self.next();
                        proof {
                            lemma_operand_advances(ts, end, lv as nat, self.cursor(), nl);
                        }
                        let rhs = match self.parse_operand(lv, flags) {
                            Ok(rhs) => rhs,
                            Err(e) => return Err(e),
                        };
                        expr = make_binary(lv, &token.token_type, expr, rhs);
                    } else {
                        return Ok(expr);
                    }
                },
                None => return Ok(expr),
            }
        }
    }

    fn parse_application(&mut self, flags: Flags) -> (r: ParserResult<'src>)
        requires
            old(self).inv(),
        ensures
            final(self).kept(old(self)),
            ({
                let o = application(old(self).ts(), old(self).end(), old(self).cursor(), flags.ignore_newline);
                final(self).cursor() == o.1 && yields(r, o.0)
            }),
        decreases old(self).ts().len() - old(self).cursor(), 3nat,
    {
        let ghost ts = self.ts();
        let ghost end = self.end();
        let ghost nl = flags.ignore_newline;
        let ghost p = self.cursor();
        proof {
            lemma_unary_advances(ts, end, p, nl);
        }
        let mut expr = match self.parse_unary(flags) {
            Ok(expr) => expr,
            Err(e) => return Err(e),
        };
        loop
            invariant
                self.kept(old(self)),
                ts == self.ts(),
                end == self.end(),
                p == old(self).cursor(),
                nl == flags.ignore_newline,
                p < self.cursor(),
                application(ts, end, p, nl) == application_rest(ts, end, self.cursor(), nl, expr.tree()),
            decreases ts.len() - self.cursor(),
        {
            let before = self.pos;
            proof {
                lemma_next_pos(ts, before as int, nl);
            }
            if !self.is_unary(flags) {
                return Ok(expr);
            }
            proof {
                lemma_unary_advances(ts, end, self.cursor(), nl);
            }
            let arg = match self.parse_unary(flags) {
                Ok(arg) => arg,
                Err(e) => return Err(e),
            };
            expr = Box::new(Ast::App(expr, arg));
        }
    }

    /// Whether a unary expression starts at the next token.
    fn is_unary(&mut self, flags: Flags) -> (r: bool)
        requires
            old(self).inv(),
        ensures
            final(self).kept(old(self)),
            final(self).cursor() == next_pos(old(self).ts(), old(self).cursor(), flags.ignore_newline),
            r == (final(self).cursor() < final(self).ts().len() && starts_unary(
                final(self).ts()[final(self).cursor()].0,
            )),
    {
        self.skip_newlines(flags);
        match self.peek() {
            Some(token) => match token.token_type {
                TokenType::LPar | TokenType::Not | TokenType::Ident(_) | TokenType::Num(_) => true,
                _ => false,
            },
            None => false,
        }
    }

    fn parse_unary(&mut self, flags: Flags) -> (r: ParserResult<'src>)
        requires
            old(self).inv(),
        ensures
            final(self).kept(old(self)),
            ({
                let o = unary(old(self).ts(), old(self).end(), old(self).cursor(), flags.ignore_newline);
                final(self).cursor() == o.1 && yields(r, o.0)
            }),
        decreases old(self).ts().len() - old(self).cursor(), 1nat,
    {
        let ghost ts = self.ts();
        let ghost nl = flags.ignore_newline;
        let ghost p = self.cursor();
        proof {
            lemma_next_pos(ts, p, nl);
        }
        self.skip_newlines(flags);
        match self.peek() {
            Some(token) => match &token.token_type {
                TokenType::LPar => {
                    self.next();
                    let expr = match self.parse_abstraction(Flags { ignore_newline: true }) {
                        Ok(expr) => expr,
                        Err(e) => return Err(e),
                    };
                    match self.parse_token(TokenType::RPar, flags) {
                        Ok(()) => Ok(expr),
                        Err(e) => Err(e),
                    }
                },
                TokenType::Not => {
                    self.next();
                    match self.parse_unary(flags) {
                        Ok(expr) => Ok(Box::new(Ast::Not(expr))),
                        Err(e) => Err(e),
                    }
                },
                TokenType::Ident(_) => {
                    proof {
                        lemma_next_pos_at_token(ts, self.cursor(), nl);
                    }
                    match self.parse_ident(flags) {
                        Ok(name) => Ok(Box::new(Ast::Var(name))),
                        Err(e) => Err(e),
                    }
                },
                TokenType::Num(_) => {
                    proof {
                        lemma_next_pos_at_token(ts, self.cursor(), nl);
                    }
                    match self.parse_number(flags) {
                        Ok(num) => Ok(Box::new(Ast::Num(num))),
                        Err(e) => Err(e),
                    }
                },
                _ => Err(self.error_here("expression")),
            },
            None => Err(self.error_here("expression")),
        }
    }

    /// Parses one statement: an assignment, or else a bare expression.
    /// When both fail, the error that starts later is reported.
    pub fn parse_line(self) -> (r: ParserResult<'src>)
        requires
            self.inv(),
            self.cursor() == 0,
        ensures
            match line(self.ts(), self.end()) {
                Ok(t) => r is Ok && r->Ok_0.tree() == t,
                Err(e) => r is Err && r->Err_0.model() == seq![e],
            },
            r is Err ==> located(self.ts(), self.end(), r->Err_0.model()[0].1),
    {
        proof {
            lemma_line_error_located(self.ts(), self.end());
        }
        let mut st = self;
        st.push();
        let err1 = match st.parse_assignment(Flags { ignore_newline: false }) {
            Ok(ast) => return Ok(ast),
            Err(err) => err,
        };
        st.pop();
        let err2 = match st.parse_abstraction(Flags { ignore_newline: false }) {
            Ok(ast) => return Ok(ast),
            Err(err) => err,
        };
        Err(ParserErrorVec::get_longer_of(err1, err2))
    }

    /// Parses a file of statements, each ended by a line break. A statement
    /// that fails is reported, and parsing resumes after the next line
    /// break, so that every failing statement is reported.
    pub fn parse_file(self) -> (r: ParserResult<'src>)
        requires
            self.inv(),
            self.cursor() == 0,
            self.errors_so_far() == Seq::<SyntaxError>::empty(),
        ensures
            match file(self.ts(), self.end()) {
                Ok(stmts) => r is Ok && r->Ok_0.tree() == Tree::Source(stmts),
                Err(errors) => r is Err && r->Err_0.model() == errors,
            },
            r is Err ==> forall|k: int|
                0 <= k < r->Err_0.model().len() ==> located(self.ts(), self.end(), (#[trigger] r->Err_0.model()[k]).1),
    {
        let ghost ts = self.ts();
        let ghost end = self.end();
        proof {
            lemma_file_errors_located(ts, end, 0);
        }
        let mut st = self;
        let mut asts: Vec<Ast> = Vec::new();
        loop
            invariant_except_break
                file_from(ts, end, 0) == (
                    trees(asts@) + file_from(ts, end, st.cursor()).0,
                    st.errors_so_far() + file_from(ts, end, st.cursor()).1,
                ),
            invariant
                st.inv(),
                ts == st.ts(),
                end == st.end(),
            ensures
                file_from(ts, end, 0) == (trees(asts@), st.errors_so_far()),
            decreases ts.len() - st.cursor(),
        {
            let before = st.pos;
            let ghost asts0 = asts@;
            let ghost errs0 = st.errors_so_far();
            let ghost f = file_from(ts, end, before as int);
            proof {
                lemma_next_pos(ts, before as int, true);
            }
            st.skip_newlines(Flags { ignore_newline: true });
            if st.peek().is_none() {
                proof {
                    assert(trees(asts0) + f.0 =~= trees(asts0));
                    assert(errs0 + f.1 =~= errs0);
                }
                break;
            }
            proof {
                lemma_assignment_advances(ts, end, st.cursor(), false);
                lemma_sync_advances(ts, assignment(ts, end, st.cursor(), false).1);
            }
            match st.parse_assignment(Flags { ignore_newline: false }) {
                Ok(ast) => {
                    let ghost t = ast.tree();
                    asts.push(*ast);
                    proof {
                        assert(trees(asts@) =~= trees(asts0).push(t));
                    }
                },
                Err(err) => {
                    st.errors.combine(err);
                    st.sync_to_newline();
                },
            }
            proof {
                let rest = file_from(ts, end, st.cursor());
                assert(trees(asts0) + f.0 =~= trees(asts@) + rest.0);
                assert(errs0 + f.1 =~= st.errors_so_far() + rest.1);
            }
        }
        if st.errors.errors.len() == 0 {
            let ghost stmts = trees(asts@);
            let program = Ast::Source(asts);
            proof {
                assert(program.tree()->Source_0 =~= stmts);
            }
            Ok(Box::new(program))
        } else {
            Err(st.errors)
        }
    }
}

/// A syntax error located at a token of a sequence whose spans are all well
/// formed, or at the end of the input, is well formed too.
proof fn lemma_located_valid(tokens: &TokenVec, span: Span)
    requires
        tokens.source.wf(),
        tokens.spans_valid(),
        located(tokens.model(), tokens.end(), span),
    ensures
        span.valid_in(tokens.source),
{
    if span == (Span { start: tokens.end(), end: tokens.end() }) {
        lemma_end_is_boundary(tokens.source);
    } else {
        let q = choose|q: int| 0 <= q < tokens.model().len() && #[trigger] tokens.model()[q].1 == span;
        assert(tokens.model()[q].1.valid_in(tokens.source));
    }
}

/// Parses a file of statements. When the tokens' spans are well formed,
/// so is every error's.
pub fn parse_file<'src>(tokens: &'src TokenVec<'src>) -> (r: ParserResult<'src>)
    requires
        tokens.source.wf(),
    ensures
        match file(tokens.model(), tokens.end()) {
            Ok(stmts) => r is Ok && r->Ok_0.tree() == Tree::Source(stmts),
            Err(errors) => r is Err && r->Err_0.model() == errors,
        },
        r is Err && tokens.spans_valid() ==> forall|k: int|
            0 <= k < r->Err_0.model().len() ==> (#[trigger] r->Err_0.model()[k]).1.valid_in(tokens.source),
{
    let r = ParserState::new(tokens).parse_file();
    proof {
        if r is Err && tokens.spans_valid() {
            assert forall|k: int| 0 <= k < r->Err_0.model().len() implies (#[trigger] r->Err_0.model()[k]).1.valid_in(
                tokens.source,
            ) by {
                lemma_located_valid(tokens, r->Err_0.model()[k].1);
            }
        }
    }
    r
}

/// Parses a single statement. When the tokens' spans are well formed, so is
/// the error's.
pub fn parse_line<'src>(tokens: &'src TokenVec<'src>) -> (r: ParserResult<'src>)
    requires
        tokens.source.wf(),
    ensures
        match line(tokens.model(), tokens.end()) {
            Ok(t) => r is Ok && r->Ok_0.tree() == t,
            Err(e) => r is Err && r->Err_0.model() == seq![e],
        },
        r is Err && tokens.spans_valid() ==> r->Err_0.model()[0].1.valid_in(tokens.source),
{
    let r = ParserState::new(tokens).parse_line();
    proof {
        if r is Err && tokens.spans_valid() {
            lemma_located_valid(tokens, r->Err_0.model()[0].1);
        }
    }
    r
}

} // verus!
