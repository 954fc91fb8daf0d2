//! The tokenizer: one left-to-right scan over the characters of a source,
//! producing every token it can and collecting lexical errors on the way.
use vstd::prelude::*;
use vstd::std_specs::iter::IteratorSpec;
use vstd::string::StringExecFns;
use crate::lexer_error::{invalid_number_message, invalid_token_message, LexerError, LexerErrorVec};
use crate::source::{lemma_char_index_of_offset, Source};
use crate::text::lemma_byte_len_take;
use crate::span::Span;
use crate::text::{
    alphabetic_char, byte_len, is_alphabetic, is_alphanumeric, is_numeric, is_whitespace,
    numeric_char, string_of, whitespace_char,
};
use crate::token::{Token, TokenKind, TokenType};

verus! {

/// The classes of characters that runs are scanned over.
#[derive(Clone, Copy, PartialEq, Eq, Structural)]
pub enum CharClass {
    /// Anything but a line break: the body of a comment.
    NotNewline,
    /// Whitespace other than a line break.
    Space,
    /// Letters, digits and `_`: the rest of an identifier.
    Word,
    /// Letters and digits: the rest of a number literal.
    Alnum,
    /// Neither alphanumeric nor whitespace: the rest of an invalid token.
    Junk,
}

pub open spec fn in_class(cls: CharClass, c: char) -> bool {
    match cls {
        CharClass::NotNewline => c != '\n' && c != '\r',
        CharClass::Space => whitespace_char(c) && c != '\n' && c != '\r',
        CharClass::Word => alphabetic_char(c) || numeric_char(c) || c == '_',
        CharClass::Alnum => alphabetic_char(c) || numeric_char(c),
        CharClass::Junk => !(alphabetic_char(c) || numeric_char(c)) && !whitespace_char(c),
    }
}

/// End of the run of characters of class `cls` that starts at index `i`.
pub open spec fn scan_end(cs: Seq<char>, i: int, cls: CharClass) -> int
    decreases cs.len() - i,
{
    if 0 <= i < cs.len() && in_class(cls, cs[i]) {
        scan_end(cs, i + 1, cls)
    } else {
        i
    }
}

/// Characters with which a symbol, a comment or a line break starts.
pub open spec fn is_symbol_start(c: char) -> bool {
    c == 'λ' || c == '\\' || c == '*' || c == '/' || c == '+' || c == '(' || c == ')' || c == '.'
        || c == '&' || c == '|' || c == '!' || c == '-' || c == '=' || c == '\r' || c == '\n'
}

/// The symbol that starts with `c` followed by `next`, longest match first:
/// its length in characters and its kind.
pub open spec fn symbol_of(c: char, next: Option<char>) -> Option<(int, TokenKind)> {
    if c == '(' {
        Some((1, TokenKind::LPar))
    } else if c == ')' {
        Some((1, TokenKind::RPar))
    } else if c == '\\' || c == 'λ' {
        Some((1, TokenKind::Lambda))
    } else if c == '.' {
        Some((1, TokenKind::Dot))
    } else if c == '-' && next == Some('>') {
        Some((2, TokenKind::Dot))
    } else if c == '=' && next == Some('=') {
        Some((2, TokenKind::Eq))
    } else if c == '=' {
        Some((1, TokenKind::Assign))
    } else if c == '+' {
        Some((1, TokenKind::Add))
    } else if c == '-' {
        Some((1, TokenKind::Sub))
    } else if c == '*' {
        Some((1, TokenKind::Mul))
    } else if c == '/' {
        Some((1, TokenKind::Div))
    } else if c == '!' && next == Some('=') {
        Some((2, TokenKind::Neq))
    } else if c == '!' {
        Some((1, TokenKind::Not))
    } else if c == '&' && next == Some('&') {
        Some((2, TokenKind::And))
    } else if c == '|' && next == Some('|') {
        Some((2, TokenKind::Or))
    } else if c == '\r' && next == Some('\n') {
        Some((2, TokenKind::Eol))
    } else if c == '\n' || c == '\r' {
        Some((1, TokenKind::Eol))
    } else {
        None
    }
}

pub open spec fn char_after(cs: Seq<char>, i: int) -> Option<char> {
    if 0 <= i + 1 < cs.len() {
        Some(cs[i + 1])
    } else {
        None
    }
}

/// Why a number literal does not parse.
#[derive(Clone, Copy, Debug, PartialEq, Eq, Structural)]
pub enum NumberError {
    InvalidDigit,
    PosOverflow,
}

pub open spec fn number_error_text(e: NumberError) -> Seq<char> {
    match e {
        NumberError::InvalidDigit => "invalid digit found in string"@,
        NumberError::PosOverflow => "number too large to fit in target type"@,
    }
}

impl NumberError {
    /// The reason, as a message.
    pub fn details(&self) -> (r: String)
        ensures
            r@ == number_error_text(*self),
    {
        match self {
            NumberError::InvalidDigit => String::from_str("invalid digit found in string"),
            NumberError::PosOverflow => String::from_str("number too large to fit in target type"),
        }
    }
}

pub open spec fn is_decimal_digit(c: char) -> bool {
    '0' <= c <= '9'
}

/// Reads `t[k..]` as decimal digits after the value `acc`, left to right:
/// a non-digit, or a value past `u64::MAX`, is an error where it is met.
pub open spec fn parse_digits(t: Seq<char>, k: int, acc: nat) -> Result<u64, NumberError>
    decreases t.len() - k,
{
    if k < 0 || k >= t.len() {
        Ok(acc as u64)
    } else if !is_decimal_digit(t[k]) {
        Err(NumberError::InvalidDigit)
    } else if acc * 10 + (t[k] as nat - 48) > u64::MAX {
        Err(NumberError::PosOverflow)
    } else {
        parse_digits(t, k + 1, (acc * 10 + (t[k] as nat - 48)) as nat)
    }
}

/// The value of a number literal.
pub open spec fn parse_number(t: Seq<char>) -> Result<u64, NumberError> {
    parse_digits(t, 0, 0)
}

/// What one step of the scan produces.
pub ghost enum Lexed {
    Skip,
    Token(TokenKind),
    Error(Seq<char>),
}

/// One step of the scan at character `i`: where the next step starts, and
/// what this one produced.
pub open spec fn lex_step(cs: Seq<char>, i: int) -> (int, Lexed) {
    let c = cs[i];
    if is_symbol_start(c) {
        if c == '/' && char_after(cs, i) == Some('/') {
            let j = scan_end(cs, i + 2, CharClass::NotNewline);
            (j, Lexed::Token(TokenKind::Comment(cs.subrange(i, j))))
        } else {
            match symbol_of(c, char_after(cs, i)) {
                Some((n, kind)) => (i + n, Lexed::Token(kind)),
                None => {
                    let j = scan_end(cs, i + 1, CharClass::Junk);
                    (j, Lexed::Error(invalid_token_message(cs.subrange(i, j))))
                },
            }
        }
    } else if whitespace_char(c) {
        (scan_end(cs, i + 1, CharClass::Space), Lexed::Skip)
    } else if alphabetic_char(c) {
        let j = scan_end(cs, i + 1, CharClass::Word);
        (j, Lexed::Token(TokenKind::Ident(cs.subrange(i, j))))
    } else if numeric_char(c) {
        let j = scan_end(cs, i + 1, CharClass::Alnum);
        match parse_number(cs.subrange(i, j)) {
            Ok(v) => (j, Lexed::Token(TokenKind::Num(v))),
            Err(e) => (
                j,
                Lexed::Error(invalid_number_message(cs.subrange(i, j), number_error_text(e))),
            ),
        }
    } else {
        let j = scan_end(cs, i + 1, CharClass::Junk);
        (j, Lexed::Error(invalid_token_message(cs.subrange(i, j))))
    }
}

/// Byte span of the characters `cs[i..j]`.
pub open spec fn byte_span(cs: Seq<char>, i: int, j: int) -> Span {
    Span { start: byte_len(cs.take(i)) as usize, end: byte_len(cs.take(j)) as usize }
}

pub open spec fn token_part(out: Lexed, span: Span) -> Seq<(TokenKind, Span)> {
    match out {
        Lexed::Token(kind) => seq![(kind, span)],
        _ => seq![],
    }
}

pub open spec fn error_part(out: Lexed, span: Span) -> Seq<(Span, Seq<char>)> {
    match out {
        Lexed::Error(message) => seq![(span, message)],
        _ => seq![],
    }
}

/// Tokens and lexical errors of `cs[i..]`, in source order.
pub open spec fn lex_from(cs: Seq<char>, i: int) -> (Seq<(TokenKind, Span)>, Seq<(Span, Seq<char>)>)
    decreases cs.len() - i,
{
    if 0 <= i < cs.len() {
        let (j, out) = lex_step(cs, i);
        proof {
            lemma_step_advances(cs, i);
        }
        let rest = lex_from(cs, j);
        (token_part(out, byte_span(cs, i, j)) + rest.0, error_part(out, byte_span(cs, i, j)) + rest.1)
    } else {
        (seq![], seq![])
    }
}

/// Tokens and lexical errors of a whole text.
pub open spec fn lex(cs: Seq<char>) -> (Seq<(TokenKind, Span)>, Seq<(Span, Seq<char>)>) {
    lex_from(cs, 0)
}

/// A run ends inside the text and holds only characters of its class.
pub proof fn lemma_scan_end_bounds(cs: Seq<char>, i: int, cls: CharClass)
    ensures
        i <= scan_end(cs, i, cls),
        0 <= i <= cs.len() ==> scan_end(cs, i, cls) <= cs.len(),
        forall|k: int| i <= k < scan_end(cs, i, cls) ==> in_class(cls, #[trigger] cs[k]),
    decreases cs.len() - i,
{
    if 0 <= i < cs.len() && in_class(cls, cs[i]) {
        lemma_scan_end_bounds(cs, i + 1, cls);
    }
}

/// Every step of the scan consumes at least one character.
pub proof fn lemma_step_advances(cs: Seq<char>, i: int)
    requires
        0 <= i < cs.len(),
    ensures
        i < lex_step(cs, i).0 <= cs.len(),
{
    lemma_scan_end_bounds(cs, i + 1, CharClass::Junk);
    lemma_scan_end_bounds(cs, i + 1, CharClass::Space);
    lemma_scan_end_bounds(cs, i + 1, CharClass::Word);
    lemma_scan_end_bounds(cs, i + 1, CharClass::Alnum);
    if i + 1 < cs.len() {
        lemma_scan_end_bounds(cs, i + 2, CharClass::NotNewline);
    }
}

pub open spec fn tokens_model(v: Seq<Token>) -> Seq<(TokenKind, Span)> {
    v.map_values(|t: Token| t@)
}

pub open spec fn errors_model(v: Seq<LexerError>) -> Seq<(Span, Seq<char>)> {
    v.map_values(|e: LexerError| e@)
}

/// The tokens of a source, in order, with the source they index into.
#[derive(Debug)]
pub struct TokenVec<'src> {
    pub source: &'src Source,
    pub tokens: Vec<Token>,
}

impl<'src> TokenVec<'src> {
    pub open spec fn model(&self) -> Seq<(TokenKind, Span)> {
        tokens_model(self.tokens@)
    }

    /// Whether every token's span is well formed in the source.
    pub open spec fn spans_valid(&self) -> bool {
        forall|m: int| 0 <= m < self.model().len() ==> (#[trigger] self.model()[m]).1.valid_in(self.source)
    }

    /// Byte length of the source text: where the end of input is.
    pub open spec fn end(&self) -> usize {
        self.source.len_bytes() as usize
    }

    /// The tokens, front to back.
    pub fn iter(&self) -> (r: std::slice::Iter<'_, Token>)
        ensures
            r.remaining() == self.tokens@.as_ref(),
    {
        self.tokens.iter()
    }
}

/// The symbol that starts with `c` followed by `next`.
fn symbol_token(c: char, next: Option<char>) -> (r: Option<(usize, TokenType)>)
    ensures
        match r {
            Some((n, t)) => symbol_of(c, next) == Some((n as int, t@)),
            None => symbol_of(c, next) is None,
        },
{
    let next_is = |d: char| -> (b: bool)
        ensures
            b == (next == Some(d)),
        {
            match next {
                Some(x) => x == d,
                None => false,
            }
        };
    if c == '(' {
        Some((1, TokenType::LPar))
    } else if c == ')' {
        Some((1, TokenType::RPar))
    } else if c == '\\' || c == 'λ' {
        Some((1, TokenType::Lambda))
    } else if c == '.' {
        Some((1, TokenType::Dot))
    } else if c == '-' && next_is('>') {
        Some((2, TokenType::Dot))
    } else if c == '=' && next_is('=') {
        Some((2, TokenType::Eq))
    } else if c == '=' {
        Some((1, TokenType::Assign))
    } else if c == '+' {
        Some((1, TokenType::Add))
    } else if c == '-' {
        Some((1, TokenType::Sub))
    } else if c == '*' {
        Some((1, TokenType::Mul))
    } else if c == '/' {
        Some((1, TokenType::Div))
    } else if c == '!' && next_is('=') {
        Some((2, TokenType::Neq))
    } else if c == '!' {
        Some((1, TokenType::Not))
    } else if c == '&' && next_is('&') {
        Some((2, TokenType::And))
    } else if c == '|' && next_is('|') {
        Some((2, TokenType::Or))
    } else if c == '\r' && next_is('\n') {
        Some((2, TokenType::Eol))
    } else if c == '\n' || c == '\r' {
        Some((1, TokenType::Eol))
    } else {
        None
    }
}

fn is_symbol_char(c: char) -> (r: bool)
    ensures
        r == is_symbol_start(c),
{
    c == 'λ' || c == '\\' || c == '*' || c == '/' || c == '+' || c == '(' || c == ')' || c == '.'
        || c == '&' || c == '|' || c == '!' || c == '-' || c == '=' || c == '\r' || c == '\n'
}

fn in_char_class(cls: CharClass, c: char) -> (r: bool)
    ensures
        r == in_class(cls, c),
{
    match cls {
        CharClass::NotNewline => c != '\n' && c != '\r',
        CharClass::Space => is_whitespace(c) && c != '\n' && c != '\r',
        CharClass::Word => is_alphanumeric(c) || c == '_',
        CharClass::Alnum => is_alphanumeric(c),
        CharClass::Junk => !is_alphanumeric(c) && !is_whitespace(c),
    }
}

/// Value of the number literal `cs[from..to]`.
fn parse_decimal(cs: &Vec<char>, from: usize, to: usize) -> (r: Result<u64, NumberError>)
    requires
        from <= to <= cs@.len(),
    ensures
        r == parse_number(cs@.subrange(from as int, to as int)),
{
    let ghost t = cs@.subrange(from as int, to as int);
    let mut acc: u64 = 0;
    let mut i = from;
    while i < to
        invariant
            from <= i <= to <= cs@.len(),
            t == cs@.subrange(from as int, to as int),
            parse_number(t) == parse_digits(t, i - from, acc as nat),
        decreases to - i,
    {
        let c = cs[i];
        if !('0' <= c && c <= '9') {
            return Err(NumberError::InvalidDigit);
        }
        let d = (c as u32 - 48) as u64;
        let v = (acc as u128) * 10 + (d as u128);
        if v > u64::MAX as u128 {
            return Err(NumberError::PosOverflow);
        }
        acc = v as u64;
        i = i + 1;
    }
    Ok(acc)
}

/// The scanner's state: a cursor into the characters of a source, the
/// tokens scanned so far and the errors met so far.
pub struct TokenStream<'src> {
    pos: usize,
    token_vec: TokenVec<'src>,
    errors: Vec<LexerError>,
}

impl<'src> TokenStream<'src> {
    pub closed spec fn chars(&self) -> Seq<char> {
        self.token_vec.source.text@
    }

    pub closed spec fn cursor(&self) -> int {
        self.pos as int
    }

    pub closed spec fn source(&self) -> &'src Source {
        self.token_vec.source
    }

    pub closed spec fn scanned(&self) -> Seq<(TokenKind, Span)> {
        self.token_vec.model()
    }

    pub closed spec fn errors_met(&self) -> Seq<(Span, Seq<char>)> {
        errors_model(self.errors@)
    }

    pub closed spec fn inv(&self) -> bool {
        &&& self.token_vec.source.wf()
        &&& self.pos <= self.chars().len()
    }

    /// `self` is `old` after one step of the scan from its cursor.
    pub closed spec fn stepped(&self, old: &Self) -> bool {
        let (j, out) = lex_step(old.chars(), old.pos as int);
        let span = byte_span(old.chars(), old.pos as int, j);
        &&& self.token_vec.source == old.token_vec.source
        &&& self.inv()
        &&& self.pos == j
        &&& self.scanned() == old.scanned() + token_part(out, span)
        &&& self.errors_met() == old.errors_met() + error_part(out, span)
    }

    /// `self` is `old` with the cursor moved, and nothing emitted.
    pub closed spec fn moved(&self, old: &Self) -> bool {
        &&& self.token_vec.source == old.token_vec.source
        &&& self.inv()
        &&& self.token_vec.tokens == old.token_vec.tokens
        &&& self.errors == old.errors
    }

    /// A scanner at the start of `source`, with nothing scanned yet.
    pub fn new(source: &'src Source) -> (r: TokenStream<'src>)
        requires
            source.wf(),
        ensures
            r.inv(),
            r.source() == source,
            r.cursor() == 0,
            r.scanned() == Seq::<(TokenKind, Span)>::empty(),
            r.errors_met() == Seq::<(Span, Seq<char>)>::empty(),
    {
        let r = TokenStream { pos: 0, token_vec: TokenVec { source, tokens: Vec::new() }, errors: Vec::new() };
        assert(r.scanned() =~= Seq::<(TokenKind, Span)>::empty());
        assert(r.errors_met() =~= Seq::<(Span, Seq<char>)>::empty());
        r
    }

    /// Byte offset of the cursor, and the character there.
    fn peek(&self) -> (r: (usize, Option<char>))
        requires
            self.inv(),
        ensures
            r.0 == self.source().offsets@[self.cursor()],
            r.1 == if self.cursor() < self.chars().len() {
                Some(self.chars()[self.cursor()])
            } else {
                None::<char>
            },
    {
        let source = self.token_vec.source;
        let ch = if self.pos < source.chars.len() {
            Some(source.chars[self.pos])
        } else {
            None
        };
        (source.offsets[self.pos], ch)
    }

    fn next(&mut self)
        requires
            old(self).inv(),
        ensures
            final(self).moved(old(self)),
            final(self).pos == if old(self).cursor() < old(self).chars().len() {
                old(self).pos + 1
            } else {
                old(self).cursor()
            },
    {
        if self.pos < self.token_vec.source.chars.len() {
            self.pos = self.pos + 1;
        }
    }

    fn skip(&mut self, count: usize)
        requires
            old(self).inv(),
            old(self).cursor() + count <= old(self).chars().len(),
        ensures
            final(self).moved(old(self)),
            final(self).cursor() == old(self).cursor() + count,
    {
        let mut k: usize = 0;
        while k < count
            invariant
                self.moved(old(self)),
                k <= count,
                old(self).cursor() + count <= old(self).chars().len(),
                self.cursor() == old(self).cursor() + k,
            decreases count - k,
        {
            self.next();
            k = k + 1;
        }
    }

    /// Moves the cursor over the run of class `cls` and returns the byte
    /// offset where it ends.
    fn consume_while(&mut self, cls: CharClass) -> (r: usize)
        requires
            old(self).inv(),
        ensures
            final(self).moved(old(self)),
            final(self).cursor() == scan_end(old(self).chars(), old(self).cursor(), cls),
            old(self).cursor() <= final(self).cursor() <= final(self).chars().len(),
            r == final(self).source().offsets@[final(self).cursor()],
    {
        loop
            invariant
                self.moved(old(self)),
                old(self).cursor() <= self.cursor(),
                scan_end(self.chars(), self.cursor(), cls) == scan_end(
                    old(self).chars(),
                    old(self).cursor(),
                    cls,
                ),
            ensures
                self.moved(old(self)),
                old(self).cursor() <= self.cursor(),
                self.cursor() == scan_end(old(self).chars(), old(self).cursor(), cls),
            decreases self.chars().len() - self.cursor(),
        {
            let (_, ch) = self.peek();
            match ch {
                Some(c) => {
                    if !in_char_class(cls, c) {
                        break;
                    }
                    self.next();
                },
                None => break,
            }
        }
        self.peek().0
    }

    fn skip_whitespace(&mut self)
        requires
            old(self).inv(),
            old(self).cursor() < old(self).chars().len(),
            !is_symbol_start(old(self).chars()[old(self).cursor()]),
            whitespace_char(old(self).chars()[old(self).cursor()]),
        ensures
            final(self).stepped(old(self)),
    {
        self.consume_while(CharClass::Space);
        proof {
            let cs = old(self).chars();
            let i = old(self).cursor();
            assert(scan_end(cs, i, CharClass::Space) == scan_end(cs, i + 1, CharClass::Space));
            assert(self.scanned() =~= old(self).scanned() + token_part(Lexed::Skip, byte_span(cs, i, self.cursor())));
            assert(self.errors_met() =~= old(self).errors_met() + error_part(Lexed::Skip, byte_span(cs, i, self.cursor())));
        }
    }

    /// Span of the characters from `start` to the cursor.
    fn span_from(&self, start: usize) -> (r: Span)
        requires
            self.inv(),
            start <= self.cursor(),
        ensures
            r == byte_span(self.chars(), start as int, self.cursor()),
            r.valid_in(self.source()),
            r.char_range(self.source()) == (start as int, self.cursor()),
    {
        let source = self.token_vec.source;
        proof {
            lemma_char_index_of_offset(source, start as int);
            lemma_char_index_of_offset(source, self.cursor());
            if start < self.pos {
                assert(source.offsets@[start as int] < source.offsets@[self.cursor()]);
            }
        }
        Span::new(source.text.as_str(), source.offsets[start], source.offsets[self.pos])
    }

    fn push_token(&mut self, token_type: TokenType, span: Span)
        requires
            old(self).inv(),
        ensures
            final(self).token_vec.source == old(self).token_vec.source,
            final(self).inv(),
            final(self).pos == old(self).pos,
            final(self).errors == old(self).errors,
            final(self).scanned() == old(self).scanned().push((token_type@, span)),
    {
        self.token_vec.tokens.push(Token::new(token_type, span));
        proof {
            assert(self.scanned() =~= old(self).scanned().push((token_type@, span)));
        }
    }

    fn push_error(&mut self, error: LexerError)
        requires
            old(self).inv(),
        ensures
            final(self).token_vec.source == old(self).token_vec.source,
            final(self).inv(),
            final(self).pos == old(self).pos,
            final(self).token_vec.tokens == old(self).token_vec.tokens,
            final(self).errors_met() == old(self).errors_met().push(error@),
    {
        self.errors.push(error);
        proof {
            assert(self.errors_met() =~= old(self).errors_met().push(error@));
        }
    }

    /// Reports the run of characters from `start`, which is neither
    /// alphanumeric nor whitespace after its first character, as an
    /// invalid token.
    fn invalid_token(&mut self, start: usize)
        requires
            old(self).inv(),
            start == old(self).cursor(),
            start < old(self).chars().len(),
        ensures
            ({
                let cs = old(self).chars();
                let j = scan_end(cs, start + 1, CharClass::Junk);
                &&& final(self).token_vec.source == old(self).token_vec.source
                &&& final(self).inv()
                &&& final(self).cursor() == j
                &&& final(self).scanned() == old(self).scanned()
                &&& final(self).errors_met() == old(self).errors_met().push(
                    (byte_span(cs, start as int, j), invalid_token_message(cs.subrange(start as int, j))),
                )
            }),
    {
        self.next();
        self.consume_while(CharClass::Junk);
        let span = self.span_from(start);
        let error = LexerError::invalid_token(self.token_vec.source, span);
        self.push_error(error);
    }

    /// Reports the number literal at `span`, from character `start` to the
    /// cursor, as invalid.
    fn invalid_number(&mut self, start: usize, span: Span, error: NumberError)
        requires
            old(self).inv(),
            start <= old(self).cursor(),
            span == byte_span(old(self).chars(), start as int, old(self).cursor()),
        ensures
            final(self).token_vec.source == old(self).token_vec.source,
            final(self).inv(),
            final(self).pos == old(self).pos,
            final(self).token_vec.tokens == old(self).token_vec.tokens,
            final(self).errors_met() == old(self).errors_met().push(
                (
                    span,
                    invalid_number_message(
                        old(self).chars().subrange(start as int, old(self).cursor()),
                        number_error_text(error),
                    ),
                ),
            ),
    {
        let span = self.span_from(start);
        let details = error.details();
        let error = LexerError::invalid_number(self.token_vec.source, span, details.as_str());
        self.push_error(error);
    }

    fn push_comment(&mut self, start: usize)
        requires
            old(self).inv(),
            start == old(self).cursor(),
            start + 1 < old(self).chars().len(),
            old(self).chars()[start as int] == '/',
            old(self).chars()[start + 1] == '/',
        ensures
            final(self).stepped(old(self)),
    {
        self.skip(2);
        self.consume_while(CharClass::NotNewline);
        let span = self.span_from(start);
        let text = string_of(&self.token_vec.source.chars, start, self.pos);
        self.push_token(TokenType::Comment(text), span);
        proof {
            let cs = old(self).chars();
            let i = start as int;
            assert(char_after(cs, i) == Some('/'));
            let out = lex_step(cs, i).1;
            assert(self.errors_met() =~= old(self).errors_met() + error_part(out, span));
            assert(self.scanned() =~= old(self).scanned() + token_part(out, span));
        }
    }

    fn push_symbol(&mut self, start: usize)
        requires
            old(self).inv(),
            start == old(self).cursor(),
            start < old(self).chars().len(),
            is_symbol_start(old(self).chars()[start as int]),
        ensures
            final(self).stepped(old(self)),
    {
        let ghost cs = old(self).chars();
        let ghost i = start as int;
        let chars = &self.token_vec.source.chars;
        let c = chars[start];
        let next = if chars.len() - start > 1 {
            Some(chars[start + 1])
        } else {
            None
        };
        assert(next == char_after(cs, i));
        if c == '/' && next == Some('/') {
            self.push_comment(start);
            return;
        }
        match symbol_token(c, next) {
            Some((size, token_type)) => {
                proof {
                    lemma_step_advances(cs, i);
                }
                self.skip(size);
                let span = self.span_from(start);
                self.push_token(token_type, span);
                proof {
                    let out = lex_step(cs, i).1;
                    assert(self.errors_met() =~= old(self).errors_met() + error_part(out, span));
                    assert(self.scanned() =~= old(self).scanned() + token_part(out, span));
                }
            },
            None => {
                self.invalid_token(start);
                proof {
                    let (j, out) = lex_step(cs, i);
                    let span = byte_span(cs, i, j);
                    assert(self.scanned() =~= old(self).scanned() + token_part(out, span));
                    assert(self.errors_met() =~= old(self).errors_met() + error_part(out, span));
                }
            },
        }
    }

    fn push_variable(&mut self, start: usize)
        requires
            old(self).inv(),
            start == old(self).cursor(),
            start < old(self).chars().len(),
            !is_symbol_start(old(self).chars()[start as int]),
            !whitespace_char(old(self).chars()[start as int]),
            alphabetic_char(old(self).chars()[start as int]),
        ensures
            final(self).stepped(old(self)),
    {
        self.next();
        self.consume_while(CharClass::Word);
        let span = self.span_from(start);
        let name = string_of(&self.token_vec.source.chars, start, self.pos);
        self.push_token(TokenType::Ident(name), span);
        proof {
            let cs = old(self).chars();
            let out = lex_step(cs, start as int).1;
            assert(self.errors_met() =~= old(self).errors_met() + error_part(out, span));
            assert(self.scanned() =~= old(self).scanned() + token_part(out, span));
        }
    }

    fn push_number(&mut self, start: usize)
        requires
            old(self).inv(),
            start == old(self).cursor(),
            start < old(self).chars().len(),
            !is_symbol_start(old(self).chars()[start as int]),
            !whitespace_char(old(self).chars()[start as int]),
            !alphabetic_char(old(self).chars()[start as int]),
            numeric_char(old(self).chars()[start as int]),
        ensures
            final(self).stepped(old(self)),
    {
        self.next();
        self.consume_while(CharClass::Alnum);
        let span = self.span_from(start);
        let ghost cs = old(self).chars();
        let ghost j = self.cursor();
        match parse_decimal(&self.token_vec.source.chars, start, self.pos) {
            Ok(number) => {
                self.push_token(TokenType::Num(number), span);
                proof {
                    let out = lex_step(cs, start as int).1;
                    assert(self.errors_met() =~= old(self).errors_met() + error_part(out, span));
                    assert(self.scanned() =~= old(self).scanned() + token_part(out, span));
                }
            },
            Err(error) => {
                self.invalid_number(start, span, error);
                proof {
                    let out = lex_step(cs, start as int).1;
                    assert(self.scanned() =~= old(self).scanned() + token_part(out, span));
                    assert(self.errors_met() =~= old(self).errors_met() + error_part(out, span));
                }
            },
        }
    }

    /// Scans the whole source. Every lexical error is collected; the
    /// tokens are returned alone when there is none, and with the errors
    /// otherwise.
    pub fn tokenise(self) -> (r: Result<TokenVec<'src>, LexerErrorVec<'src>>)
        requires
            self.inv(),
            self.cursor() == 0,
            self.scanned() == Seq::<(TokenKind, Span)>::empty(),
            self.errors_met() == Seq::<(Span, Seq<char>)>::empty(),
        ensures
            tokenise_result(self.source(), r),
    {
        let mut st = self;
        let ghost cs = st.chars();
        let ghost src = st.source();
        while st.pos < st.token_vec.source.chars.len()
            invariant
                st.inv(),
                cs == st.chars(),
                src == st.source(),
                lex(cs) == (
                    st.scanned() + lex_from(cs, st.cursor()).0,
                    st.errors_met() + lex_from(cs, st.cursor()).1,
                ),
            decreases cs.len() - st.cursor(),
        {
            let ghost before = st;
            let ghost i = st.cursor();
            proof {
                lemma_step_advances(cs, i);
            }
            let start = st.pos;
            let c = st.token_vec.source.chars[start];
            if is_symbol_char(c) {
                st.push_symbol(start);
            } else if is_whitespace(c) {
                st.skip_whitespace();
            } else if is_alphabetic(c) {
                st.push_variable(start);
            } else if is_numeric(c) {
                st.push_number(start);
            } else {
                st.invalid_token(start);
                proof {
                    assert(scan_end(cs, i, CharClass::Junk) == scan_end(cs, i + 1, CharClass::Junk));
                }
            }
            proof {
                let (j, out) = lex_step(cs, i);
                let span = byte_span(cs, i, j);
                assert(lex_from(cs, i).0 == token_part(out, span) + lex_from(cs, j).0);
                assert(st.scanned() + lex_from(cs, j).0 =~= before.scanned() + lex_from(cs, i).0);
                assert(st.errors_met() + lex_from(cs, j).1 =~= before.errors_met() + lex_from(cs, i).1);
            }
        }
        proof {
            assert(st.scanned() + lex_from(cs, st.cursor()).0 =~= st.scanned());
            assert(st.errors_met() + lex_from(cs, st.cursor()).1 =~= st.errors_met());
            lemma_lex_spans_valid(src);
            assert forall|m: int| 0 <= m < st.errors@.len() implies (#[trigger] st.errors@[m]).span.valid_in(src) by {
                assert(st.errors_met()[m] == st.errors@[m]@);
            }
        }
        if st.errors.len() == 0 {
            Ok(st.token_vec)
        } else {
            Err(LexerErrorVec { tokens: st.token_vec, errors: st.errors })
        }
    }
}

/// `r` is the outcome of tokenizing `source`: the tokens alone when the
/// text has no lexical error, else the tokens with every error. Every span
/// in it is well formed in `source`.
pub open spec fn tokenise_result(source: &Source, r: Result<TokenVec, LexerErrorVec>) -> bool {
    let (tokens, errors) = lex(source.text@);
    match r {
        Ok(tv) => {
            &&& errors.len() == 0
            &&& tv.source == source
            &&& tv.model() == tokens
            &&& tv.spans_valid()
        },
        Err(e) => {
            &&& errors.len() > 0
            &&& e.tokens.source == source
            &&& e.tokens.model() == tokens
            &&& e.tokens.spans_valid()
            &&& errors_model(e.errors@) == errors
            &&& forall|m: int| 0 <= m < e.errors@.len() ==> (#[trigger] e.errors@[m]).span.valid_in(source)
        },
    }
}

/// Tokenizes a whole source.
pub fn tokenise<'src>(source: &'src Source) -> (r: Result<TokenVec<'src>, LexerErrorVec<'src>>)
    requires
        source.wf(),
    ensures
        tokenise_result(source, r),
{
    TokenStream::new(source).tokenise()
}

/// `tok` was scanned from the characters `cs[i..j]`: its span is their
/// byte range; a name, comment text or number literal is read back from
/// exactly those characters, and an operator, delimiter or line break is a
/// spelling of its kind.
pub open spec fn scanned_from(cs: Seq<char>, tok: (TokenKind, Span), i: int, j: int) -> bool {
    &&& 0 <= i < j <= cs.len()
    &&& tok.1 == byte_span(cs, i, j)
    &&& match tok.0 {
        TokenKind::Ident(name) => name == cs.subrange(i, j),
        TokenKind::Comment(text) => text == cs.subrange(i, j),
        TokenKind::Num(v) => parse_number(cs.subrange(i, j)) == Ok::<u64, NumberError>(v),
        _ => symbol_of(cs[i], char_after(cs, i)) == Some((j - i, tok.0)),
    }
}

pub open spec fn scanned_after(cs: Seq<char>, tok: (TokenKind, Span), p: int) -> bool {
    exists|i: int, j: int| p <= i && #[trigger] scanned_from(cs, tok, i, j)
}

proof fn lemma_lex_from_scanned(cs: Seq<char>, p: int)
    requires
        0 <= p,
    ensures
        forall|m: int| 0 <= m < lex_from(cs, p).0.len() ==> scanned_after(cs, #[trigger] lex_from(cs, p).0[m], p),
    decreases cs.len() - p,
{
    if p < cs.len() {
        let (j, out) = lex_step(cs, p);
        lemma_step_advances(cs, p);
        lemma_lex_from_scanned(cs, j);
        let span = byte_span(cs, p, j);
        let head = token_part(out, span);
        let rest = lex_from(cs, j).0;
        assert(lex_from(cs, p).0 == head + rest);
        assert forall|m: int| 0 <= m < lex_from(cs, p).0.len() implies scanned_after(cs, #[trigger] lex_from(cs, p).0[m], p) by {
            if m < head.len() {
                assert(scanned_from(cs, lex_from(cs, p).0[m], p, j));
            } else {
                assert(lex_from(cs, p).0[m] == rest[m - head.len()]);
                assert(scanned_after(cs, rest[m - head.len()], j));
                let (i, k) = choose|i: int, k: int| j <= i && #[trigger] scanned_from(cs, rest[m - head.len()], i, k);
                assert(scanned_from(cs, lex_from(cs, p).0[m], i, k));
            }
        }
    }
}

/// Span round trip: every token of a source covers a range of its
/// characters, and the text at the token's span is the text it was scanned
/// from: an identifier's name and a comment's text are read back exactly,
/// a number literal's characters parse to its value, and the characters of
/// any other token spell its kind (`\` or `λ` for a binder, `.` or `->` for
/// a dot, `==` for equality, and so on).
pub proof fn lemma_span_round_trip(src: &Source, m: int)
    requires
        src.wf(),
        0 <= m < lex(src.text@).0.len(),
    ensures
        ({
            let (kind, span) = lex(src.text@).0[m];
            let (i, j) = span.char_range(src);
            &&& span.valid_in(src)
            &&& 0 <= i < j <= src.text@.len()
            &&& kind is Ident ==> kind->Ident_0 == src.text@.subrange(i, j)
            &&& kind is Comment ==> kind->Comment_0 == src.text@.subrange(i, j)
            &&& kind is Num ==> parse_number(src.text@.subrange(i, j)) == Ok::<u64, NumberError>(kind->Num_0)
            &&& !(kind is Ident || kind is Num || kind is Comment) ==> symbol_of(
                src.text@[i],
                char_after(src.text@, i),
            ) == Some((j - i, kind))
        }),
{
    let cs = src.text@;
    lemma_lex_from_scanned(cs, 0);
    let tok = lex(cs).0[m];
    assert(scanned_after(cs, tok, 0));
    let (i, j) = choose|i: int, j: int| 0 <= i && #[trigger] scanned_from(cs, tok, i, j);
    lemma_char_index_of_offset(src, i);
    lemma_char_index_of_offset(src, j);
    assert(src.offsets@[i] < src.offsets@[j]);
}

/// Tokenizing is a function of the text: two sources with the same text,
/// or one source tokenized twice, give the same tokens and the same errors.
pub proof fn lemma_tokenise_deterministic<'a, 'b>(
    a: &'a Source,
    b: &'b Source,
    ra: Result<TokenVec<'a>, LexerErrorVec<'a>>,
    rb: Result<TokenVec<'b>, LexerErrorVec<'b>>,
)
    requires
        a.text@ == b.text@,
        tokenise_result(a, ra),
        tokenise_result(b, rb),
    ensures
        ra is Ok <==> rb is Ok,
        ra is Ok ==> ra->Ok_0.model() == rb->Ok_0.model(),
        ra is Err ==> ra->Err_0.tokens.model() == rb->Err_0.tokens.model()
            && errors_model(ra->Err_0.errors@) == errors_model(rb->Err_0.errors@),
{
}

/// Each token ends at or before the start of every later one.
pub open spec fn in_order(toks: Seq<(TokenKind, Span)>) -> bool {
    forall|a: int, b: int| 0 <= a < b < toks.len() ==> #[trigger] toks[a].1.end <= #[trigger] toks[b].1.start
}

proof fn lemma_lex_from_in_order(cs: Seq<char>, p: int)
    requires
        0 <= p <= cs.len(),
        byte_len(cs) <= usize::MAX,
    ensures
        in_order(lex_from(cs, p).0),
        forall|m: int|
            0 <= m < lex_from(cs, p).0.len() ==> byte_len(cs.take(p)) <= (#[trigger] lex_from(cs, p).0[m]).1.start
                && lex_from(cs, p).0[m].1.start < lex_from(cs, p).0[m].1.end,
    decreases cs.len() - p,
{
    if p < cs.len() {
        let (j, out) = lex_step(cs, p);
        lemma_step_advances(cs, p);
        lemma_lex_from_in_order(cs, j);
        lemma_byte_len_take(cs, p, j);
        lemma_byte_len_take(cs, j, cs.len() as int);
        assert(cs.take(cs.len() as int) =~= cs);
        let head = token_part(out, byte_span(cs, p, j));
        let rest = lex_from(cs, j).0;
        assert(lex_from(cs, p).0 == head + rest);
    }
}

/// The tokens of a source come in order: each one covers at least one
/// byte, and ends at or before the start of the next, so no two overlap.
pub proof fn lemma_tokens_in_order(src: &Source)
    requires
        src.wf(),
    ensures
        in_order(lex(src.text@).0),
        forall|m: int|
            0 <= m < lex(src.text@).0.len() ==> (#[trigger] lex(src.text@).0[m]).1.start < lex(src.text@).0[m].1.end,
{
    lemma_lex_from_in_order(src.text@, 0);
}

pub open spec fn error_after(cs: Seq<char>, e: (Span, Seq<char>), p: int) -> bool {
    exists|i: int, j: int| p <= i < j <= cs.len() && e.0 == #[trigger] byte_span(cs, i, j)
}

proof fn lemma_lex_from_error_spans(cs: Seq<char>, p: int)
    requires
        0 <= p,
    ensures
        forall|m: int| 0 <= m < lex_from(cs, p).1.len() ==> error_after(cs, #[trigger] lex_from(cs, p).1[m], p),
    decreases cs.len() - p,
{
    if p < cs.len() {
        let (j, out) = lex_step(cs, p);
        lemma_step_advances(cs, p);
        lemma_lex_from_error_spans(cs, j);
        let span = byte_span(cs, p, j);
        let head = error_part(out, span);
        let rest = lex_from(cs, j).1;
        assert(lex_from(cs, p).1 == head + rest);
        assert forall|m: int| 0 <= m < lex_from(cs, p).1.len() implies error_after(cs, #[trigger] lex_from(cs, p).1[m], p) by {
            if m < head.len() {
                assert(lex_from(cs, p).1[m].0 == byte_span(cs, p, j));
            } else {
                assert(lex_from(cs, p).1[m] == rest[m - head.len()]);
                assert(error_after(cs, rest[m - head.len()], j));
                let (i, k) = choose|i: int, k: int| j <= i < k <= cs.len() && rest[m - head.len()].0 == #[trigger] byte_span(cs, i, k);
                assert(lex_from(cs, p).1[m].0 == byte_span(cs, i, k));
            }
        }
    }
}

proof fn lemma_byte_span_valid(src: &Source, i: int, j: int)
    requires
        src.wf(),
        0 <= i < j <= src.text@.len(),
    ensures
        byte_span(src.text@, i, j).valid_in(src),
{
    lemma_char_index_of_offset(src, i);
    lemma_char_index_of_offset(src, j);
    assert(src.offsets@[i] < src.offsets@[j]);
}

/// Every span that tokenizing a source gives, of a token or of an error,
/// is well formed in that source.
pub proof fn lemma_lex_spans_valid(src: &Source)
    requires
        src.wf(),
    ensures
        forall|m: int| 0 <= m < lex(src.text@).0.len() ==> (#[trigger] lex(src.text@).0[m]).1.valid_in(src),
        forall|m: int| 0 <= m < lex(src.text@).1.len() ==> (#[trigger] lex(src.text@).1[m]).0.valid_in(src),
{
    let cs = src.text@;
    assert forall|m: int| 0 <= m < lex(cs).0.len() implies (#[trigger] lex(cs).0[m]).1.valid_in(src) by {
        lemma_span_round_trip(src, m);
    }
    lemma_lex_from_error_spans(cs, 0);
    assert forall|m: int| 0 <= m < lex(cs).1.len() implies (#[trigger] lex(cs).1[m]).0.valid_in(src) by {
        assert(error_after(cs, lex(cs).1[m], 0));
        let (i, j) = choose|i: int, j: int| 0 <= i < j <= cs.len() && lex(cs).1[m].0 == #[trigger] byte_span(cs, i, j);
        lemma_byte_span_valid(src, i, j);
    }
}

} // verus!
