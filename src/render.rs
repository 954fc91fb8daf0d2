//! Rendering of diagnostics: a located header, then each source line that a
//! span touches, colored by token, with a caret row under the span.
use vstd::prelude::*;
use vstd::string::StringExecFns;
use crate::lexer::TokenVec;
use crate::source::Source;
use crate::span::Span;
use crate::text::{decimal, push_char, push_decimal, push_str, whitespace_char, is_whitespace};
use crate::token::{Token, TokenKind, TokenType};

verus! {

/// The highlight a character is printed with.
#[derive(Clone, Copy, PartialEq, Eq, Structural)]
pub enum Paint {
    Plain,
    Name,
    Symbol,
    Binder,
    Error,
}

/// The SGR parameters of a highlight.
pub open spec fn paint_code(p: Paint) -> Seq<char> {
    match p {
        Paint::Plain => ""@,
        Paint::Name => ";38;5;153"@,
        Paint::Symbol => ";38;5;133"@,
        Paint::Binder => ";1;38;5;215"@,
        Paint::Error => ";1;31"@,
    }
}

/// Identifiers, numbers and operators, and the binder and dot glyphs, each
/// have their highlight; comments and line breaks have none.
pub open spec fn token_paint(k: TokenKind) -> Paint {
    match k {
        TokenKind::Ident(_) => Paint::Name,
        TokenKind::Lambda | TokenKind::Dot => Paint::Binder,
        TokenKind::Comment(_) | TokenKind::Eol => Paint::Plain,
        _ => Paint::Symbol,
    }
}

/// Highlight of the first token that covers byte `i`; none when no token does.
pub open spec fn covering_paint(toks: Seq<(TokenKind, Span)>, i: int) -> Paint
    decreases toks.len(),
{
    if toks.len() == 0 {
        Paint::Plain
    } else if toks[0].1.start <= i < toks[0].1.end {
        token_paint(toks[0].0)
    } else {
        covering_paint(toks.drop_first(), i)
    }
}

/// Highlight of byte `i`: the error highlight inside `[start, end)`, else
/// that of its token.
pub open spec fn paint_at(toks: Seq<(TokenKind, Span)>, i: int, start: int, end: int) -> Paint {
    if start <= i < end {
        Paint::Error
    } else {
        covering_paint(toks, i)
    }
}

pub open spec fn escape(p: Paint) -> Seq<char> {
    "\x1B["@ + paint_code(p) + "m"@
}

/// Characters `k..b` of a line, each preceded by an escape where its
/// highlight differs from the one before it (`prev` before the first).
pub open spec fn painted(
    cs: Seq<char>,
    offs: Seq<usize>,
    toks: Seq<(TokenKind, Span)>,
    k: int,
    b: int,
    prev: Paint,
    start: int,
    end: int,
) -> Seq<char>
    decreases b - k,
{
    if k >= b {
        seq![]
    } else {
        let p = paint_at(toks, offs[k] as int, start, end);
        let head = if paint_code(p) != paint_code(prev) {
            escape(p)
        } else {
            seq![]
        };
        head + seq![cs[k]] + painted(cs, offs, toks, k + 1, b, p, start, end)
    }
}

/// End of the characters `a..e` once trailing whitespace is removed.
pub open spec fn trim_end(cs: Seq<char>, a: int, e: int) -> int
    decreases e - a,
{
    if e > a && whitespace_char(cs[e - 1]) {
        trim_end(cs, a, e - 1)
    } else {
        e
    }
}

/// How many of the characters `k..b` start before byte `x`.
pub open spec fn count_before(offs: Seq<usize>, k: int, b: int, x: int) -> int
    decreases b - k,
{
    if k >= b {
        0
    } else {
        (if (offs[k] as int) < x {
            1int
        } else {
            0
        }) + count_before(offs, k + 1, b, x)
    }
}

pub open spec fn repeat(c: char, n: int) -> Seq<char> {
    Seq::new(if n < 0 { 0 } else { n as nat }, |_i: int| c)
}

/// A number right-aligned in three columns.
pub open spec fn pad3(n: nat) -> Seq<char> {
    let d = decimal(n);
    if d.len() < 3 {
        repeat(' ', 3 - d.len()) + d
    } else {
        d
    }
}

pub open spec fn max1(n: int) -> int {
    if n > 1 {
        n
    } else {
        1
    }
}

/// One rendered line of a diagnostic: the gutter with the line number, the
/// line's text without trailing whitespace and colored, then a row of
/// carets under the span, aligned by characters, at least one wide.
pub open spec fn render_line(
    src: &Source,
    toks: Seq<(TokenKind, Span)>,
    line: int,
    start: int,
    end: int,
) -> Seq<char> {
    let (ls, le) = src.line_range(line);
    let a = src.char_index(ls as int);
    let b = trim_end(src.text@, a, src.char_index(le as int));
    let sc = count_before(src.offsets@, a, b, start);
    let ec = count_before(src.offsets@, a, b, end);
    "\x1B[1;34m"@ + pad3((line + 1) as nat) + " |\x1B[m  "@ + painted(
        src.text@,
        src.offsets@,
        toks,
        a,
        b,
        Paint::Plain,
        start,
        end,
    ) + "\x1B[m\n"@ + "\x1B[1;34m    |\x1B[m  "@ + repeat(' ', sc) + "\x1B[1;31m"@ + repeat(
        '^',
        max1(ec - sc),
    ) + "\x1B[m\n"@
}

/// The rendered lines `line..=last`.
pub open spec fn render_lines(
    src: &Source,
    toks: Seq<(TokenKind, Span)>,
    line: int,
    last: int,
    start: int,
    end: int,
) -> Seq<char>
    decreases last + 1 - line,
{
    if line > last {
        seq![]
    } else {
        render_line(src, toks, line, start, end) + render_lines(src, toks, line + 1, last, start, end)
    }
}

/// A diagnostic: a header with the message, the location, a gutter line,
/// the rendered source lines and a blank line.
pub open spec fn report(header: Seq<char>, message: Seq<char>, location: Seq<char>, body: Seq<char>) -> Seq<char> {
    "\x1B[1;31m"@ + header + ":\x1B[39m "@ + message + "\x1B[m\n"@ + "   \x1B[1;34m-->\x1B[m "@ + location
        + "\n"@ + "    \x1B[1;34m|\x1B[m\n"@ + body + "\n"@
}

/// The diagnostic for `message` at `span`.
pub open spec fn span_report(tokens: &TokenVec, header: Seq<char>, message: Seq<char>, span: Span) -> Seq<char> {
    let src = tokens.source;
    report(
        header,
        message,
        span.location(src),
        render_lines(
            src,
            tokens.model(),
            src.line_of(span.start as int),
            src.line_of(span.end as int),
            span.start as int,
            span.end as int,
        ),
    )
}

/// The diagnostics of a list of errors, in order; an error whose span is
/// not well formed in the source is left out.
pub open spec fn report_all(tokens: &TokenVec, header: Seq<char>, errors: Seq<(Seq<char>, Span)>) -> Seq<char>
    decreases errors.len(),
{
    if errors.len() == 0 {
        seq![]
    } else {
        let (message, span) = errors[0];
        (if span.valid_in(tokens.source) {
            span_report(tokens, header, message, span)
        } else {
            seq![]
        }) + report_all(tokens, header, errors.drop_first())
    }
}

/// Renders the diagnostic for `message` at `span`.
pub fn print_report(tokens: &TokenVec, header: &str, message: &str, span: Span) -> (r: String)
    requires
        tokens.source.wf(),
        span.valid_in(tokens.source),
    ensures
        r@ == span_report(tokens, header@, message@, span),
{
    let mut out = String::from_str("\x1B[1;31m");
    push_str(&mut out, header);
    push_str(&mut out, ":\x1B[39m ");
    push_str(&mut out, message);
    push_str(&mut out, "\x1B[m\n");
    push_str(&mut out, "   \x1B[1;34m-->\x1B[m ");
    let location = span.get_location_str(tokens.source);
    push_str(&mut out, location.as_str());
    push_str(&mut out, "\n");
    push_str(&mut out, "    \x1B[1;34m|\x1B[m\n");
    let body = span.print(tokens);
    push_str(&mut out, body.as_str());
    push_str(&mut out, "\n");
    proof {
        assert(out@ =~= span_report(tokens, header@, message@, span));
    }
    out
}

/// Renders the diagnostics of a list of errors.
pub fn print_reports(tokens: &TokenVec, header: &str, errors: &Vec<(String, Span)>) -> (r: String)
    requires
        tokens.source.wf(),
    ensures
        r@ == report_all(tokens, header@, errors@.map_values(|e: (String, Span)| (e.0@, e.1))),
{
    let ghost all = errors@.map_values(|e: (String, Span)| (e.0@, e.1));
    let mut out = String::new();
    let mut k: usize = 0;
    assert(all.subrange(0, all.len() as int) =~= all);
    while k < errors.len()
        invariant
            tokens.source.wf(),
            k <= errors@.len(),
            all == errors@.map_values(|e: (String, Span)| (e.0@, e.1)),
            report_all(tokens, header@, all) == out@ + report_all(tokens, header@, all.subrange(k as int, all.len() as int)),
        decreases errors@.len() - k,
    {
        let (message, span) = &errors[k];
        let ghost rest = all.subrange(k as int, all.len() as int);
        let ghost before = out@;
        if span.is_valid_in(tokens.source) {
            let piece = print_report(tokens, header, message.as_str(), *span);
            push_str(&mut out, piece.as_str());
        }
        proof {
            assert(rest.drop_first() =~= all.subrange(k + 1, all.len() as int));
            assert(before + report_all(tokens, header@, rest) =~= out@ + report_all(tokens, header@, rest.drop_first()));
        }
        k = k + 1;
    }
    proof {
        assert(all.subrange(k as int, all.len() as int) =~= Seq::<(Seq<char>, Span)>::empty());
        assert(out@ + report_all(tokens, header@, all.subrange(k as int, all.len() as int)) =~= out@);
    }
    out
}

fn paint_of(token_type: &TokenType) -> (p: Paint)
    ensures
        p == token_paint(token_type@),
{
    match token_type {
        TokenType::Ident(_) => Paint::Name,
        TokenType::Lambda | TokenType::Dot => Paint::Binder,
        TokenType::Comment(_) | TokenType::Eol => Paint::Plain,
        _ => Paint::Symbol,
    }
}

fn push_escape(out: &mut String, p: Paint)
    ensures
        final(out)@ == old(out)@ + escape(p),
{
    push_str(out, "\x1B[");
    match p {
        Paint::Plain => {},
        Paint::Name => push_str(out, ";38;5;153"),
        Paint::Symbol => push_str(out, ";38;5;133"),
        Paint::Binder => push_str(out, ";1;38;5;215"),
        Paint::Error => push_str(out, ";1;31"),
    }
    push_str(out, "m");
    proof {
        reveal_strlit("");
        assert(final(out)@ =~= old(out)@ + escape(p));
    }
}

/// Highlight of byte `i` by the tokens alone.
fn covering_paint_of(tokens: &Vec<Token>, i: usize) -> (p: Paint)
    ensures
        p == covering_paint(tokens@.map_values(|t: Token| t@), i as int),
{
    let ghost all = tokens@.map_values(|t: Token| t@);
    let mut k: usize = 0;
    assert(all.subrange(0, all.len() as int) =~= all);
    while k < tokens.len()
        invariant
            k <= tokens@.len(),
            all == tokens@.map_values(|t: Token| t@),
            covering_paint(all, i as int) == covering_paint(all.subrange(k as int, all.len() as int), i as int),
        decreases tokens@.len() - k,
    {
        let span = tokens[k].span;
        let ghost rest = all.subrange(k as int, all.len() as int);
        if span.start <= i && i < span.end {
            return paint_of(&tokens[k].token_type);
        }
        proof {
            assert(rest.drop_first() =~= all.subrange(k + 1, all.len() as int));
        }
        k = k + 1;
    }
    proof {
        assert(all.subrange(k as int, all.len() as int) =~= Seq::<(TokenKind, Span)>::empty());
    }
    Paint::Plain
}

/// Appends `n` copies of `c`.
fn push_repeat(out: &mut String, c: char, n: usize)
    ensures
        final(out)@ == old(out)@ + repeat(c, n as int),
{
    let mut k: usize = 0;
    while k < n
        invariant
            k <= n,
            out@ == old(out)@ + repeat(c, k as int),
        decreases n - k,
    {
        push_char(out, c);
        k = k + 1;
        assert(out@ =~= old(out)@ + repeat(c, k as int));
    }
}

fn push_pad3(out: &mut String, n: u64)
    ensures
        final(out)@ == old(out)@ + pad3(n as nat),
{
    let width: usize = if n < 10 {
        1
    } else if n < 100 {
        2
    } else {
        3
    };
    proof {
        reveal_with_fuel(decimal, 3);
        assert(decimal(n as nat).len() >= 3 || decimal(n as nat).len() == width);
    }
    if width < 3 {
        push_repeat(out, ' ', 3 - width);
    }
    push_decimal(out, n);
    proof {
        assert(final(out)@ =~= old(out)@ + pad3(n as nat));
    }
}

/// End of the characters `a..e` once trailing whitespace is removed.
fn trimmed_end(cs: &Vec<char>, a: usize, e: usize) -> (b: usize)
    requires
        a <= e <= cs@.len(),
    ensures
        b == trim_end(cs@, a as int, e as int),
        a <= b <= e,
{
    let mut b = e;
    while b > a && is_whitespace(cs[b - 1])
        invariant
            a <= b <= e <= cs@.len(),
            trim_end(cs@, a as int, e as int) == trim_end(cs@, a as int, b as int),
        decreases b,
    {
        b = b - 1;
    }
    b
}

/// Renders one line of a diagnostic for the span `[start, end)`.
pub fn print_line(tokens: &TokenVec, line: usize, start: usize, end: usize) -> (r: String)
    requires
        tokens.source.wf(),
        line < tokens.source.lines@.len(),
        start <= end,
    ensures
        r@ == render_line(tokens.source, tokens.model(), line as int, start as int, end as int),
{
    let source = tokens.source;
    let (line_start, line_end) = source.get_line_offset(line);
    proof {
        crate::source::lemma_line_range_boundaries(source, line as int);
    }
    let a = source.find_char(line_start);
    let e = source.find_char(line_end);
    if e < a {
        proof {
            assert(source.offsets@[e as int] < source.offsets@[a as int]);
        }
    }
    let b = trimmed_end(&source.chars, a, e);
    let ghost toks = tokens.model();
    let ghost cs = source.text@;
    let ghost offs = source.offsets@;
    let mut out = String::from_str("\x1B[1;34m");
    let line_count = source.lines.len();
    assert(line + 1 <= line_count);
    push_pad3(&mut out, (line + 1) as u64);
    push_str(&mut out, " |\x1B[m  ");
    let ghost head = out@;
    let mut curr = Paint::Plain;
    let mut start_chars: usize = 0;
    let mut end_chars: usize = 0;
    let mut k = a;
    while k < b
        invariant
            source.wf(),
            a <= k <= b <= source.chars@.len(),
            cs == source.text@,
            offs == source.offsets@,
            toks == tokens.model(),
            head + painted(cs, offs, toks, a as int, b as int, Paint::Plain, start as int, end as int)
                == out@ + painted(cs, offs, toks, k as int, b as int, curr, start as int, end as int),
            count_before(offs, a as int, b as int, start as int) == start_chars + count_before(offs, k as int, b as int, start as int),
            count_before(offs, a as int, b as int, end as int) == end_chars + count_before(offs, k as int, b as int, end as int),
            start_chars <= k - a,
            end_chars <= k - a,
        decreases b - k,
    {
        let i = source.offsets[k];
        let p = if start <= i && i < end {
            Paint::Error
        } else {
            covering_paint_of(&tokens.tokens, i)
        };
        let ghost before = out@;
        if !same_code(p, curr) {
            push_escape(&mut out, p);
        }
        push_char(&mut out, source.chars[k]);
        proof {
            let h = if paint_code(p) != paint_code(curr) { escape(p) } else { seq![] };
            assert(out@ =~= before + h + seq![cs[k as int]]);
            assert(h + seq![cs[k as int]] + painted(cs, offs, toks, k + 1, b as int, p, start as int, end as int)
                == painted(cs, offs, toks, k as int, b as int, curr, start as int, end as int));
            assert(before + (h + seq![cs[k as int]] + painted(cs, offs, toks, k + 1, b as int, p, start as int, end as int))
                =~= out@ + painted(cs, offs, toks, k + 1, b as int, p, start as int, end as int));
        }
        if i < start {
            start_chars = start_chars + 1;
        }
        if i < end {
            end_chars = end_chars + 1;
        }
        curr = p;
        k = k + 1;
    }
    proof {
        assert(out@ + painted(cs, offs, toks, k as int, b as int, curr, start as int, end as int) =~= out@);
        lemma_count_before_monotone(offs, a as int, b as int, start as int, end as int);
    }
    push_str(&mut out, "\x1B[m\n");
    push_str(&mut out, "\x1B[1;34m    |\x1B[m  ");
    push_repeat(&mut out, ' ', start_chars);
    push_str(&mut out, "\x1B[1;31m");
    let width = if end_chars - start_chars > 1 {
        end_chars - start_chars
    } else {
        1
    };
    push_repeat(&mut out, '^', width);
    push_str(&mut out, "\x1B[m\n");
    proof {
        assert(out@ =~= render_line(source, toks, line as int, start as int, end as int));
    }
    out
}

fn same_code(p: Paint, q: Paint) -> (b: bool)
    ensures
        b == (paint_code(p) == paint_code(q)),
{
    proof {
        reveal_strlit("");
        reveal_strlit(";38;5;153");
        reveal_strlit(";38;5;133");
        reveal_strlit(";1;38;5;215");
        reveal_strlit(";1;31");
    }
    if p == q {
        return true;
    }
    proof {
        assert(paint_code(p) != paint_code(q)) by {
            if paint_code(p) == paint_code(q) {
                assert(paint_code(p).len() == paint_code(q).len());
                assert(paint_code(p)[paint_code(p).len() - 2] == paint_code(q)[paint_code(q).len() - 2]);
            }
        }
    }
    false
}

proof fn lemma_count_before_monotone(offs: Seq<usize>, k: int, b: int, x: int, y: int)
    requires
        x <= y,
    ensures
        count_before(offs, k, b, x) <= count_before(offs, k, b, y),
        0 <= count_before(offs, k, b, x),
    decreases b - k,
{
    if k < b {
        lemma_count_before_monotone(offs, k + 1, b, x, y);
    }
}

} // verus!
